//! Lists of names read as sets: the tags of an entity, the children of a
//! service, the channels that a watcher covers.

use vstd::prelude::*;

verus! {

/// The name `k` occurs in `names`.
pub open spec fn listed(names: Seq<String>, k: Seq<char>) -> bool {
    exists|i: int| 0 <= i < names.len() && (#[trigger] names[i])@ == k
}

/// Every name of `a` occurs in `b`.
pub open spec fn all_listed(a: Seq<String>, b: Seq<String>) -> bool {
    forall|i: int| 0 <= i < a.len() ==> listed(b, (#[trigger] a[i])@)
}

/// The names read as mathematical strings.
pub open spec fn texts(names: Seq<String>) -> Seq<Seq<char>> {
    names.map_values(|s: String| s@)
}

/// Whether `k` occurs in `names`.
pub fn contains_name(names: &Vec<String>, k: &String) -> (b: bool)
    ensures
        b == listed(names@, k@),
{
    let mut i: usize = 0;
    while i < names.len()
        invariant
            i <= names.len(),
            forall|j: int| 0 <= j < i ==> (#[trigger] names@[j])@ != k@,
        decreases names.len() - i,
    {
        if names[i] == *k {
            return true;
        }
        i += 1;
    }
    false
}

/// Whether every name of `a` occurs in `b`.
pub fn contains_all(b: &Vec<String>, a: &Vec<String>) -> (r: bool)
    ensures
        r == all_listed(a@, b@),
{
    let mut i: usize = 0;
    while i < a.len()
        invariant
            i <= a.len(),
            forall|j: int| 0 <= j < i ==> listed(b@, (#[trigger] a@[j])@),
        decreases a.len() - i,
    {
        if !contains_name(b, &a[i]) {
            return false;
        }
        i += 1;
    }
    true
}

/// Adds `k` unless it is there already.
pub fn add_name(names: &mut Vec<String>, k: String)
    ensures
        forall|x: Seq<char>|
            #![trigger listed(final(names)@, x)]
            #![trigger listed(old(names)@, x)]
            listed(final(names)@, x) <==> listed(old(names)@, x) || x == k@,
        listed(final(names)@, k@),
        listed(old(names)@, k@) ==> final(names)@ == old(names)@,
        !listed(old(names)@, k@) ==> final(names)@ == old(names)@.push(k),
{
    if !contains_name(names, &k) {
        let ghost before = names@;
        names.push(k);
        assert forall|x: Seq<char>| listed(names@, x) <==> listed(before, x) || x == k@ by {
            if listed(before, x) {
                let i = choose|i: int| 0 <= i < before.len() && (#[trigger] before[i])@ == x;
                assert(names@[i]@ == x);
            }
            if x == k@ {
                assert(names@[before.len() as int]@ == x);
            }
            if listed(names@, x) {
                let i = choose|i: int| 0 <= i < names@.len() && (#[trigger] names@[i])@ == x;
                if i < before.len() {
                    assert(before[i]@ == x);
                }
            }
        }
    }
}

/// The names of `names` other than `k`, in their order.
pub open spec fn without(names: Seq<String>, k: Seq<char>) -> Seq<String>
    decreases names.len(),
{
    if names.len() == 0 {
        Seq::empty()
    } else if names.last()@ == k {
        without(names.drop_last(), k)
    } else {
        without(names.drop_last(), k).push(names.last())
    }
}

/// What is left without `k` is what was listed, but for `k`; nothing
/// leaves a list that does not hold `k`.
pub proof fn lemma_without(names: Seq<String>, k: Seq<char>)
    ensures
        forall|x: Seq<char>|
            #![trigger listed(without(names, k), x)]
            #![trigger listed(names, x)]
            listed(without(names, k), x) <==> listed(names, x) && x != k,
        without(names, k).len() <= names.len(),
        !listed(names, k) ==> without(names, k) == names,
        listed(names, k) ==> without(names, k).len() < names.len(),
    decreases names.len(),
{
    if names.len() > 0 {
        let head = names.drop_last();
        let last = names.last();
        lemma_without(head, k);
        let rest = without(head, k);
        let all = without(names, k);
        assert forall|x: Seq<char>| listed(all, x) <==> listed(names, x) && x != k by {
            if listed(all, x) {
                let i = choose|i: int| 0 <= i < all.len() && (#[trigger] all[i])@ == x;
                if i < rest.len() {
                    assert(rest[i]@ == x);
                    assert(listed(rest, x));
                    let j = choose|j: int| 0 <= j < head.len() && (#[trigger] head[j])@ == x;
                    assert(names[j]@ == x);
                } else {
                    assert(names[names.len() - 1]@ == x);
                }
            }
            if listed(names, x) && x != k {
                let j = choose|j: int| 0 <= j < names.len() && (#[trigger] names[j])@ == x;
                if j < head.len() {
                    assert(head[j]@ == x);
                    assert(listed(rest, x));
                    let i = choose|i: int| 0 <= i < rest.len() && (#[trigger] rest[i])@ == x;
                    assert(all[i]@ == x);
                } else {
                    assert(all[all.len() - 1]@ == x);
                }
            }
        }
        if !listed(names, k) {
            assert(names[names.len() - 1]@ != k);
            assert forall|j: int| 0 <= j < head.len() implies (#[trigger] head[j])@ != k by {
                assert(names[j]@ != k);
            }
            assert(rest == head);
            assert(all =~= names);
        }
        if listed(names, k) {
            let j = choose|j: int| 0 <= j < names.len() && (#[trigger] names[j])@ == k;
            if j < head.len() {
                assert(head[j]@ == k);
            }
        }
    }
}

/// A name appended to a list that does not hold it leaves again alone.
pub proof fn lemma_without_appended(names: Seq<String>, k: String)
    requires
        !listed(names, k@),
    ensures
        without(names.push(k), k@) == names,
{
    assert(names.push(k).drop_last() =~= names);
    lemma_without(names, k@);
}

/// Removes every occurrence of `k`.
pub fn drop_name(names: &mut Vec<String>, k: &String)
    ensures
        final(names)@ == without(old(names)@, k@),
        forall|x: Seq<char>|
            #![trigger listed(final(names)@, x)]
            #![trigger listed(old(names)@, x)]
            listed(final(names)@, x) <==> listed(old(names)@, x) && x != k@,
        !listed(old(names)@, k@) ==> final(names)@ == old(names)@,
        listed(old(names)@, k@) ==> final(names)@.len() < old(names)@.len(),
        final(names)@.len() <= old(names)@.len(),
{
    let ghost before = names@;
    let ghost mut seen: int = 0;
    let mut i: usize = 0;
    assert(before.subrange(0, 0).len() == 0);
    assert(names@ =~= without(before.subrange(0, 0), k@) + before.subrange(0, before.len() as int));
    while i < names.len()
        invariant
            0 <= i <= seen <= before.len(),
            i == without(before.subrange(0, seen), k@).len(),
            names@ == without(before.subrange(0, seen), k@) + before.subrange(
                seen,
                before.len() as int,
            ),
        decreases names.len() - i,
    {
        let ghost head = before.subrange(0, seen);
        let ghost next = before.subrange(0, seen + 1);
        assert(next.drop_last() =~= head);
        assert(next.last() == before[seen]);
        assert(names@[i as int] == before[seen]);
        if names[i] == *k {
            names.remove(i);
            assert(names@ =~= without(next, k@) + before.subrange(seen + 1, before.len() as int));
        } else {
            assert(names@ =~= without(next, k@) + before.subrange(seen + 1, before.len() as int));
            i += 1;
        }
        proof {
            seen = seen + 1;
        }
    }
    proof {
        assert(before.subrange(0, before.len() as int) =~= before);
        assert(seen == before.len()) by {
            if seen < before.len() {
                assert(names@.len() == i + (before.len() - seen));
            }
        }
        assert(names@ =~= without(before, k@));
        lemma_without(before, k@);
    }
}

/// Adds each name of `more` that is not there yet.
pub fn add_names(names: &mut Vec<String>, more: &Vec<String>)
    ensures
        forall|x: Seq<char>|
            #![trigger listed(final(names)@, x)]
            #![trigger listed(old(names)@, x)]
            #![trigger listed(more@, x)]
            listed(final(names)@, x) <==> listed(old(names)@, x) || listed(more@, x),
        all_listed(more@, old(names)@) ==> final(names)@ == old(names)@,
{
    let ghost before = names@;
    let mut i: usize = 0;
    while i < more.len()
        invariant
            i <= more.len(),
            forall|x: Seq<char>| listed(before, x) ==> listed(names@, x),
            forall|x: Seq<char>| listed(names@, x) ==> listed(before, x) || listed(more@, x),
            forall|j: int| 0 <= j < i ==> listed(names@, (#[trigger] more@[j])@),
            all_listed(more@, before) ==> names@ == before,
        decreases more.len() - i,
    {
        let ghost prev = names@;
        assert(listed(more@, more@[i as int]@));
        add_name(names, more[i].clone());
        assert forall|j: int| 0 <= j < i + 1 implies listed(names@, (#[trigger] more@[j])@) by {
            if j < i {
                assert(listed(prev, more@[j]@));
            }
        }
        i += 1;
    }
    assert forall|x: Seq<char>| listed(more@, x) implies listed(names@, x) by {
        let j = choose|j: int| 0 <= j < more@.len() && (#[trigger] more@[j])@ == x;
        assert(listed(names@, more@[j]@));
    }
}

/// Removes every occurrence of each name of `gone`.
pub fn drop_names(names: &mut Vec<String>, gone: &Vec<String>)
    ensures
        forall|x: Seq<char>|
            #![trigger listed(final(names)@, x)]
            #![trigger listed(old(names)@, x)]
            listed(final(names)@, x) <==> listed(old(names)@, x) && !listed(gone@, x),
{
    let ghost before = names@;
    let mut i: usize = 0;
    while i < gone.len()
        invariant
            i <= gone.len(),
            forall|x: Seq<char>| listed(names@, x) ==> listed(before, x),
            forall|x: Seq<char>| listed(before, x) && !listed(gone@, x) ==> listed(names@, x),
            forall|j: int| 0 <= j < i ==> !listed(names@, (#[trigger] gone@[j])@),
        decreases gone.len() - i,
    {
        let ghost prev = names@;
        drop_name(names, &gone[i]);
        assert forall|x: Seq<char>| listed(before, x) && !listed(gone@, x) implies listed(
            names@,
            x,
        ) by {
            assert(listed(prev, x));
            if x == gone@[i as int]@ {
                assert(listed(gone@, x));
            }
        }
        assert forall|j: int| 0 <= j < i + 1 implies !listed(names@, (#[trigger] gone@[j])@) by {
            if j < i {
                assert(!listed(prev, gone@[j]@));
            }
        }
        i += 1;
    }
    assert forall|x: Seq<char>| listed(names@, x) implies !listed(gone@, x) by {
        if listed(gone@, x) {
            let j = choose|j: int| 0 <= j < gone@.len() && (#[trigger] gone@[j])@ == x;
            assert(!listed(names@, gone@[j]@));
        }
    }
}

/// A copy of a list of names.
pub fn copy_names(names: &Vec<String>) -> (r: Vec<String>)
    ensures
        r@ == names@,
{
    let mut r: Vec<String> = Vec::new();
    let mut i: usize = 0;
    while i < names.len()
        invariant
            i <= names.len(),
            r@ == names@.subrange(0, i as int),
        decreases names.len() - i,
    {
        r.push(names[i].clone());
        assert(r@ =~= names@.subrange(0, i + 1));
        i += 1;
    }
    assert(names@.subrange(0, names@.len() as int) =~= names@);
    r
}

} // verus!
