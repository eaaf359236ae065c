//! Tables of records indexed by a unique key.
//!
//! A table keeps its records in insertion order and never holds two records
//! with the same key. Its view is the map from each key to its record.

use vstd::prelude::*;

verus! {

/// A record that can be stored in a [`Table`].
pub trait Keyed {
    /// The executable identifier by which a record is looked up.
    type Id;

    /// The mathematical value of an identifier.
    type Key;

    /// The key of this record.
    spec fn key(&self) -> Self::Key;

    /// The key that an identifier stands for.
    spec fn key_of(id: &Self::Id) -> Self::Key;

    /// Whether `id` identifies this record.
    fn has_id(&self, id: &Self::Id) -> (b: bool)
        ensures
            b == (self.key() == Self::key_of(id)),
    ;
}

/// No two records of `s` share a key.
pub open spec fn keys_unique<T: Keyed>(s: Seq<T>) -> bool {
    forall|i: int, j: int| 0 <= i < j < s.len()
        ==> (#[trigger] s[i]).key() != (#[trigger] s[j]).key()
}

/// Some record of `s` has key `k`.
pub open spec fn has_key<T: Keyed>(s: Seq<T>, k: T::Key) -> bool {
    exists|i: int| 0 <= i < s.len() && (#[trigger] s[i]).key() == k
}

/// The position of a record of `s` with key `k`.
pub open spec fn position<T: Keyed>(s: Seq<T>, k: T::Key) -> int {
    choose|i: int| 0 <= i < s.len() && (#[trigger] s[i]).key() == k
}

/// The map from each key of `s` to a record that carries it.
#[verifier::opaque]
pub open spec fn as_map<T: Keyed>(s: Seq<T>) -> Map<T::Key, T> {
    Map::new(|k: T::Key| has_key(s, k), |k: T::Key| s[position(s, k)])
}

/// Each record of a duplicate-free sequence is the one its key maps to.
pub proof fn lemma_as_map_index<T: Keyed>(s: Seq<T>, i: int)
    requires
        keys_unique(s),
        0 <= i < s.len(),
    ensures
        as_map(s).dom().contains(s[i].key()),
        as_map(s)[s[i].key()] == s[i],
        position(s, s[i].key()) == i,
{
    reveal(as_map);
    let k = s[i].key();
    assert(has_key(s, k));
    let p = position(s, k);
    assert(0 <= p < s.len() && s[p].key() == k);
    if p != i {
        if p < i {
            assert(s[p].key() != s[i].key());
        } else {
            assert(s[i].key() != s[p].key());
        }
    }
}

/// Inserting a record with a fresh key extends the map by that key.
pub proof fn lemma_as_map_insert<T: Keyed>(s: Seq<T>, i: int, t: T)
    requires
        keys_unique(s),
        0 <= i <= s.len(),
        !has_key(s, t.key()),
    ensures
        keys_unique(s.insert(i, t)),
        as_map(s.insert(i, t)) == as_map(s).insert(t.key(), t),
{
    reveal(as_map);
    let s2 = s.insert(i, t);
    assert forall|a: int, b: int| 0 <= a < b < s2.len() implies (#[trigger] s2[a]).key() != (
    #[trigger] s2[b]).key() by {
        let a0 = if a < i { a } else { a - 1 };
        let b0 = if b < i { b } else { b - 1 };
        if a == i {
            assert(s2[b] == s[b0]);
        } else if b == i {
            assert(s2[a] == s[a0]);
        } else {
            assert(s2[a] == s[a0]);
            assert(s2[b] == s[b0]);
        }
    }
    let m1 = as_map(s2);
    let m2 = as_map(s).insert(t.key(), t);
    assert forall|k: T::Key| m1.dom().contains(k) <==> m2.dom().contains(k) by {
        if has_key(s2, k) {
            let p = position(s2, k);
            if p != i {
                let src = if p < i { p } else { p - 1 };
                assert(s2[p] == s[src]);
                assert(has_key(s, k));
            }
        }
        if has_key(s, k) {
            let p = position(s, k);
            let dst = if p < i { p } else { p + 1 };
            assert(s2[dst] == s[p]);
            assert(has_key(s2, k));
        }
        if k == t.key() {
            assert(s2[i] == t);
            assert(has_key(s2, k));
        }
    }
    assert forall|k: T::Key| m1.dom().contains(k) implies #[trigger] m1[k] == m2[k] by {
        let p = position(s2, k);
        if p == i {
            assert(s2[i] == t);
        } else {
            let src = if p < i { p } else { p - 1 };
            assert(s2[p] == s[src]);
            lemma_as_map_index(s, src);
        }
    }
    assert(m1 =~= m2);
}

/// Removing a record removes its key from the map.
pub proof fn lemma_as_map_remove<T: Keyed>(s: Seq<T>, i: int)
    requires
        keys_unique(s),
        0 <= i < s.len(),
    ensures
        keys_unique(s.remove(i)),
        !has_key(s.remove(i), s[i].key()),
        as_map(s.remove(i)) == as_map(s).remove(s[i].key()),
        s.remove(i).insert(i, s[i]) == s,
{
    reveal(as_map);
    let s2 = s.remove(i);
    assert forall|a: int| 0 <= a < s2.len() implies #[trigger] s2[a]
        == s[if a < i { a } else { a + 1 }] by {}
    assert forall|a: int, b: int| 0 <= a < b < s2.len() implies (#[trigger] s2[a]).key() != (
    #[trigger] s2[b]).key() by {
        let a0 = if a < i { a } else { a + 1 };
        let b0 = if b < i { b } else { b + 1 };
        assert(s[a0].key() != s[b0].key());
    }
    if has_key(s2, s[i].key()) {
        let p = position(s2, s[i].key());
        let src = if p < i { p } else { p + 1 };
        assert(s2[p] == s[src]);
        if src < i {
            assert(s[src].key() != s[i].key());
        } else {
            assert(s[i].key() != s[src].key());
        }
    }
    assert(s2.insert(i, s[i]) =~= s);
    lemma_as_map_insert(s2, i, s[i]);
    assert(as_map(s2) =~= as_map(s).remove(s[i].key()));
}

/// Two sequences carry the same keys at the same positions.
pub open spec fn same_keys<T: Keyed>(a: Seq<T>, b: Seq<T>) -> bool {
    a.len() == b.len() && forall|i: int| 0 <= i < a.len() ==> (#[trigger] a[i]).key() == b[i].key()
}

/// Sequences with the same keys at the same positions map the same keys,
/// each to the record at the same position.
pub proof fn lemma_same_keys<T: Keyed>(a: Seq<T>, b: Seq<T>)
    requires
        keys_unique(a),
        same_keys(a, b),
    ensures
        keys_unique(b),
        as_map(a).dom() == as_map(b).dom(),
        forall|k: T::Key| #[trigger]
            as_map(a).dom().contains(k) ==> 0 <= position(a, k) < a.len() && as_map(a)[k]
                == a[position(
                a,
                k,
            )] && as_map(b)[k] == b[position(a, k)] && a[position(a, k)].key() == k,
{
    reveal(as_map);
    assert forall|i: int, j: int| 0 <= i < j < b.len() implies (#[trigger] b[i]).key() != (
    #[trigger] b[j]).key() by {
        assert(a[i].key() != a[j].key());
    }
    assert forall|k: T::Key| as_map(a).dom().contains(k) <==> as_map(b).dom().contains(k) by {
        if has_key(a, k) {
            let p = position(a, k);
            assert(b[p].key() == k);
        }
        if has_key(b, k) {
            let p = position(b, k);
            assert(a[p].key() == k);
        }
    }
    assert(as_map(a).dom() =~= as_map(b).dom());
    assert forall|k: T::Key| #[trigger] as_map(a).dom().contains(k) implies 0 <= position(a, k)
        < a.len() && as_map(a)[k] == a[position(a, k)] && as_map(b)[k] == b[position(a, k)]
        && a[position(a, k)].key() == k by {
        let p = position(a, k);
        assert(b[p].key() == k);
        lemma_as_map_index(b, p);
    }
}

/// Every key of the map belongs to the record that it maps to.
pub proof fn lemma_as_map_keys<T: Keyed>(s: Seq<T>)
    ensures
        forall|k: T::Key| #[trigger] as_map(s).dom().contains(k) ==> as_map(s)[k].key() == k,
{
    reveal(as_map);
}

/// The keys of the map are the keys of the records.
pub proof fn lemma_as_map_dom<T: Keyed>(s: Seq<T>, k: T::Key)
    ensures
        as_map(s).dom().contains(k) <==> has_key(s, k),
{
    reveal(as_map);
}

/// Records indexed by a unique key, kept in insertion order.
pub struct Table<T> {
    pub entries: Vec<T>,
}

impl<T: Keyed> View for Table<T> {
    type V = Map<T::Key, T>;

    open spec fn view(&self) -> Map<T::Key, T> {
        as_map(self.entries@)
    }
}

impl<T: Keyed> Table<T> {
    /// The records in insertion order.
    pub open spec fn seq(&self) -> Seq<T> {
        self.entries@
    }

    /// No key occurs twice.
    pub open spec fn wf(&self) -> bool {
        keys_unique(self.entries@)
    }

    /// The table maps what `before` maps, but for the key `k`.
    pub open spec fn differs_only_at(&self, before: &Self, k: T::Key) -> bool {
        &&& self@.dom() == before@.dom()
        &&& forall|x: T::Key|
            x != k && #[trigger] before@.dom().contains(x) ==> self@[x] == before@[x]
    }

    /// An empty table.
    pub fn new() -> (t: Self)
        ensures
            t.wf(),
            t.seq() == Seq::<T>::empty(),
            t@ == Map::<T::Key, T>::empty(),
    {
        let t = Table { entries: Vec::new() };
        proof {
            reveal(as_map);
        }
        assert(t@ =~= Map::<T::Key, T>::empty());
        t
    }

    /// The number of records.
    pub fn len(&self) -> (n: usize)
        ensures
            n == self.seq().len(),
    {
        self.entries.len()
    }

    /// The record at position `i`.
    pub fn at(&self, i: usize) -> (t: &T)
        requires
            self.wf(),
            i < self.seq().len(),
        ensures
            *t == self.seq()[i as int],
            self@.dom().contains(t.key()),
            self@[t.key()] == *t,
    {
        proof {
            lemma_as_map_index(self.entries@, i as int);
        }
        &self.entries[i]
    }

    /// The position of the record that `id` identifies, if there is one.
    pub fn find(&self, id: &T::Id) -> (r: Option<usize>)
        requires
            self.wf(),
        ensures
            r is Some <==> self@.dom().contains(T::key_of(id)),
            r is Some ==> r->0 < self.seq().len() && self.seq()[r->0 as int] == self@[T::key_of(id)]
                && self.seq()[r->0 as int].key() == T::key_of(id),
    {
        let mut i: usize = 0;
        while i < self.entries.len()
            invariant
                self.wf(),
                i <= self.entries.len(),
                forall|j: int| 0 <= j < i ==> (#[trigger] self.entries@[j]).key() != T::key_of(id),
            decreases self.entries.len() - i,
        {
            if self.entries[i].has_id(id) {
                proof {
                    lemma_as_map_index(self.entries@, i as int);
                }
                return Some(i);
            }
            i += 1;
        }
        proof {
            reveal(as_map);
        }
        None
    }

    /// Whether a record with this identifier is present.
    pub fn contains(&self, id: &T::Id) -> (b: bool)
        requires
            self.wf(),
        ensures
            b == self@.dom().contains(T::key_of(id)),
    {
        self.find(id).is_some()
    }

    /// The record that `id` identifies, if there is one.
    pub fn get(&self, id: &T::Id) -> (r: Option<&T>)
        requires
            self.wf(),
        ensures
            r is Some <==> self@.dom().contains(T::key_of(id)),
            r is Some ==> *r->0 == self@[T::key_of(id)] && r->0.key() == T::key_of(id),
    {
        match self.find(id) {
            Some(i) => Some(&self.entries[i]),
            None => None,
        }
    }

    /// Takes the record at position `i` out of the table.
    pub fn take_at(&mut self, i: usize) -> (t: T)
        requires
            old(self).wf(),
            i < old(self).seq().len(),
        ensures
            final(self).wf(),
            t == old(self).seq()[i as int],
            final(self).seq() == old(self).seq().remove(i as int),
            final(self)@ == old(self)@.remove(t.key()),
            old(self)@.dom().contains(t.key()),
            old(self)@[t.key()] == t,
    {
        proof {
            lemma_as_map_remove(self.entries@, i as int);
            lemma_as_map_index(self.entries@, i as int);
        }
        self.entries.remove(i)
    }

    /// Puts a record with a fresh key at position `i`.
    pub fn put_at(&mut self, i: usize, t: T)
        requires
            old(self).wf(),
            i <= old(self).seq().len(),
            !old(self)@.dom().contains(t.key()),
        ensures
            final(self).wf(),
            final(self).seq() == old(self).seq().insert(i as int, t),
            final(self)@ == old(self)@.insert(t.key(), t),
    {
        proof {
            reveal(as_map);
            lemma_as_map_insert(self.entries@, i as int, t);
        }
        self.entries.insert(i, t);
    }

    /// Appends a record unless its key is taken; a refused record is handed
    /// back and the table is left as it was.
    pub fn insert(&mut self, id: &T::Id, t: T) -> (r: Result<(), T>)
        requires
            old(self).wf(),
            t.key() == T::key_of(id),
        ensures
            final(self).wf(),
            r is Err <==> old(self)@.dom().contains(t.key()),
            r is Err ==> *final(self) == *old(self) && r->Err_0 == t,
            r is Ok ==> final(self).seq() == old(self).seq().push(t) && final(self)@
                == old(self)@.insert(t.key(), t),
    {
        if self.contains(id) {
            return Err(t);
        }
        let n = self.entries.len();
        assert(self.entries@.insert(n as int, t) =~= self.entries@.push(t));
        self.put_at(n, t);
        Ok(())
    }

    /// Removes the record that `id` identifies, if there is one.
    pub fn remove(&mut self, id: &T::Id) -> (r: Option<T>)
        requires
            old(self).wf(),
        ensures
            final(self).wf(),
            r is Some <==> old(self)@.dom().contains(T::key_of(id)),
            r is Some ==> r->0 == old(self)@[T::key_of(id)] && r->0.key() == T::key_of(id),
            r is None ==> *final(self) == *old(self),
            final(self)@ == old(self)@.remove(T::key_of(id)),
    {
        match self.find(id) {
            Some(i) => Some(self.take_at(i)),
            None => {
                assert(self@ =~= self@.remove(T::key_of(id)));
                None
            },
        }
    }
}

} // verus!
