//! Reversible insertions: a batch of records enters a table as a whole or
//! not at all, and a batch that entered can still be taken back.

use crate::table::{has_key, keys_unique, lemma_as_map_dom, Keyed, Table};
use vstd::prelude::*;

verus! {

/// The records of a batch of identified records.
pub open spec fn records<T: Keyed>(pairs: Seq<(T::Id, T)>) -> Seq<T> {
    pairs.map_values(|p: (T::Id, T)| p.1)
}

/// A batch of records that stands at the end of a table. While the handle
/// is held the batch can be taken back; committing the handle gives that
/// up.
pub struct InsertInMap {
    count: usize,
}

impl InsertInMap {
    /// The number of records in the batch.
    pub closed spec fn size(&self) -> nat {
        self.count as nat
    }

    /// Appends the records of `pairs` to `table`, unless that would give
    /// some key twice: then the table is left as it was and the first
    /// identifier whose key was taken, by the table or earlier in the batch,
    /// is returned.
    pub fn start<T: Keyed>(table: &mut Table<T>, pairs: Vec<(T::Id, T)>) -> (r: Result<
        InsertInMap,
        T::Id,
    >)
        requires
            old(table).wf(),
            forall|i: int|
                0 <= i < pairs@.len() ==> (#[trigger] pairs@[i]).1.key() == T::key_of(
                    &pairs@[i].0,
                ),
        ensures
            final(table).wf(),
            r is Ok <==> keys_unique(old(table).seq() + records(pairs@)),
            r is Ok ==> final(table).seq() == old(table).seq() + records(pairs@)
                && r->Ok_0.size() == pairs@.len(),
            r is Err ==> final(table).seq() == old(table).seq(),
            r is Err ==> exists|i: int|
                0 <= i < pairs@.len() && (#[trigger] pairs@[i]).0 == r->Err_0 && has_key(
                    old(table).seq() + records(pairs@.subrange(0, i)),
                    T::key_of(&r->Err_0),
                ) && keys_unique(old(table).seq() + records(pairs@.subrange(0, i))),
    {
        let ghost all = pairs@;
        let ghost before = table.seq();
        let mut rest = pairs;
        let mut count: usize = 0;
        assert(all.len() == rest.len());
        assert(table.seq() =~= before + records(all.subrange(0, 0)));
        while rest.len() > 0
            invariant
                table.wf(),
                all == pairs@,
                before == old(table).seq(),
                count <= all.len() <= usize::MAX,
                rest@ == all.subrange(count as int, all.len() as int),
                table.seq() == before + records(all.subrange(0, count as int)),
                forall|i: int|
                    0 <= i < all.len() ==> (#[trigger] all[i]).1.key() == T::key_of(&all[i].0),
            decreases rest.len(),
        {
            assert(rest@[0] == all[count as int]);
            let (id, record) = rest.remove(0);
            let ghost here = table.seq();
            match table.insert(&id, record) {
                Ok(()) => {
                    assert(table.seq() =~= before + records(all.subrange(0, count + 1)));
                    assert(rest@ =~= all.subrange(count + 1, all.len() as int));
                    count += 1;
                },
                Err(_) => {
                    proof {
                        lemma_as_map_dom(here, T::key_of(&id));
                        let whole = before + records(all);
                        let at = choose|j: int|
                            0 <= j < here.len() && (#[trigger] here[j]).key() == T::key_of(&id);
                        let end = before.len() + count;
                        assert(here.len() == end);
                        assert(whole[at] == here[at]);
                        assert(records(all)[count as int] == all[count as int].1);
                        assert(whole[end] == all[count as int].1);
                        assert(whole[at].key() == whole[end].key());
                        assert(!keys_unique(whole));
                        assert(has_key(here, T::key_of(&id)));
                    }
                    InsertInMap { count }.rollback(table);
                    assert(table.seq() =~= before);
                    assert(all[count as int].0 == id);
                    assert(here == before + records(all.subrange(0, count as int)));
                    return Err(id);
                },
            }
        }
        assert(all.subrange(0, all.len() as int) =~= all);
        Ok(InsertInMap { count })
    }

    /// Gives up the right to take the batch back: the records stay.
    pub fn commit(self) {
    }

    /// Takes the batch back: the last records of `table`, as many as the
    /// batch holds, leave it.
    pub fn rollback<T: Keyed>(self, table: &mut Table<T>)
        requires
            old(table).wf(),
            self.size() <= old(table).seq().len(),
        ensures
            final(table).wf(),
            final(table).seq() == old(table).seq().subrange(
                0,
                old(table).seq().len() - self.size(),
            ),
    {
        let ghost before = table.seq();
        let mut left = self.count;
        assert(table.seq() =~= before.subrange(0, before.len() - (self.count - left)));
        while left > 0
            invariant
                table.wf(),
                left <= self.count <= before.len(),
                table.seq() == before.subrange(0, before.len() - (self.count - left)),
            decreases left,
        {
            let last = table.len() - 1;
            let _ = table.take_at(last);
            left -= 1;
            assert(table.seq() =~= before.subrange(0, before.len() - (self.count - left)));
        }
    }
}

/// A batch that entered a table and is taken back leaves the table as it
/// was.
pub proof fn lemma_start_then_rollback<T: Keyed>(before: Seq<T>, batch: Seq<T>)
    ensures
        (before + batch).subrange(0, (before + batch).len() - batch.len()) == before,
{
    assert((before + batch).subrange(0, (before + batch).len() - batch.len()) =~= before);
}

} // verus!
