//! The persistence gateway's behavioural model: a key-value store with
//! last-writer-wins upserts and point lookups.
//!
//! `store` silently overwrites an existing key, and `fetch` returns
//! nothing for an absent key without distinguishing "never written" from
//! anything else — exactly the contract the pipeline asks of its
//! relational store.  This in-memory form keeps its write history and
//! reads the newest entry of a key, which observes the same map.

use crate::windowing::{bytes_eq, copy_bytes};
use vstd::prelude::*;

verus! {

/// The map observed after a sequence of writes: later writes win.
pub open spec fn map_of(rows: Seq<(Vec<u8>, Vec<u8>)>) -> Map<Seq<u8>, Seq<u8>>
    decreases rows.len(),
{
    if rows.len() == 0 {
        Map::empty()
    } else {
        map_of(rows.drop_last()).insert(rows.last().0@, rows.last().1@)
    }
}

/// An in-memory key-value store with upsert semantics.
pub struct MemoryStore {
    rows: Vec<(Vec<u8>, Vec<u8>)>,
}

/// A key's lookup ignores writes to other keys.
proof fn lemma_map_of_frame(rows: Seq<(Vec<u8>, Vec<u8>)>, i: int, key: Seq<u8>)
    requires
        0 <= i <= rows.len(),
        forall|j: int| i <= j < rows.len() ==> #[trigger] rows[j].0@ != key,
    ensures
        map_of(rows).dom().contains(key) == map_of(rows.take(i)).dom().contains(key),
        map_of(rows).dom().contains(key) ==> map_of(rows)[key] == map_of(rows.take(i))[key],
    decreases rows.len() - i,
{
    if i < rows.len() {
        let shorter = rows.take(rows.len() - 1);
        assert(shorter =~= rows.drop_last());
        assert(rows[rows.len() - 1].0@ != key);
        lemma_map_of_frame(shorter, i, key);
        assert(shorter.take(i) =~= rows.take(i));
    } else {
        assert(rows.take(i) =~= rows);
    }
}

impl MemoryStore {
    /// The map this store currently observes.
    pub closed spec fn contents(&self) -> Map<Seq<u8>, Seq<u8>> {
        map_of(self.rows@)
    }

    /// An empty store.
    pub fn new() -> (s: Self)
        ensures
            s.contents() == Map::<Seq<u8>, Seq<u8>>::empty(),
    {
        let s = MemoryStore { rows: Vec::new() };
        proof {
            assert(s.contents() =~= Map::<Seq<u8>, Seq<u8>>::empty());
        }
        s
    }

    /// Upserts one row: a later write to the same key silently wins.
    pub fn store(&mut self, key: &[u8], value: &[u8])
        ensures
            final(self).contents() == old(self).contents().insert(key@, value@),
    {
        let row = (copy_bytes(key), copy_bytes(value));
        let ghost rows0 = self.rows@;
        self.rows.push(row);
        proof {
            assert(self.rows@.drop_last() =~= rows0);
            assert(self.rows@.last() == row);
        }
    }

    /// Looks the key up, returning nothing when no write ever reached it.
    pub fn fetch(&self, key: &[u8]) -> (r: Option<Vec<u8>>)
        ensures
            match r {
                Some(v) => self.contents().dom().contains(key@) && v@ == self.contents()[key@],
                None => !self.contents().dom().contains(key@),
            },
    {
        let n: usize = self.rows.len();
        let mut i: usize = n;
        while i > 0
            invariant
                0 <= i <= n,
                n == self.rows@.len(),
                forall|j: int| i <= j < n ==> #[trigger] self.rows@[j].0@ != key@,
            decreases i,
        {
            i -= 1;
            if bytes_eq(self.rows[i].0.as_slice(), key) {
                let v = copy_bytes(self.rows[i].1.as_slice());
                proof {
                    lemma_map_of_frame(self.rows@, i + 1, key@);
                    assert(self.rows@.take(i + 1).drop_last() =~= self.rows@.take(i as int));
                    assert(self.rows@.take(i + 1).last() == self.rows@[i as int]);
                    assert(map_of(self.rows@.take(i + 1)).dom().contains(key@));
                    assert(map_of(self.rows@.take(i + 1))[key@] == self.rows@[i as int].1@);
                }
                return Some(v);
            }
        }
        proof {
            lemma_map_of_frame(self.rows@, 0, key@);
            assert(self.rows@.take(0) =~= Seq::<(Vec<u8>, Vec<u8>)>::empty());
            assert(!map_of(self.rows@.take(0)).dom().contains(key@));
        }
        None
    }
}

} // verus!
