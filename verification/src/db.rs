//! The prefix scan adapter: a bounded, ascending read over all keys sharing
//! a byte prefix, on top of a range scan that has no native stop-at-prefix
//! primitive. The scan is lazy, single-pass and non-restartable; it ends at
//! the first key that no longer carries the prefix.

use vstd::prelude::*;

use crate::store::{lemma_entries_view_index, starts_with, starts_with_bytes, KvStore};

verus! {

/// The longest head of `es` whose keys all begin with `p`.
pub open spec fn prefix_run(es: Seq<(Seq<u8>, Seq<u8>)>, p: Seq<u8>) -> Seq<(Seq<u8>, Seq<u8>)>
    decreases es.len(),
{
    if es.len() == 0 {
        Seq::<(Seq<u8>, Seq<u8>)>::empty()
    } else if starts_with(es[0].0, p) {
        seq![es[0]] + prefix_run(es.skip(1), p)
    } else {
        Seq::<(Seq<u8>, Seq<u8>)>::empty()
    }
}

/// A lazy, ascending walk over the store's entries from a start position,
/// ended at the first key that does not begin with the prefix.
pub(crate) struct PrefixSearchIterator<'a> {
    pub(crate) store: &'a KvStore,
    pub(crate) idx: usize,
    pub(crate) prefix: Vec<u8>,
    pub(crate) done: bool,
}

impl<'a> PrefixSearchIterator<'a> {
    /// Well-formed: the store sorted and settled, the position in range.
    pub(crate) open spec fn wf(self) -> bool {
        &&& self.store.wf()
        &&& self.store.settled()
        &&& self.idx <= self.store.entries_view().len()
    }

    /// The key/value pairs the walk has still to give out.
    pub(crate) open spec fn remaining(self) -> Seq<(Seq<u8>, Seq<u8>)> {
        if self.done {
            Seq::<(Seq<u8>, Seq<u8>)>::empty()
        } else {
            prefix_run(self.store.entries_view().skip(self.idx as int), self.prefix@)
        }
    }

    /// The next key/value pair sharing the prefix, or nothing once a key
    /// outside the prefix (or the end of the store) was met.
    pub(crate) fn next(&mut self) -> (r: Option<(Vec<u8>, Vec<u8>)>)
        requires
            old(self).wf(),
        ensures
            final(self).wf(),
            final(self).store == old(self).store,
            final(self).prefix == old(self).prefix,
            (if old(self).remaining().len() == 0 {
                r is None && final(self).remaining() == Seq::<(Seq<u8>, Seq<u8>)>::empty()
            } else {
                &&& r matches Some(p) && p.0@ == old(self).remaining()[0].0 && p.1@ == old(
                    self,
                ).remaining()[0].1
                &&& final(self).remaining() == old(self).remaining().skip(1)
            }),
    {
        if self.done {
            return None;
        }
        if self.idx >= self.store.entries.len() {
            proof {
                assert(self.store.entries_view().skip(self.idx as int).len() == 0);
            }
            self.done = true;
            return None;
        }
        proof {
            lemma_entries_view_index(self.store.entries, self.idx as int);
            assert(self.store.entries_view().skip(self.idx as int)[0]
                == self.store.entries_view()[self.idx as int]);
        }
        if !starts_with_bytes(&self.store.entries[self.idx].0, &self.prefix) {
            self.done = true;
            return None;
        }
        let k = crate::codec::copy_range(
            &self.store.entries[self.idx].0,
            0,
            self.store.entries[self.idx].0.len(),
        );
        let v = crate::codec::copy_range(
            &self.store.entries[self.idx].1,
            0,
            self.store.entries[self.idx].1.len(),
        );
        proof {
            assert(k@ =~= self.store.entries@[self.idx as int].0@);
            assert(v@ =~= self.store.entries@[self.idx as int].1@);
            assert(self.store.entries_view().skip(self.idx as int).skip(1)
                =~= self.store.entries_view().skip(self.idx + 1));
        }
        self.idx = self.idx + 1;
        Some((k, v))
    }
}

/// Opens a walk positioned at the first key not below the prefix.
pub(crate) fn prefix_scan<'a>(store: &'a KvStore, prefix: Vec<u8>) -> (r: PrefixSearchIterator<'a>)
    requires
        store.wf(),
        store.settled(),
    ensures
        r.wf(),
        r.store == store,
        r.prefix@ == prefix@,
        !r.done,
        forall|j: int|
            0 <= j < r.idx ==> crate::store::lex_lt(
                (#[trigger] store.entries_view()[j]).0,
                prefix@,
            ),
        r.idx <= store.entries_view().len(),
        (r.idx < store.entries_view().len() ==> !crate::store::lex_lt(
            store.entries_view()[r.idx as int].0,
            prefix@,
        )),
{
    let mut i: usize = 0;
    let mut stop = false;
    #[verifier::loop_isolation(false)]
    while i < store.entries.len() && !stop
        invariant
            i <= store.entries_view().len(),
            forall|j: int|
                0 <= j < i ==> crate::store::lex_lt(
                    (#[trigger] store.entries_view()[j]).0,
                    prefix@,
                ),
            stop ==> i < store.entries_view().len() && !crate::store::lex_lt(
                store.entries_view()[i as int].0,
                prefix@,
            ),
        decreases store.entries_view().len() - i, (if stop {
            0int
        } else {
            1int
        }),
    {
        proof {
            lemma_entries_view_index(store.entries, i as int);
        }
        if crate::store::lex_lt_bytes(&store.entries[i].0, &prefix) {
            i = i + 1;
        } else {
            stop = true;
        }
    }
    PrefixSearchIterator { store, idx: i, prefix, done: false }
}

} // verus!
