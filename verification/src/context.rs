//! The traversal write-back cache: entities buffered in memory for the
//! duration of one traversal, each tagged with a dirty flag, and persisted
//! to the store when the traversal scope ends.
//!
//! A context reads its own earlier writes: a cached entity is served from
//! memory without touching the store. Flushing writes every dirty entity
//! once and clears its flag, so a second flush writes nothing. A context
//! that is dropped without an explicit flush hands its cache to the store's
//! pending area, whose dirty entries the next store operation writes out.

use vstd::prelude::*;

use crate::codec::{
    dec_vertex, decode_vertex, enc_vertex, encode_vertex, create_vertex_key, spec_vertex_key,
};
use crate::store::{apply_pending, lemma_apply_pending_clean, KvStore};
use crate::vertex::{Vertex, VertexView};
use crate::GraphError;

verus! {

/// A cached entity and whether it must still be persisted.
pub struct DirtyEntry<T> {
    pub dirty: bool,
    pub entry: T,
}

impl<T> DirtyEntry<T> {
    /// A fresh entry, which must still be persisted.
    pub fn new(entry: T) -> (r: DirtyEntry<T>)
        ensures
            r.dirty,
            r.entry == entry,
    {
        DirtyEntry { dirty: true, entry }
    }
}

/// One cache slot: an identifier and the entity cached under it.
pub struct CacheSlot {
    pub id: usize,
    pub entry: DirtyEntry<Vertex>,
}

/// Identifiers pairwise distinct.
pub open spec fn cache_unique(slots: Seq<CacheSlot>) -> bool {
    forall|i: int, j: int|
        0 <= i < j < slots.len() ==> (#[trigger] slots[i]).id != (#[trigger] slots[j]).id
}

/// The mapping a cache denotes: identifier to dirty flag and entity.
pub open spec fn cache_map(slots: Seq<CacheSlot>) -> Map<nat, (bool, VertexView)>
    decreases slots.len(),
{
    if slots.len() == 0 {
        Map::<nat, (bool, VertexView)>::empty()
    } else {
        cache_map(slots.drop_last()).insert(
            slots.last().id as nat,
            (slots.last().entry.dirty, slots.last().entry.entry@),
        )
    }
}

/// How many slots are dirty.
pub open spec fn dirty_count(slots: Seq<CacheSlot>) -> int
    decreases slots.len(),
{
    if slots.len() == 0 {
        0
    } else {
        (if slots[0].entry.dirty {
            1int
        } else {
            0int
        }) + dirty_count(slots.skip(1))
    }
}

/// An identifier held by no slot is not in the mapping.
pub proof fn lemma_cache_map_absent(slots: Seq<CacheSlot>, id: nat)
    requires
        forall|i: int| 0 <= i < slots.len() ==> (#[trigger] slots[i]).id != id,
    ensures
        !cache_map(slots).contains_key(id),
    decreases slots.len(),
{
    if slots.len() > 0 {
        lemma_cache_map_absent(slots.drop_last(), id);
    }
}

/// The slot at a position gives the mapping's value at its identifier,
/// when identifiers are pairwise distinct.
pub proof fn lemma_cache_map_index(slots: Seq<CacheSlot>, p: int)
    requires
        0 <= p < slots.len(),
        cache_unique(slots),
    ensures
        cache_map(slots).contains_key(slots[p].id as nat),
        cache_map(slots)[slots[p].id as nat] == (slots[p].entry.dirty, slots[p].entry.entry@),
    decreases slots.len(),
{
    if p == slots.len() - 1 {
    } else {
        lemma_cache_map_index(slots.drop_last(), p);
        assert(slots.drop_last()[p] == slots[p]);
        assert(slots.last().id != slots[p].id);
    }
}

/// Replacing the entry at a position updates the mapping at that slot's
/// identifier, when identifiers are pairwise distinct.
pub proof fn lemma_cache_map_update(slots: Seq<CacheSlot>, p: int, e: DirtyEntry<Vertex>)
    requires
        0 <= p < slots.len(),
        cache_unique(slots),
    ensures
        cache_map(slots.update(p, (CacheSlot { id: slots[p].id, entry: e }))) == cache_map(
            slots,
        ).insert(slots[p].id as nat, (e.dirty, e.entry@)),
    decreases slots.len(),
{
    let s2 = slots.update(p, (CacheSlot { id: slots[p].id, entry: e }));
    if p == slots.len() - 1 {
        assert(s2.drop_last() =~= slots.drop_last());
        assert(s2.last() == CacheSlot { id: slots[p].id, entry: e });
    } else {
        assert(s2.last() == slots.last());
        assert(s2.drop_last() =~= slots.drop_last().update(p, (CacheSlot {
            id: slots[p].id,
            entry: e,
        })));
        assert(slots.drop_last()[p] == slots[p]);
        lemma_cache_map_update(slots.drop_last(), p, e);
        assert(slots.last().id != slots[p].id);
        assert(cache_map(slots.drop_last()).insert(slots[p].id as nat, (e.dirty, e.entry@)).insert(
            slots.last().id as nat,
            (slots.last().entry.dirty, slots.last().entry.entry@),
        ) =~= cache_map(slots.drop_last()).insert(
            slots.last().id as nat,
            (slots.last().entry.dirty, slots.last().entry.entry@),
        ).insert(slots[p].id as nat, (e.dirty, e.entry@)));
    }
}

/// The store handle a context holds: shared for read-only traversals,
/// exclusive for a traversal that must persist its cache.
pub enum StoreHandle<'a> {
    Shared(&'a KvStore),
    Exclusive(&'a mut KvStore),
}

/// The write-back cache of one traversal, over a borrowed store handle.
/// Each traversal call gets its own context; contexts never share state in
/// memory.
pub struct TraversalContext<'a> {
    pub(crate) store: StoreHandle<'a>,
    pub(crate) cache: Vec<CacheSlot>,
}

impl<'a> TraversalContext<'a> {
    /// The store as the context currently sees it.
    pub open(crate) spec fn store_now(self) -> KvStore {
        match self.store {
            StoreHandle::Shared(s) => *s,
            StoreHandle::Exclusive(s) => *s,
        }
    }

    /// The cache slots.
    pub open(crate) spec fn cache_view(self) -> Seq<CacheSlot> {
        self.cache@
    }

    /// Whether this context may persist entities.
    pub open(crate) spec fn is_exclusive(self) -> bool {
        self.store matches StoreHandle::Exclusive(_)
    }

    /// Well-formed: the store sorted and settled, cache identifiers
    /// distinct, and a read-only context holds nothing dirty.
    pub open(crate) spec fn wf(self) -> bool {
        &&& self.store_now().wf()
        &&& self.store_now().settled()
        &&& cache_unique(self.cache@)
        &&& (!self.is_exclusive() ==> forall|i: int|
            0 <= i < self.cache@.len() ==> !(#[trigger] self.cache@[i]).entry.dirty)
    }

    /// Buffers `v` under `id`, marked dirty: it will be persisted when the
    /// context flushes.
    pub fn put(&mut self, id: usize, v: Vertex)
        requires
            old(self).wf(),
            old(self).is_exclusive(),
        ensures
            final(self).wf(),
            final(self).is_exclusive(),
            final(self).store_now() == old(self).store_now(),
            cache_map(final(self).cache_view()) == cache_map(old(self).cache_view()).insert(
                id as nat,
                (true, v@),
            ),
    {
        let ghost c0 = self.cache@;
        let mut i: usize = 0;
        #[verifier::loop_isolation(false)]
        while i < self.cache.len()
            invariant
                i <= c0.len(),
                self.cache@ == c0,
                self.store == old(self).store,
                forall|j: int| 0 <= j < i ==> (#[trigger] c0[j]).id != id,
            decreases c0.len() - i,
        {
            if self.cache[i].id == id {
                proof {
                    lemma_cache_map_update(c0, i as int, DirtyEntry { dirty: true, entry: v });
                }
                self.cache[i].entry = DirtyEntry::new(v);
                proof {
                    assert(self.cache@ =~= c0.update(
                        i as int,
                        (CacheSlot { id: c0[i as int].id, entry: DirtyEntry {
                            dirty: true,
                            entry: v,
                        } }),
                    ));
                }
                return ;
            }
            i = i + 1;
        }
        proof {
            lemma_cache_map_absent(c0, id as nat);
        }
        self.cache.push(CacheSlot { id, entry: DirtyEntry::new(v) });
        proof {
            assert(self.cache@.drop_last() =~= c0);
        }
    }

    /// Cache-or-store read. A cached entity is returned from memory; an
    /// absent one is read from the store, cached clean, and returned.
    /// A missing key is an empty result, not an error.
    pub fn get(&mut self, id: usize) -> (r: Result<Option<Vertex>, GraphError>)
        requires
            old(self).wf(),
        ensures
            final(self).wf(),
            final(self).is_exclusive() == old(self).is_exclusive(),
            final(self).store_now() == old(self).store_now(),
            ({
                let c = cache_map(old(self).cache_view());
                let st = old(self).store_now().contents();
                let k = spec_vertex_key(id as nat);
                if c.contains_key(id as nat) {
                    &&& r matches Ok(Some(v)) && v@ == c[id as nat].1
                    &&& final(self).cache_view() == old(self).cache_view()
                } else if !st.contains_key(k) {
                    &&& r matches Ok(None)
                    &&& final(self).cache_view() == old(self).cache_view()
                } else {
                    match dec_vertex(st[k]) {
                        None => {
                            &&& r matches Err(e) && e == GraphError::Deserialization
                            &&& final(self).cache_view() == old(self).cache_view()
                        },
                        Some(vv) => {
                            &&& r matches Ok(Some(v)) && v@ == vv
                            &&& cache_map(final(self).cache_view()) == c.insert(id as nat, (false, vv))
                        },
                    }
                }
            }),
    {
        let ghost c0 = self.cache@;
        let mut i: usize = 0;
        #[verifier::loop_isolation(false)]
        while i < self.cache.len()
            invariant
                i <= c0.len(),
                self.cache@ == c0,
                self.store == old(self).store,
                forall|j: int| 0 <= j < i ==> (#[trigger] c0[j]).id != id,
            decreases c0.len() - i,
        {
            if self.cache[i].id == id {
                proof {
                    lemma_cache_map_index(c0, i as int);
                }
                return Ok(Some(self.cache[i].entry.entry.duplicate()));
            }
            i = i + 1;
        }
        proof {
            lemma_cache_map_absent(c0, id as nat);
        }
        let key = create_vertex_key(id);
        let found = match &self.store {
            StoreHandle::Shared(s) => s.get(&key),
            StoreHandle::Exclusive(s) => s.get(&key),
        };
        let decoded = match found {
            None => {
                return Ok(None);
            },
            Some(bytes) => decode_vertex(bytes),
        };
        match decoded {
            None => Err(GraphError::Deserialization),
            Some(v) => {
                let dup = v.duplicate();
                self.cache.push(CacheSlot { id, entry: DirtyEntry { dirty: false, entry: v } });
                proof {
                    assert(self.cache@.drop_last() =~= c0);
                }
                Ok(Some(dup))
            },
        }
    }

    /// Writes every dirty entity to the store once and clears its flag.
    /// Returns how many entities were written: a second flush writes none.
    pub fn flush(&mut self) -> (n: usize)
        requires
            old(self).wf(),
        ensures
            final(self).wf(),
            final(self).is_exclusive() == old(self).is_exclusive(),
            final(self).store_now().contents() == apply_pending(
                old(self).store_now().contents(),
                old(self).cache_view(),
            ),
            final(self).cache_view().len() == old(self).cache_view().len(),
            forall|i: int|
                0 <= i < final(self).cache_view().len() ==> {
                    &&& (#[trigger] final(self).cache_view()[i]).id == old(self).cache_view()[i].id
                    &&& final(self).cache_view()[i].entry.entry == old(self).cache_view()[i].entry.entry
                    &&& !final(self).cache_view()[i].entry.dirty
                },
            n == dirty_count(old(self).cache_view()),
    {
        let ghost c0 = self.cache@;
        match &mut self.store {
            StoreHandle::Shared(_) => {
                proof {
                    lemma_apply_pending_clean(self.store_now().contents(), c0);
                    lemma_dirty_count_clean(c0);
                }
                0
            },
            StoreHandle::Exclusive(s) => {
                let n = s.flush_cache(&mut self.cache);
                n
            },
        }
    }
}

/// A cache with no dirty slot counts no writes.
pub proof fn lemma_dirty_count_clean(slots: Seq<CacheSlot>)
    requires
        forall|i: int| 0 <= i < slots.len() ==> !(#[trigger] slots[i]).entry.dirty,
    ensures
        dirty_count(slots) == 0,
    decreases slots.len(),
{
    if slots.len() > 0 {
        lemma_dirty_count_clean(slots.skip(1));
    }
}

/// The write count over one more slot.
pub proof fn lemma_dirty_count_snoc(slots: Seq<CacheSlot>, i: int)
    requires
        0 <= i < slots.len(),
    ensures
        dirty_count(slots.take(i + 1)) == dirty_count(slots.take(i)) + (if slots[i].entry.dirty {
            1int
        } else {
            0int
        }),
    decreases i,
{
    if i == 0 {
        assert(slots.take(1)[0] == slots[0]);
        assert(slots.take(1).skip(1).len() == 0);
        assert(slots.take(0).len() == 0);
        assert(dirty_count(slots.take(0)) == 0);
        assert(dirty_count(slots.take(1).skip(1)) == 0);
        assert(dirty_count(slots.take(1)) == (if slots.take(1)[0].entry.dirty {
            1int
        } else {
            0int
        }) + dirty_count(slots.take(1).skip(1)));
    } else {
        lemma_dirty_count_snoc(slots.skip(1), i - 1);
        assert(slots.take(i + 1)[0] == slots[0]);
        assert(slots.take(i + 1).skip(1) =~= slots.skip(1).take(i));
        assert(slots.take(i)[0] == slots[0]);
        assert(slots.take(i).skip(1) =~= slots.skip(1).take(i - 1));
        assert(slots.skip(1)[i - 1] == slots[i]);
        assert(dirty_count(slots.take(i + 1)) == (if slots.take(i + 1)[0].entry.dirty {
            1int
        } else {
            0int
        }) + dirty_count(slots.take(i + 1).skip(1)));
        assert(dirty_count(slots.take(i)) == (if slots.take(i)[0].entry.dirty {
            1int
        } else {
            0int
        }) + dirty_count(slots.take(i).skip(1)));
    }
}

impl<'a> Drop for TraversalContext<'a> {
    /// Scope end: a context over an exclusive handle parks its cache in the
    /// store's pending area, whose dirty entries the next store operation
    /// writes out. The contract makes the write-on-teardown obligation
    /// explicit: afterwards the store's logical contents hold every dirty
    /// cached entity, and a read-only context leaves the store untouched.
    /// Nothing here can allocate or unwind, so the cache is handed over
    /// whole by one swap.
    fn drop(&mut self)
        ensures
            (old(self).is_exclusive() && old(self).store_now().wf() && old(
                self,
            ).store_now().settled()) ==> {
                &&& final(self).store_now().wf()
                &&& final(self).store_now().contents() == apply_pending(
                    old(self).store_now().contents(),
                    old(self).cache_view(),
                )
            },
            !old(self).is_exclusive() ==> final(self).store_now() == old(self).store_now(),
        opens_invariants none
        no_unwind
    {
        match &mut self.store {
            StoreHandle::Exclusive(s) => {
                if !s.has_pending {
                    core::mem::swap(&mut s.pending, &mut self.cache);
                    s.has_pending = true;
                }
            },
            StoreHandle::Shared(_) => {},
        }
    }
}

} // verus!
