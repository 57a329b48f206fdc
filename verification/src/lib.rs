//! A small graph-element store: an entry point that creates vertex records
//! and hands back lazy traversal objects backed by an ordered key-value
//! store. Identifiers come from a durably persisted counter; each traversal
//! buffers its writes in a per-traversal cache that is flushed when the
//! traversal scope ends.

use vstd::prelude::*;

use crate::codec::{
    dec_ctx, decode_context, enc_ctx, encode_context, sys_context_key, sys_key_seq,
    vertex_key_prefix,
};
use crate::context::{cache_map, CacheSlot, DirtyEntry, StoreHandle, TraversalContext};
use crate::db::prefix_scan;
use crate::store::KvStore;
use crate::vertex::{SingleVertexTraversal, Vertex, VertexTraversal, VertexView, DEFAULT_LABEL};
use vstd::string::StringExecFns;

pub mod codec;
pub mod db;
pub mod laws;
pub mod context;
pub mod store;
pub mod vertex;

verus! {

/// The faults the library reports.
#[derive(Debug, PartialEq, Eq, Structural)]
pub enum GraphError {
    /// The persisted sequence counter could not be decoded.
    CorruptState,
    /// A stored entity record could not be decoded.
    Deserialization,
}

/// The durably persisted allocation state: the last assigned sequence
/// number.
#[derive(Clone, Copy)]
pub struct GraphContext {
    /// Last sequence number.
    pub lsn: usize,
}

/// The entry point: owns the store handle and the sequence counter, creates
/// vertices and spawns traversals.
pub struct GraphTraversalSource {
    pub(crate) store: KvStore,
    pub(crate) context: GraphContext,
}

impl GraphTraversalSource {
    /// The store's logical contents.
    pub open(crate) spec fn contents(self) -> Map<Seq<u8>, Seq<u8>> {
        self.store.contents()
    }

    /// Well-formed: the store is.
    pub open(crate) spec fn wf(self) -> bool {
        self.store.wf()
    }

    /// Whether the store carries no pending hand-over.
    pub open(crate) spec fn settled(self) -> bool {
        self.store.settled()
    }

    /// The counter as held in memory.
    pub open(crate) spec fn lsn_view(self) -> usize {
        self.context.lsn
    }

    /// Opens the source over a store: an absent counter record is
    /// initialized to zero and persisted; a present one is decoded, and a
    /// record that does not decode is a fault.
    pub fn new(store: KvStore) -> (r: Result<GraphTraversalSource, GraphError>)
        requires
            store.wf(),
        ensures
            ({
                let c = store.contents();
                let k = sys_key_seq();
                if !c.contains_key(k) {
                    &&& r matches Ok(g) && g.wf() && g.settled() && g.lsn_view() == 0
                        && g.contents() == c.insert(k, enc_ctx(0))
                } else {
                    match dec_ctx(c[k]) {
                        Some(n) => r matches Ok(g) && g.wf() && g.settled()
                            && g.lsn_view() == n && g.contents() == c,
                        None => r matches Err(e) && e == GraphError::CorruptState,
                    }
                }
            }),
    {
        let mut store = store;
        store.settle();
        let sys = sys_context_key();
        let lsn_opt = match store.get(&sys) {
            None => None,
            Some(bytes) => match decode_context(bytes) {
                None => {
                    return Err(GraphError::CorruptState);
                },
                Some(n) => Some(n),
            },
        };
        match lsn_opt {
            Some(n) => Ok(GraphTraversalSource { store, context: GraphContext { lsn: n } }),
            None => {
                let bytes = encode_context(0);
                store.put(sys, bytes);
                Ok(GraphTraversalSource { store, context: GraphContext { lsn: 0 } })
            },
        }
    }

    /// The last assigned sequence number.
    pub fn last_sequence_number(&self) -> (r: usize)
        ensures
            r == self.lsn_view(),
    {
        self.context.lsn
    }

    /// Saves the counter to the store.
    fn save_context(&mut self)
        requires
            old(self).wf(),
        ensures
            final(self).wf(),
            final(self).store.settled(),
            final(self).context == old(self).context,
            final(self).contents() == old(self).contents().insert(
                sys_key_seq(),
                enc_ctx(old(self).context.lsn as nat),
            ),
    {
        let sys = sys_context_key();
        let bytes = encode_context(self.context.lsn);
        self.store.put(sys, bytes);
    }

    /// Generates a fresh identifier: advances the counter and persists it
    /// before returning, so a reopened store never reuses an identifier.
    fn new_id(&mut self) -> (r: usize)
        requires
            old(self).wf(),
            old(self).context.lsn < usize::MAX,
        ensures
            final(self).wf(),
            final(self).store.settled(),
            r == old(self).context.lsn + 1,
            final(self).context.lsn == r,
            final(self).contents() == old(self).contents().insert(
                sys_key_seq(),
                enc_ctx(r as nat),
            ),
    {
        self.context.lsn = self.context.lsn + 1;
        self.save_context();
        self.context.lsn
    }

    /// Spawns a traversal by adding a vertex with the default label.
    pub fn add_vertex(&mut self) -> (t: SingleVertexTraversal<'_>)
        requires
            old(self).wf(),
            old(self).lsn_view() < usize::MAX,
        ensures
            added_vertex_traversal(t, old(self).contents(), old(self).lsn_view(), DEFAULT_LABEL@),
    {
        self.add_vertex_with_label(DEFAULT_LABEL)
    }

    /// Spawns a traversal by adding a vertex with the specified label. The
    /// fresh vertex is buffered dirty in the traversal's own context; it is
    /// durable once that context flushes (explicitly or at scope end).
    pub fn add_vertex_with_label(&mut self, label: &str) -> (t: SingleVertexTraversal<'_>)
        requires
            old(self).wf(),
            old(self).lsn_view() < usize::MAX,
        ensures
            added_vertex_traversal(t, old(self).contents(), old(self).lsn_view(), label@),
    {
        let id = self.new_id();
        let vertex = Vertex::new(id, String::from_str(label));
        let mut cache: Vec<CacheSlot> = Vec::new();
        cache.push(CacheSlot { id, entry: DirtyEntry::new(vertex) });
        proof {
            assert(cache@.drop_last() =~= Seq::<CacheSlot>::empty());
        }
        let t = SingleVertexTraversal {
            id: Some(id),
            context: TraversalContext { store: StoreHandle::Exclusive(&mut self.store), cache },
        };
        proof {
            let cv = t.ctx().cache_view();
            assert(cv.len() == 1);
            assert(cv[0].entry.entry@ == VertexView {
                id: id as nat,
                label: label@,
                prop: Seq::empty(),
            });
            assert(cache_map(cv.drop_last()) == Map::<nat, (bool, VertexView)>::empty());
            assert(cache_map(cv) =~= Map::<nat, (bool, VertexView)>::empty().insert(
                id as nat,
                (true, VertexView { id: id as nat, label: label@, prop: Seq::empty() }),
            ));
        }
        t
    }

    /// Spawns a traversal over all vertices, in ascending key order.
    pub fn vertices(&mut self) -> (t: VertexTraversal<'_>)
        requires
            old(self).wf(),
        ensures
            t.wf(),
            t.label_view() is None,
            scan_traversal(t, old(self).contents()),
    {
        self.store.settle();
        let prefix = vertex_key_prefix();
        let scan = prefix_scan(&self.store, prefix);
        VertexTraversal {
            prefix_search: scan,
            label: None,
            _context: TraversalContext { store: StoreHandle::Shared(&self.store), cache: Vec::new() },
        }
    }

    /// Spawns a traversal over the vertices with the specified label.
    pub fn vertices_with_label<'a>(&'a mut self, label: &'a str) -> (t: VertexTraversal<'a>)
        requires
            old(self).wf(),
        ensures
            t.wf(),
            t.label_view() == Some(label@),
            scan_traversal(t, old(self).contents()),
    {
        self.store.settle();
        let prefix = vertex_key_prefix();
        let scan = prefix_scan(&self.store, prefix);
        VertexTraversal {
            prefix_search: scan,
            label: Some(label),
            _context: TraversalContext { store: StoreHandle::Shared(&self.store), cache: Vec::new() },
        }
    }

    /// Spawns a traversal holding the vertex with the specified identifier:
    /// zero or one element.
    pub fn vertex_with_id(&mut self, id: usize) -> (t: SingleVertexTraversal<'_>)
        requires
            old(self).wf(),
        ensures
            t.wf(),
            t.id_view() == Some(id),
            t.ctx().store_now().contents() == old(self).contents(),
            t.ctx().cache_view() == Seq::<CacheSlot>::empty(),
    {
        self.store.settle();
        SingleVertexTraversal {
            id: Some(id),
            context: TraversalContext { store: StoreHandle::Shared(&self.store), cache: Vec::new() },
        }
    }

    /// Releases the source and hands the store back, with every pending
    /// write applied.
    pub fn into_store(self) -> (r: KvStore)
        requires
            self.wf(),
        ensures
            r.wf(),
            r.settled(),
            r.contents() == self.contents(),
    {
        let mut s = self;
        s.store.settle();
        s.store
    }
}

/// What spawning an add-vertex traversal guarantees: the counter was
/// advanced to a fresh identifier and persisted, and the traversal's own
/// context buffers exactly the one new dirty vertex, carrying the given
/// label and no properties.
pub open(crate) spec fn added_vertex_traversal(
    t: SingleVertexTraversal<'_>,
    c0: Map<Seq<u8>, Seq<u8>>,
    lsn0: usize,
    label: Seq<char>,
) -> bool {
    let id = (lsn0 + 1) as usize;
    &&& t.wf()
    &&& t.ctx().is_exclusive()
    &&& t.id_view() == Some(id)
    &&& t.ctx().store_now().settled()
    &&& t.ctx().store_now().contents() == c0.insert(sys_key_seq(), enc_ctx((lsn0 + 1) as nat))
    &&& cache_map(t.ctx().cache_view()) == Map::<nat, (bool, VertexView)>::empty().insert(
        id as nat,
        (true, VertexView { id: id as nat, label, prop: Seq::empty() }),
    )
    &&& t.ctx().cache_view().len() == 1
    &&& t.ctx().cache_view()[0].id == id
    &&& t.ctx().cache_view()[0].entry.dirty
    &&& t.ctx().cache_view()[0].entry.entry@ == VertexView {
        id: id as nat,
        label,
        prop: Seq::empty(),
    }
}

/// What spawning a scan traversal guarantees: a fresh empty read-only
/// context over the settled store, and a walk over that same store,
/// positioned at the first key not below the vertex prefix, so that the
/// entries it yields are exactly the store's vertex-prefixed run.
pub open(crate) spec fn scan_traversal(t: VertexTraversal<'_>, c0: Map<Seq<u8>, Seq<u8>>) -> bool {
    &&& t.wf()
    &&& !t.ctx().is_exclusive()
    &&& t.ctx().cache_view() == Seq::<CacheSlot>::empty()
    &&& t.ctx().store_now().contents() == c0
    &&& t.ctx().store_now() == *t.prefix_search.store
    &&& !t.prefix_search.done
    &&& t.prefix_search.prefix@ == crate::codec::vertex_prefix_seq()
    &&& t.prefix_search.idx <= t.ctx().store_now().entries_view().len()
    &&& forall|j: int|
        0 <= j < t.prefix_search.idx ==> crate::store::lex_lt(
            (#[trigger] t.ctx().store_now().entries_view()[j]).0,
            crate::codec::vertex_prefix_seq(),
        )
    &&& (t.prefix_search.idx < t.ctx().store_now().entries_view().len()
        ==> !crate::store::lex_lt(
        t.ctx().store_now().entries_view()[t.prefix_search.idx as int].0,
        crate::codec::vertex_prefix_seq(),
    ))
}

} // verus!
