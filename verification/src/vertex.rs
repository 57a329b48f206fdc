//! The stored graph element: identifier, label, property mapping.

use vstd::prelude::*;
use vstd::string::StrSliceExecFns;

use crate::codec::{dec_vertex, decode_vertex, spec_vertex_key};
use crate::context::{cache_map, TraversalContext};
use crate::db::{prefix_run, PrefixSearchIterator};
use crate::GraphError;

verus! {

/// Label given to a vertex when the caller does not choose one.
pub const DEFAULT_LABEL: &'static str = "vertex";

/// Byte prefix under which vertex records are keyed.
pub const KEY_PREFIX: &'static str = "vtx_";

/// Ghost shape of a vertex: the identifier, the label's characters and the
/// property pairs in order.
pub ghost struct VertexView {
    pub id: nat,
    pub label: Seq<char>,
    pub prop: Seq<(Seq<char>, Seq<char>)>,
}

/// The stored unit: identifier, label, property mapping. The identifier is
/// immutable after creation. The property mapping is a sequence of pairs
/// whose keys are meant to be unique (see [`Vertex::wf`]); the codec rejects
/// a stored record with a repeated key.
#[derive(Debug)]
pub struct Vertex {
    pub(crate) id: usize,
    pub label: String,
    pub prop: Vec<(String, String)>,
}

impl View for Vertex {
    type V = VertexView;

    open(crate) spec fn view(&self) -> VertexView {
        VertexView { id: self.id as nat, label: self.label@, prop: self.prop.deep_view() }
    }
}

/// No property key occurs twice.
pub open spec fn unique_prop_keys(prop: Seq<(Seq<char>, Seq<char>)>) -> bool {
    forall|i: int, j: int| 0 <= i < j < prop.len() ==> prop[i].0 != prop[j].0
}

impl Vertex {
    /// Well-formed: no property key occurs twice.
    pub open spec fn wf(&self) -> bool {
        unique_prop_keys(self@.prop)
    }

    /// A fresh vertex with the given identifier and label, and no properties.
    pub fn new(id: usize, label: String) -> (v: Vertex)
        ensures
            v@.id == id,
            v@.label == label@,
            v@.prop =~= Seq::<(Seq<char>, Seq<char>)>::empty(),
            v.wf(),
    {
        let v = Vertex { id, label, prop: Vec::new() };
        proof {
            assert(v@.prop =~= Seq::<(Seq<char>, Seq<char>)>::empty());
        }
        v
    }

    pub(crate) fn from_parts(id: usize, label: String, prop: Vec<(String, String)>) -> (v: Vertex)
        ensures
            v@.id == id,
            v@.label == label@,
            v@.prop == prop.deep_view(),
    {
        Vertex { id, label, prop }
    }

    /// The identifier.
    pub fn id(&self) -> (r: usize)
        ensures
            r == self@.id,
    {
        self.id
    }

    /// A copy whose view equals this vertex's view.
    pub fn duplicate(&self) -> (r: Vertex)
        ensures
            r@ == self@,
    {
        let mut prop: Vec<(String, String)> = Vec::new();
        let mut i: usize = 0;
        #[verifier::loop_isolation(false)]
    while i < self.prop.len()
            invariant
                i <= self.prop.len(),
                prop.deep_view() =~= self.prop.deep_view().take(i as int),
            decreases self.prop.len() - i,
        {
            let k = self.prop[i].0.clone();
            let v = self.prop[i].1.clone();
            proof {
                assert(prop.deep_view().len() == i as int);
                assert(prop@.len() == i as int);
            }
            prop.push((k, v));
            proof {
                assert(prop@.len() == i + 1);
                assert forall|j: int| 0 <= j < i + 1 implies prop.deep_view()[j]
                    == self.prop.deep_view().take(i + 1)[j] by {
                    if j < i {
                        assert(prop.deep_view()[j] == self.prop.deep_view().take(i as int)[j]);
                    } else {
                        assert(prop@[j] == (k, v));
                        assert(prop.deep_view()[j] == (k@, v@));
                    }
                }
                assert(prop.deep_view() =~= self.prop.deep_view().take(i + 1));
            }
            i = i + 1;
        }
        proof {
            assert(self.prop.deep_view().take(self.prop@.len() as int) =~= self.prop.deep_view());
        }
        let r = Vertex { id: self.id, label: self.label.clone(), prop };
        proof {
            assert(r@ == self@);
        }
        r
    }
}

impl PartialEq for Vertex {
    fn eq(&self, other: &Vertex) -> (r: bool) {
        if self.id != other.id {
            proof {
                assert(self@.id != other@.id);
                assert(self@ != other@);
            }
            return false;
        }
        if !self.label.eq(&other.label) {
            proof {
                assert(self@.label != other@.label);
                assert(self@ != other@);
            }
            return false;
        }
        if self.prop.len() != other.prop.len() {
            proof {
                assert(self@.prop.len() != other@.prop.len());
                assert(self@ != other@);
            }
            return false;
        }
        let mut i: usize = 0;
        #[verifier::loop_isolation(false)]
    while i < self.prop.len()
            invariant
                i <= self.prop.len(),
                self.prop.len() == other.prop.len(),
                forall|j: int|
                    0 <= j < i ==> self.prop.deep_view()[j] == other.prop.deep_view()[j],
            decreases self.prop.len() - i,
        {
            if !self.prop[i].0.eq(&other.prop[i].0) || !self.prop[i].1.eq(&other.prop[i].1) {
                proof {
                    assert(self.prop.deep_view()[i as int] != other.prop.deep_view()[i as int]);
                    assert(self@.prop != other@.prop);
                    assert(self@ != other@);
                }
                return false;
            }
            i = i + 1;
        }
        proof {
            assert(self.prop.deep_view() =~= other.prop.deep_view());
        }
        true
    }
}

impl vstd::std_specs::cmp::PartialEqSpecImpl for Vertex {
    open spec fn obeys_eq_spec() -> bool {
        true
    }

    open spec fn eq_spec(&self, other: &Vertex) -> bool {
        self@ == other@
    }
}

impl Eq for Vertex {

}

// ---------------------------------------------------------------------
// Traversal steps
// ---------------------------------------------------------------------

/// Whether a vertex passes the optional label filter.
pub open spec fn label_matches(lbl: Option<Seq<char>>, v: VertexView) -> bool {
    match lbl {
        None => true,
        Some(l) => v.label == l,
    }
}

/// What one pull of a scan step gives, over the raw pairs still to be
/// scanned: the first decodable entity passing the filter and the pairs
/// after it, nothing when the pairs run out, or a fault on the first
/// undecodable record met.
pub open spec fn scan_next_s(run: Seq<(Seq<u8>, Seq<u8>)>, lbl: Option<Seq<char>>) -> Result<
    Option<(VertexView, Seq<(Seq<u8>, Seq<u8>)>)>,
    GraphError,
>
    decreases run.len(),
{
    if run.len() == 0 {
        Ok(None)
    } else {
        match dec_vertex(run[0].1) {
            None => Err(GraphError::Deserialization),
            Some(v) => if label_matches(lbl, v) {
                Ok(Some((v, run.skip(1))))
            } else {
                scan_next_s(run.skip(1), lbl)
            },
        }
    }
}

/// Whether the label slice and the label string hold the same characters.
fn label_eq(l: &str, s: &String) -> (r: bool)
    ensures
        r == (l@ == s@),
{
    let lb = l.as_bytes_vec();
    let sb = s.as_str().as_bytes_vec();
    let r = crate::store::bytes_eq(&lb, &sb);
    proof {
        if r {
            vstd::utf8::encode_utf8_decode_utf8(l@);
            vstd::utf8::encode_utf8_decode_utf8(s@);
        }
    }
    r
}

/// A lazy scan over all stored vertices, optionally filtered by label.
/// Single-pass and non-restartable; closes over its own traversal context.
pub struct VertexTraversal<'a> {
    pub(crate) prefix_search: PrefixSearchIterator<'a>,
    pub(crate) label: Option<&'a str>,
    pub(crate) _context: TraversalContext<'a>,
}

impl<'a> VertexTraversal<'a> {
    /// The traversal's context.
    pub open(crate) spec fn ctx(self) -> TraversalContext<'a> {
        self._context
    }

    /// The label filter, as characters.
    pub open(crate) spec fn label_view(self) -> Option<Seq<char>> {
        match self.label {
            None => None,
            Some(l) => Some(l@),
        }
    }

    /// The raw pairs still to be scanned.
    pub open(crate) spec fn remaining(self) -> Seq<(Seq<u8>, Seq<u8>)> {
        self.prefix_search.remaining()
    }

    /// Well-formed: the walk and the context are.
    pub open(crate) spec fn wf(self) -> bool {
        self.prefix_search.wf() && self._context.wf()
    }

    /// The next stored vertex passing the filter, in ascending key order.
    /// A record that does not decode is a fault; absence of further
    /// entities ends the sequence with an empty result.
    pub fn next(&mut self) -> (r: Result<Option<Vertex>, GraphError>)
        requires
            old(self).wf(),
        ensures
            final(self).wf(),
            final(self).label_view() == old(self).label_view(),
            (match scan_next_s(old(self).remaining(), old(self).label_view()) {
                Ok(None) => r matches Ok(None) && final(self).remaining() == Seq::<
                    (Seq<u8>, Seq<u8>),
                >::empty(),
                Ok(Some((vv, rest))) => {
                    &&& r matches Ok(Some(v)) && v@ == vv && v.wf()
                    &&& final(self).remaining() == rest
                },
                Err(e) => r matches Err(e2) && e2 == e,
            }),
    {
        let ghost run0 = self.remaining();
        let ghost lbl = self.label_view();
        #[verifier::loop_isolation(false)]
        loop
            invariant
                self.wf(),
                self.label == old(self).label,
                scan_next_s(self.remaining(), lbl) == scan_next_s(run0, lbl),
            decreases self.remaining().len(),
        {
            let ghost run = self.remaining();
            match self.prefix_search.next() {
                None => {
                    return Ok(None);
                },
                Some(kv) => {
                    proof {
                        assert(run[0].1 == kv.1@);
                    }
                    match decode_vertex(&kv.1) {
                        None => {
                            return Err(GraphError::Deserialization);
                        },
                        Some(v) => {
                            match self.label {
                                None => {
                                    return Ok(Some(v));
                                },
                                Some(l) => {
                                    if label_eq(l, &v.label) {
                                        proof {
                                            assert(label_matches(lbl, v@));
                                        }
                                        return Ok(Some(v));
                                    }
                                    proof {
                                        assert(!label_matches(lbl, v@));
                                    }
                                },
                            }
                        },
                    }
                },
            }
        }
    }

    /// Writes the context's dirty entities to the store once; a scan
    /// context holds none, so this reports zero writes.
    pub fn flush(&mut self) -> (n: usize)
        requires
            old(self).wf(),
        ensures
            final(self).wf(),
            n == crate::context::dirty_count(old(self).ctx().cache_view()),
    {
        self._context.flush()
    }
}

/// A single-element traversal: the entity with a stored target identifier,
/// resolved through the traversal context (cache first, then the store).
/// The identifier is a one-time token: once taken, later pulls yield
/// nothing.
pub struct SingleVertexTraversal<'a> {
    pub(crate) id: Option<usize>,
    pub(crate) context: TraversalContext<'a>,
}

impl<'a> SingleVertexTraversal<'a> {
    /// The traversal's context.
    pub open(crate) spec fn ctx(self) -> TraversalContext<'a> {
        self.context
    }

    /// The target identifier, while not yet consumed.
    pub open(crate) spec fn id_view(self) -> Option<usize> {
        self.id
    }

    /// The traversal's write-back cache, as a mapping.
    pub open(crate) spec fn cache_now(self) -> Map<nat, (bool, VertexView)> {
        cache_map(self.context.cache_view())
    }

    /// Well-formed: the context is.
    pub open(crate) spec fn wf(self) -> bool {
        self.context.wf()
    }

    /// Takes the stored identifier and resolves it: a cached entity is
    /// returned from memory, an absent one is read from the store and
    /// cached clean. A never-allocated identifier gives an empty result,
    /// not an error; an undecodable record is a fault.
    pub fn next(&mut self) -> (r: Result<Option<Vertex>, GraphError>)
        requires
            old(self).wf(),
        ensures
            final(self).wf(),
            final(self).id_view() is None,
            (match old(self).id_view() {
                None => r matches Ok(None) && final(self).ctx() == old(self).ctx(),
                Some(id) => {
                    let c = cache_map(old(self).ctx().cache_view());
                    let st = old(self).ctx().store_now().contents();
                    let k = spec_vertex_key(id as nat);
                    &&& final(self).ctx().store_now() == old(self).ctx().store_now()
                    &&& if c.contains_key(id as nat) {
                        &&& r matches Ok(Some(v)) && v@ == c[id as nat].1
                        &&& final(self).ctx().cache_view() == old(self).ctx().cache_view()
                    } else if !st.contains_key(k) {
                        &&& r matches Ok(None)
                        &&& final(self).ctx().cache_view() == old(self).ctx().cache_view()
                    } else {
                        match dec_vertex(st[k]) {
                            None => r matches Err(e) && e == GraphError::Deserialization,
                            Some(vv) => {
                                &&& r matches Ok(Some(v)) && v@ == vv
                                &&& cache_map(final(self).ctx().cache_view()) == c.insert(
                                    id as nat,
                                    (false, vv),
                                )
                            },
                        }
                    }
                },
            }),
    {
        let id = match self.id {
            None => {
                return Ok(None);
            },
            Some(i) => i,
        };
        self.id = None;
        self.context.get(id)
    }

    /// Writes the context's dirty entities to the store once and clears
    /// their flags; returns how many were written. A second flush writes
    /// none.
    pub fn flush(&mut self) -> (n: usize)
        requires
            old(self).wf(),
        ensures
            final(self).wf(),
            final(self).id_view() == old(self).id_view(),
            final(self).ctx().store_now().contents() == crate::store::apply_pending(
                old(self).ctx().store_now().contents(),
                old(self).ctx().cache_view(),
            ),
            n == crate::context::dirty_count(old(self).ctx().cache_view()),
            forall|i: int|
                0 <= i < final(self).ctx().cache_view().len() ==> !(#[trigger] final(self).ctx().cache_view()[i]).entry.dirty,
    {
        self.context.flush()
    }
}

} // verus!
