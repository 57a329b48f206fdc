//! The library's laws: properties that relate several operations, stated
//! over the same specification functions the operations' contracts use.

use vstd::prelude::*;

use crate::codec::{
    dec_ctx, dec_vertex, enc_ctx, enc_vertex, encodable, lemma_dec_enc_ctx, lemma_dec_enc_vertex,
    lemma_sys_key_not_vertex_key, spec_vertex_key, sys_key_seq,
};
use crate::context::{dirty_count, lemma_dirty_count_clean, CacheSlot};
use crate::db::prefix_run;
use crate::store::{
    apply_pending, entries_sorted, lemma_apply_pending_clean, lemma_lex_irrefl, lemma_lex_trans,
    lex_lt, starts_with,
};
use crate::vertex::{label_matches, scan_next_s, unique_prop_keys, VertexView};

verus! {

/// Law (round-trip): for every well-formed vertex value the machine can
/// hold, writing its record under its vertex key and then reading and
/// decoding that key gives back an equal vertex. Creating a vertex buffers
/// exactly such a dirty record (see `added_vertex_traversal`), flushing
/// writes it (see `TraversalContext::flush` and
/// `lemma_apply_pending_single`), and fetching by identifier decodes the
/// value found under the vertex key (see `SingleVertexTraversal::next`).
pub proof fn law_round_trip(c0: Map<Seq<u8>, Seq<u8>>, v: VertexView)
    requires
        unique_prop_keys(v.prop),
        encodable(v),
    ensures
        ({
            let c1 = c0.insert(spec_vertex_key(v.id), enc_vertex(v));
            &&& c1.contains_key(spec_vertex_key(v.id))
            &&& dec_vertex(c1[spec_vertex_key(v.id)]) == Some(v)
        }),
{
    lemma_dec_enc_vertex(v);
}

/// Law (round-trip, counter leg): persisting the advanced counter — which
/// every allocation does before the vertex record is flushed — never
/// touches any vertex record, and the stored counter decodes back to the
/// value that was persisted, so a reopened store resumes allocation from
/// it.
pub proof fn law_counter_round_trip(c0: Map<Seq<u8>, Seq<u8>>, lsn: nat, id: nat)
    requires
        lsn <= usize::MAX,
    ensures
        dec_ctx(c0.insert(sys_key_seq(), enc_ctx(lsn))[sys_key_seq()]) == Some(lsn),
        c0.contains_key(spec_vertex_key(id)) ==> c0.insert(sys_key_seq(), enc_ctx(lsn))[
            spec_vertex_key(id)
        ] == c0[spec_vertex_key(id)],
{
    lemma_dec_enc_ctx(lsn);
    lemma_sys_key_not_vertex_key(id);
}

/// Flushing a cache holding one dirty entity writes exactly that entity's
/// record under its vertex key.
pub proof fn lemma_apply_pending_single(m: Map<Seq<u8>, Seq<u8>>, slot: CacheSlot)
    requires
        slot.entry.dirty,
    ensures
        apply_pending(m, seq![slot]) == m.insert(
            spec_vertex_key(slot.id as nat),
            enc_vertex(slot.entry.entry@),
        ),
{
    let one = seq![slot];
    assert(one[0] == slot);
    assert(one.skip(1).len() == 0);
    let m2 = m.insert(spec_vertex_key(slot.id as nat), enc_vertex(slot.entry.entry@));
    assert(apply_pending(m2, one.skip(1)) == m2);
    assert(apply_pending(m, one) == apply_pending(m2, one.skip(1)));
}

/// Law (read-your-writes): within one traversal, an entity put into the
/// context's cache and then looked up by its identifier is found in memory,
/// dirty, and equal to the value that was put — before any flush.
/// `TraversalContext::put` ensures the cache mapping becomes the insertion
/// below, and `TraversalContext::get` returns the mapped value on a hit
/// without consulting the store.
pub proof fn law_read_your_writes(c: Map<nat, (bool, VertexView)>, id: nat, v: VertexView)
    ensures
        c.insert(id, (true, v)).contains_key(id),
        c.insert(id, (true, v))[id].1 == v,
        c.insert(id, (true, v))[id].0,
{
}

/// The identifiers `n` sequential allocations return, starting from
/// counter value `lsn0`: each call advances the counter by one and returns
/// it (see `GraphTraversalSource::add_vertex_with_label`).
pub open spec fn allocated_ids(lsn0: nat, n: nat) -> Seq<nat> {
    Seq::new(n, |i: int| (lsn0 + i + 1) as nat)
}

/// Law (identifier uniqueness and monotonicity): sequential allocations
/// return strictly increasing, pairwise distinct identifiers, and each
/// equals the counter value after its call — the value that call persisted
/// (see `new_id`), so a reopened store resumes from it (see
/// `GraphTraversalSource::new` and `lemma_dec_enc_ctx`).
pub proof fn law_ids_unique_monotone(lsn0: nat, n: nat)
    ensures
        forall|i: int, j: int|
            0 <= i < j < n ==> allocated_ids(lsn0, n)[i] < allocated_ids(lsn0, n)[j],
        forall|i: int, j: int|
            0 <= i < j < n ==> allocated_ids(lsn0, n)[i] != allocated_ids(lsn0, n)[j],
        forall|i: int| 0 <= i < n ==> allocated_ids(lsn0, n)[i] == lsn0 + i + 1,
{
}

/// Law (idempotent flush): a cache with no dirty entity — such as any cache
/// right after a successful flush, whose contract clears every flag —
/// counts zero writes, and applying it to the store changes nothing. So
/// the second of two flushes on one context performs no write.
pub proof fn law_flush_idempotent(m: Map<Seq<u8>, Seq<u8>>, slots: Seq<CacheSlot>)
    requires
        forall|i: int| 0 <= i < slots.len() ==> !(#[trigger] slots[i]).entry.dirty,
    ensures
        dirty_count(slots) == 0,
        apply_pending(m, slots) == m,
{
    lemma_dirty_count_clean(slots);
    lemma_apply_pending_clean(m, slots);
}

/// Law (label filtering): every vertex a label-filtered scan step yields
/// carries exactly the filter's label.
pub proof fn law_label_filter(run: Seq<(Seq<u8>, Seq<u8>)>, lbl: Seq<char>)
    ensures
        (match scan_next_s(run, Some(lbl)) {
            Ok(Some((v, _))) => v.label == lbl,
            _ => true,
        }),
    decreases run.len(),
{
    if run.len() > 0 {
        match dec_vertex(run[0].1) {
            None => {},
            Some(v) => {
                if !label_matches(Some(lbl), v) {
                    law_label_filter(run.skip(1), lbl);
                }
            },
        }
    }
}

/// Every entry of a prefix run carries the prefix.
pub proof fn lemma_prefix_run_starts_with(es: Seq<(Seq<u8>, Seq<u8>)>, p: Seq<u8>)
    ensures
        forall|i: int|
            0 <= i < prefix_run(es, p).len() ==> starts_with(
                (#[trigger] prefix_run(es, p)[i]).0,
                p,
            ),
    decreases es.len(),
{
    if es.len() > 0 && starts_with(es[0].0, p) {
        lemma_prefix_run_starts_with(es.skip(1), p);
        assert forall|i: int|
            0 <= i < prefix_run(es, p).len() implies starts_with(
            (#[trigger] prefix_run(es, p)[i]).0,
            p,
        ) by {
            if i > 0 {
                assert(prefix_run(es, p)[i] == prefix_run(es.skip(1), p)[i - 1]);
            }
        }
    }
}

/// A key that begins with `p` does not order below `p`.
pub proof fn lemma_starts_with_ge(a: Seq<u8>, p: Seq<u8>)
    requires
        starts_with(a, p),
    ensures
        !lex_lt(a, p),
    decreases p.len(),
{
    if p.len() > 0 {
        assert(a.take(p.len() as int)[0] == a[0]);
        assert(a.skip(1).take(p.len() - 1) =~= a.take(p.len() as int).skip(1));
        assert(p.skip(1) =~= a.take(p.len() as int).skip(1));
        lemma_starts_with_ge(a.skip(1), p.skip(1));
    }
}

/// Keys sharing a prefix form an interval of the order: a key `k` that does
/// not order below `p` and does not begin with `p` orders above every key
/// that does begin with `p`.
pub proof fn lemma_prefix_interval(e: Seq<u8>, k: Seq<u8>, p: Seq<u8>)
    requires
        starts_with(e, p),
        !starts_with(k, p),
        !lex_lt(k, p),
    ensures
        lex_lt(e, k),
    decreases p.len(),
{
    if p.len() == 0 {
        assert(k.take(p.len() as int) =~= p);
        assert(starts_with(k, p));
    } else {
        assert(e.take(p.len() as int)[0] == e[0]);
        if k.len() == 0 {
            assert(lex_lt(k, p));
        } else if k[0] < p[0] {
            assert(lex_lt(k, p));
        } else if k[0] > p[0] {
            assert(lex_lt(e, k));
        } else {
            if starts_with(k.skip(1), p.skip(1)) {
                assert(p.len() <= k.len());
                assert forall|x: int| 0 <= x < p.len() implies k.take(p.len() as int)[x]
                    == p[x] by {
                    if x > 0 {
                        assert(k.skip(1).take(p.len() - 1)[x - 1] == k[x]);
                        assert(p.skip(1)[x - 1] == p[x]);
                    }
                }
                assert(k.take(p.len() as int) =~= p);
                assert(starts_with(k, p));
            }
            assert(e.skip(1).take(p.len() - 1) =~= e.take(p.len() as int).skip(1));
            assert(p.skip(1) =~= e.take(p.len() as int).skip(1));
            assert(starts_with(e.skip(1), p.skip(1)));
            assert(!lex_lt(k.skip(1), p.skip(1))) by {
                if lex_lt(k.skip(1), p.skip(1)) {
                    assert(lex_lt(k, p));
                }
            }
            lemma_prefix_interval(e.skip(1), k.skip(1), p.skip(1));
            assert(lex_lt(e, k));
        }
    }
}

/// A run of prefixed entries covers at least its prefixed head.
proof fn lemma_prefix_run_covers(es: Seq<(Seq<u8>, Seq<u8>)>, p: Seq<u8>, n: int)
    requires
        0 <= n <= es.len(),
        forall|m: int| 0 <= m < n ==> starts_with((#[trigger] es[m]).0, p),
    ensures
        prefix_run(es, p).len() >= n,
        forall|m: int| 0 <= m < n ==> (#[trigger] prefix_run(es, p)[m]) == es[m],
    decreases n,
{
    if n > 0 {
        assert(starts_with(es[0].0, p));
        assert forall|m: int| 0 <= m < n - 1 implies starts_with(
            (#[trigger] es.skip(1)[m]).0,
            p,
        ) by {
            assert(es.skip(1)[m] == es[m + 1]);
        }
        lemma_prefix_run_covers(es.skip(1), p, n - 1);
        assert forall|m: int| 0 <= m < n implies (#[trigger] prefix_run(es, p)[m]) == es[m] by {
            if m > 0 {
                assert(prefix_run(es, p)[m] == prefix_run(es.skip(1), p)[m - 1]);
                assert(es.skip(1)[m - 1] == es[m]);
            }
        }
    }
}

/// Law (scan completeness): a scan positioned at the first key not below
/// the vertex prefix misses nothing. Every stored entry whose key begins
/// with the prefix lies in the run the scan will walk, at its key-order
/// position; together with `scan_next_s` this makes the scan yield exactly
/// the stored vertex records, label-filtered, in key order.
pub proof fn law_scan_yields_all(es: Seq<(Seq<u8>, Seq<u8>)>, p: Seq<u8>, i: int, j: int)
    requires
        entries_sorted(es),
        0 <= i <= es.len(),
        forall|m: int| 0 <= m < i ==> lex_lt((#[trigger] es[m]).0, p),
        i < es.len() ==> !lex_lt(es[i as int].0, p),
        0 <= j < es.len(),
        starts_with(es[j].0, p),
    ensures
        i <= j,
        j - i < prefix_run(es.skip(i), p).len(),
        prefix_run(es.skip(i), p)[j - i] == es[j],
{
    lemma_starts_with_ge(es[j].0, p);
    assert(i <= j);
    assert forall|m: int| i <= m <= j implies starts_with((#[trigger] es[m]).0, p) by {
        if !starts_with(es[m].0, p) {
            if lex_lt(es[m].0, p) {
                if m > i {
                    lemma_lex_trans(es[i as int].0, es[m].0, p);
                }
            } else {
                lemma_prefix_interval(es[j].0, es[m].0, p);
                if m < j {
                    lemma_lex_trans(es[m].0, es[j].0, es[m].0);
                    lemma_lex_irrefl(es[m].0);
                } else {
                    lemma_lex_irrefl(es[m].0);
                }
            }
        }
    }
    assert forall|m: int| 0 <= m < j - i + 1 implies starts_with(
        (#[trigger] es.skip(i)[m]).0,
        p,
    ) by {
        assert(es.skip(i)[m] == es[m + i]);
    }
    lemma_prefix_run_covers(es.skip(i), p, j - i + 1);
    assert(prefix_run(es.skip(i), p)[j - i] == es.skip(i)[j - i]);
    assert(es.skip(i)[j - i] == es[j]);
}

} // verus!
