//! The ordered key-value store backing the graph: point get and put by byte
//! key, and an ascending range read, over entries kept sorted by key.
//!
//! A traversal context that is torn down hands its cache over through the
//! `pending` area (see [`crate::context`]); the next store operation settles
//! it, which writes the dirty entries. The store's logical contents already
//! account for the pending dirty entries.

use vstd::prelude::*;

use crate::codec::{enc_vertex, encode_vertex, spec_vertex_key};
use crate::context::{dirty_count, lemma_dirty_count_snoc, CacheSlot, DirtyEntry};

verus! {

// ---------------------------------------------------------------------
// Lexicographic byte order
// ---------------------------------------------------------------------

/// Strict lexicographic order on byte strings.
pub open spec fn lex_lt(a: Seq<u8>, b: Seq<u8>) -> bool
    decreases a.len(),
{
    if b.len() == 0 {
        false
    } else if a.len() == 0 {
        true
    } else if a[0] < b[0] {
        true
    } else if a[0] > b[0] {
        false
    } else {
        lex_lt(a.skip(1), b.skip(1))
    }
}

/// Two byte strings that neither order below the other are equal.
pub proof fn lemma_lex_connex(a: Seq<u8>, b: Seq<u8>)
    requires
        !lex_lt(a, b),
        !lex_lt(b, a),
    ensures
        a == b,
    decreases a.len(),
{
    if a.len() == 0 || b.len() == 0 {
        assert(a =~= b);
    } else {
        lemma_lex_connex(a.skip(1), b.skip(1));
        assert(a =~= seq![a[0]] + a.skip(1));
        assert(b =~= seq![b[0]] + b.skip(1));
    }
}

/// Lexicographic order is transitive.
pub proof fn lemma_lex_trans(a: Seq<u8>, b: Seq<u8>, c: Seq<u8>)
    requires
        lex_lt(a, b),
        lex_lt(b, c),
    ensures
        lex_lt(a, c),
    decreases a.len(),
{
    if a.len() == 0 {
    } else {
        if a[0] == b[0] && b[0] == c[0] {
            lemma_lex_trans(a.skip(1), b.skip(1), c.skip(1));
        }
    }
}

/// Equal heads reduce the order to the tails.
proof fn lemma_lex_skip_step(a: Seq<u8>, b: Seq<u8>, i: int)
    requires
        0 <= i < a.len(),
        i < b.len(),
        a[i] == b[i],
    ensures
        lex_lt(a.skip(i), b.skip(i)) == lex_lt(a.skip(i + 1), b.skip(i + 1)),
{
    assert(a.skip(i).len() > 0);
    assert(b.skip(i).len() > 0);
    assert(a.skip(i)[0] == a[i]);
    assert(b.skip(i)[0] == b[i]);
    assert(a.skip(i).skip(1) =~= a.skip(i + 1));
    assert(b.skip(i).skip(1) =~= b.skip(i + 1));
}

/// Whether `a` orders strictly below `b`.
pub fn lex_lt_bytes(a: &Vec<u8>, b: &Vec<u8>) -> (r: bool)
    ensures
        r == lex_lt(a@, b@),
{
    proof {
        assert(a@.skip(0) =~= a@);
        assert(b@.skip(0) =~= b@);
    }
    let mut i: usize = 0;
    #[verifier::loop_isolation(false)]
    while i < a.len() && i < b.len()
        invariant
            i <= a@.len(),
            i <= b@.len(),
            lex_lt(a@, b@) == lex_lt(a@.skip(i as int), b@.skip(i as int)),
        decreases a@.len() - i,
    {
        if a[i] < b[i] {
            proof {
                assert(a@.skip(i as int)[0] == a@[i as int]);
                assert(b@.skip(i as int)[0] == b@[i as int]);
            }
            return true;
        }
        if a[i] > b[i] {
            proof {
                assert(a@.skip(i as int)[0] == a@[i as int]);
                assert(b@.skip(i as int)[0] == b@[i as int]);
            }
            return false;
        }
        proof {
            lemma_lex_skip_step(a@, b@, i as int);
        }
        i = i + 1;
    }
    proof {
        if i == a@.len() {
            assert(a@.skip(i as int).len() == 0);
        } else {
            assert(b@.skip(i as int).len() == 0);
        }
    }
    i < b.len()
}

/// Whether the two byte strings are equal.
pub fn bytes_eq(a: &Vec<u8>, b: &Vec<u8>) -> (r: bool)
    ensures
        r == (a@ == b@),
{
    if a.len() != b.len() {
        return false;
    }
    let mut i: usize = 0;
    #[verifier::loop_isolation(false)]
    while i < a.len()
        invariant
            i <= a@.len(),
            a@.len() == b@.len(),
            forall|j: int| 0 <= j < i ==> a@[j] == b@[j],
        decreases a@.len() - i,
    {
        if a[i] != b[i] {
            return false;
        }
        i = i + 1;
    }
    proof {
        assert(a@ =~= b@);
    }
    true
}

/// Whether `a` begins with the bytes of `p`.
pub open spec fn starts_with(a: Seq<u8>, p: Seq<u8>) -> bool {
    p.len() <= a.len() && a.take(p.len() as int) == p
}

/// Whether the byte string begins with the prefix.
pub fn starts_with_bytes(a: &Vec<u8>, p: &Vec<u8>) -> (r: bool)
    ensures
        r == starts_with(a@, p@),
{
    if p.len() > a.len() {
        return false;
    }
    let mut i: usize = 0;
    #[verifier::loop_isolation(false)]
    while i < p.len()
        invariant
            i <= p@.len() <= a@.len(),
            forall|j: int| 0 <= j < i ==> a@[j] == p@[j],
        decreases p@.len() - i,
    {
        if a[i] != p[i] {
            proof {
                assert(a@.take(p@.len() as int)[i as int] != p@[i as int]);
            }
            return false;
        }
        i = i + 1;
    }
    proof {
        assert(a@.take(p@.len() as int) =~= p@);
    }
    true
}

/// A byte vector's deep view is its view.
pub broadcast proof fn lemma_bytes_deep_view(v: Vec<u8>)
    ensures
        #[trigger] v.deep_view() == v@,
{
    assert(v.deep_view() =~= v@);
}

/// One entry of the entry list, as byte sequences.
pub proof fn lemma_entries_view_index(es: Vec<(Vec<u8>, Vec<u8>)>, i: int)
    requires
        0 <= i < es@.len(),
    ensures
        es.deep_view().len() == es@.len(),
        es.deep_view()[i] == (es@[i].0@, es@[i].1@),
{
    broadcast use lemma_bytes_deep_view;

    assert(es.deep_view()[i] == (es@[i].0.deep_view(), es@[i].1.deep_view()));
}

// ---------------------------------------------------------------------
// The contents of a sorted entry list, as a map
// ---------------------------------------------------------------------

/// Keys strictly ascending.
pub open spec fn entries_sorted(es: Seq<(Seq<u8>, Seq<u8>)>) -> bool {
    forall|i: int, j: int| 0 <= i < j < es.len() ==> lex_lt(#[trigger] es[i].0, #[trigger] es[j].0)
}

/// The map an entry list denotes; a later entry with the same key wins.
pub open spec fn entries_map(es: Seq<(Seq<u8>, Seq<u8>)>) -> Map<Seq<u8>, Seq<u8>>
    decreases es.len(),
{
    if es.len() == 0 {
        Map::<Seq<u8>, Seq<u8>>::empty()
    } else {
        entries_map(es.drop_last()).insert(es.last().0, es.last().1)
    }
}

/// A key held by no entry is not in the map.
pub proof fn lemma_entries_map_absent(es: Seq<(Seq<u8>, Seq<u8>)>, k: Seq<u8>)
    requires
        forall|i: int| 0 <= i < es.len() ==> (#[trigger] es[i].0) != k,
    ensures
        !entries_map(es).contains_key(k),
    decreases es.len(),
{
    if es.len() > 0 {
        lemma_entries_map_absent(es.drop_last(), k);
    }
}

/// The entry at a position gives the map's value at its key, when keys are
/// pairwise distinct.
pub proof fn lemma_entries_map_index(es: Seq<(Seq<u8>, Seq<u8>)>, p: int)
    requires
        0 <= p < es.len(),
        forall|i: int, j: int|
            0 <= i < j < es.len() ==> (#[trigger] es[i].0) != (#[trigger] es[j].0),
    ensures
        entries_map(es).contains_key(es[p].0),
        entries_map(es)[es[p].0] == es[p].1,
    decreases es.len(),
{
    if p == es.len() - 1 {
    } else {
        lemma_entries_map_index(es.drop_last(), p);
        assert(es.drop_last()[p] == es[p]);
    }
}

/// Inserting an entry with a fresh key at any position inserts its pair
/// into the map.
pub proof fn lemma_entries_map_insert(es: Seq<(Seq<u8>, Seq<u8>)>, p: int, k: Seq<u8>, v: Seq<u8>)
    requires
        0 <= p <= es.len(),
        forall|i: int| 0 <= i < es.len() ==> (#[trigger] es[i].0) != k,
    ensures
        entries_map(es.insert(p, (k, v))) == entries_map(es).insert(k, v),
    decreases es.len(),
{
    let es2 = es.insert(p, (k, v));
    if p == es.len() {
        assert(es2.drop_last() =~= es);
        assert(es2.last() == (k, v));
    } else {
        assert(es2.last() == es.last());
        assert(es2.drop_last() =~= es.drop_last().insert(p, (k, v)));
        lemma_entries_map_insert(es.drop_last(), p, k, v);
        assert(es.last().0 != k);
        assert(entries_map(es.drop_last()).insert(k, v).insert(es.last().0, es.last().1)
            =~= entries_map(es.drop_last()).insert(es.last().0, es.last().1).insert(k, v));
    }
}

/// Replacing the value at a position updates the map at that entry's key,
/// when keys are pairwise distinct.
pub proof fn lemma_entries_map_update(es: Seq<(Seq<u8>, Seq<u8>)>, p: int, v: Seq<u8>)
    requires
        0 <= p < es.len(),
        forall|i: int, j: int|
            0 <= i < j < es.len() ==> (#[trigger] es[i].0) != (#[trigger] es[j].0),
    ensures
        entries_map(es.update(p, (es[p].0, v))) == entries_map(es).insert(es[p].0, v),
    decreases es.len(),
{
    let es2 = es.update(p, (es[p].0, v));
    if p == es.len() - 1 {
        assert(es2.drop_last() =~= es.drop_last());
        assert(es2.last() == (es[p].0, v));
    } else {
        assert(es2.last() == es.last());
        assert(es2.drop_last() =~= es.drop_last().update(p, (es[p].0, v)));
        assert(es.drop_last()[p] == es[p]);
        lemma_entries_map_update(es.drop_last(), p, v);
        assert(es.last().0 != es[p].0);
        assert(entries_map(es.drop_last()).insert(es[p].0, v).insert(es.last().0, es.last().1)
            =~= entries_map(es.drop_last()).insert(es.last().0, es.last().1).insert(es[p].0, v));
    }
}

/// Sorted entries have pairwise distinct keys.
pub proof fn lemma_sorted_distinct(es: Seq<(Seq<u8>, Seq<u8>)>)
    requires
        entries_sorted(es),
    ensures
        forall|i: int, j: int|
            0 <= i < j < es.len() ==> (#[trigger] es[i].0) != (#[trigger] es[j].0),
{
    assert forall|i: int, j: int|
        0 <= i < j < es.len() implies (#[trigger] es[i].0) != (#[trigger] es[j].0) by {
        assert(lex_lt(es[i].0, es[j].0));
        if es[i].0 == es[j].0 {
            lemma_lex_irrefl(es[i].0);
        }
    }
}

/// No byte string orders below itself.
pub proof fn lemma_lex_irrefl(a: Seq<u8>)
    ensures
        !lex_lt(a, a),
    decreases a.len(),
{
    if a.len() > 0 {
        lemma_lex_irrefl(a.skip(1));
    }
}

// ---------------------------------------------------------------------
// The store
// ---------------------------------------------------------------------

/// What a torn-down cache writes into the contents: each dirty slot's
/// record under its vertex key, in slot order.
pub open spec fn apply_pending(m: Map<Seq<u8>, Seq<u8>>, slots: Seq<CacheSlot>) -> Map<
    Seq<u8>,
    Seq<u8>,
>
    decreases slots.len(),
{
    if slots.len() == 0 {
        m
    } else {
        let s = slots[0];
        let m2 = if s.entry.dirty {
            m.insert(spec_vertex_key(s.id as nat), enc_vertex(s.entry.entry@))
        } else {
            m
        };
        apply_pending(m2, slots.skip(1))
    }
}

/// A cache with no dirty slot writes nothing.
pub proof fn lemma_apply_pending_clean(m: Map<Seq<u8>, Seq<u8>>, slots: Seq<CacheSlot>)
    requires
        forall|i: int| 0 <= i < slots.len() ==> !(#[trigger] slots[i]).entry.dirty,
    ensures
        apply_pending(m, slots) == m,
    decreases slots.len(),
{
    if slots.len() > 0 {
        assert(!slots[0].entry.dirty);
        lemma_apply_pending_clean(m, slots.skip(1));
    }
}

/// The ordered key-value store: entries sorted ascending by key, plus the
/// pending hand-over area for torn-down traversal caches.
pub struct KvStore {
    pub(crate) entries: Vec<(Vec<u8>, Vec<u8>)>,
    pub(crate) pending: Vec<CacheSlot>,
    pub(crate) has_pending: bool,
}

impl KvStore {
    /// The entry list as byte sequences.
    pub open(crate) spec fn entries_view(self) -> Seq<(Seq<u8>, Seq<u8>)> {
        self.entries.deep_view()
    }

    /// Well-formed: entries sorted by key, and the pending flag accurate
    /// when clear.
    pub open(crate) spec fn wf(self) -> bool {
        &&& entries_sorted(self.entries_view())
        &&& (!self.has_pending ==> self.pending@.len() == 0)
    }

    /// No pending hand-over: the entry list alone is the contents.
    pub open(crate) spec fn settled(self) -> bool {
        !self.has_pending && self.pending@.len() == 0
    }

    /// The store's logical contents: the sorted entries, with the pending
    /// dirty records applied over them.
    pub open(crate) spec fn contents(self) -> Map<Seq<u8>, Seq<u8>> {
        apply_pending(entries_map(self.entries_view()), self.pending@)
    }

    /// An empty store.
    pub fn new() -> (r: KvStore)
        ensures
            r.wf(),
            r.settled(),
            r.contents() == Map::<Seq<u8>, Seq<u8>>::empty(),
    {
        let r = KvStore { entries: Vec::new(), pending: Vec::new(), has_pending: false };
        proof {
            assert(r.entries_view() =~= Seq::<(Seq<u8>, Seq<u8>)>::empty());
        }
        r
    }
}

impl KvStore {
    /// Point read. The result is the store's value under the key, or
    /// nothing when the key is absent.
    pub fn get(&self, key: &Vec<u8>) -> (r: Option<&Vec<u8>>)
        requires
            self.wf(),
            self.settled(),
        ensures
            match r {
                Some(v) => self.contents().contains_key(key@) && v@ == self.contents()[key@],
                None => !self.contents().contains_key(key@),
            },
    {
        proof {
            lemma_sorted_distinct(self.entries_view());
        }
        let mut i: usize = 0;
        #[verifier::loop_isolation(false)]
        while i < self.entries.len()
            invariant
                i <= self.entries_view().len(),
                forall|j: int| 0 <= j < i ==> (#[trigger] self.entries_view()[j].0) != key@,
            decreases self.entries_view().len() - i,
        {
            proof {
                lemma_entries_view_index(self.entries, i as int);
            }
            if bytes_eq(&self.entries[i].0, key) {
                proof {
                    lemma_entries_map_index(self.entries_view(), i as int);
                }
                return Some(&self.entries[i].1);
            }
            i = i + 1;
        }
        proof {
            lemma_entries_map_absent(self.entries_view(), key@);
        }
        None
    }

    /// Inserts or replaces one entry, keeping the entries sorted. Does not
    /// touch the pending area.
    fn put_inner(&mut self, key: Vec<u8>, val: Vec<u8>)
        requires
            entries_sorted(old(self).entries_view()),
        ensures
            entries_sorted(final(self).entries_view()),
            entries_map(final(self).entries_view()) == entries_map(old(self).entries_view()).insert(
                key@,
                val@,
            ),
            final(self).pending == old(self).pending,
            final(self).has_pending == old(self).has_pending,
    {
        proof {
            lemma_sorted_distinct(self.entries_view());
        }
        let ghost es0 = self.entries_view();
        let mut i: usize = 0;
        #[verifier::loop_isolation(false)]
        let mut stop = false;
        while i < self.entries.len() && !stop
            invariant
                i <= self.entries_view().len(),
                forall|j: int| 0 <= j < i ==> lex_lt(#[trigger] self.entries_view()[j].0, key@),
                stop ==> i < self.entries_view().len() && !lex_lt(
                    self.entries_view()[i as int].0,
                    key@,
                ),
            decreases self.entries_view().len() - i, (if stop {
                0int
            } else {
                1int
            }),
        {
            proof {
                lemma_entries_view_index(self.entries, i as int);
            }
            if lex_lt_bytes(&self.entries[i].0, &key) {
                i = i + 1;
            } else {
                stop = true;
            }
        }
        proof {
            if i < self.entries_view().len() {
                lemma_entries_view_index(self.entries, i as int);
            }
        }
        if i < self.entries.len() && bytes_eq(&self.entries[i].0, &key) {
            proof {
                lemma_entries_map_update(es0, i as int, val@);
            }
            let ghost k0 = self.entries_view()[i as int].0;
            self.entries[i].1 = val;
            proof {
                assert forall|j: int| 0 <= j < self.entries@.len() implies self.entries_view()[j]
                    == es0.update(i as int, (k0, val@))[j] by {
                    lemma_entries_view_index(self.entries, j);
                }
                assert(self.entries_view().len() == es0.len());
                assert(self.entries_view() =~= es0.update(i as int, (k0, val@)));
                assert forall|x: int, y: int|
                    0 <= x < y < self.entries_view().len() implies lex_lt(
                    #[trigger] self.entries_view()[x].0,
                    #[trigger] self.entries_view()[y].0,
                ) by {
                    assert(self.entries_view()[x].0 == es0[x].0);
                    assert(self.entries_view()[y].0 == es0[y].0);
                }
            }
        } else {
            proof {
                if i < es0.len() {
                    assert(!lex_lt(es0[i as int].0, key@));
                    assert(es0[i as int].0 != key@);
                    if !lex_lt(key@, es0[i as int].0) {
                        lemma_lex_connex(es0[i as int].0, key@);
                    }
                }
                assert forall|j: int| 0 <= j < es0.len() implies (#[trigger] es0[j].0) != key@ by {
                    if j < i {
                        lemma_lex_irrefl(key@);
                        if es0[j].0 == key@ {
                            assert(lex_lt(key@, key@));
                        }
                    } else if j > i {
                        assert(lex_lt(es0[i as int].0, es0[j].0));
                        if es0[j].0 == key@ {
                            lemma_lex_trans(key@, es0[i as int].0, es0[j].0);
                        }
                    }
                }
                lemma_entries_map_insert(es0, i as int, key@, val@);
            }
            let ghost kk = key@;
            let ghost vv = val@;
            self.entries.insert(i, (key, val));
            proof {
                assert forall|j: int| 0 <= j < self.entries@.len() implies self.entries_view()[j]
                    == es0.insert(i as int, (kk, vv))[j] by {
                    lemma_entries_view_index(self.entries, j);
                }
                assert(self.entries_view().len() == es0.len() + 1);
                assert(self.entries_view() =~= es0.insert(i as int, (kk, vv)));
                assert forall|x: int, y: int|
                    0 <= x < y < self.entries_view().len() implies lex_lt(
                    #[trigger] self.entries_view()[x].0,
                    #[trigger] self.entries_view()[y].0,
                ) by {
                    let es = self.entries_view();
                    if y == i {
                        assert(es[x].0 == es0[x].0);
                        assert(lex_lt(es0[x].0, kk));
                    } else if x == i {
                        assert(es[y].0 == es0[y - 1].0);
                        if y - 1 == i {
                            assert(lex_lt(kk, es0[i as int].0));
                        } else {
                            assert(lex_lt(kk, es0[i as int].0));
                            assert(lex_lt(es0[i as int].0, es0[y - 1].0));
                            lemma_lex_trans(kk, es0[i as int].0, es0[y - 1].0);
                        }
                    } else if x < i && y > i {
                        assert(es[x].0 == es0[x].0);
                        assert(es[y].0 == es0[y - 1].0);
                        if y - 1 == x {
                            assert(x < i && i <= y - 1);
                            assert(false);
                        } else {
                            assert(lex_lt(es0[x].0, es0[y - 1].0));
                        }
                    } else if y < i {
                        assert(es[x].0 == es0[x].0);
                        assert(es[y].0 == es0[y].0);
                    } else {
                        assert(es[x].0 == es0[x - 1].0);
                        assert(es[y].0 == es0[y - 1].0);
                        assert(lex_lt(es0[x - 1].0, es0[y - 1].0));
                    }
                }
            }
        }
    }

    /// Applies the pending hand-over: every dirty record is written to the
    /// entries, and the pending area is emptied. The logical contents do
    /// not change.
    pub fn settle(&mut self)
        requires
            old(self).wf(),
        ensures
            final(self).wf(),
            final(self).settled(),
            final(self).contents() == old(self).contents(),
    {
        if !self.has_pending {
            return;
        }
        let mut slots: Vec<CacheSlot> = Vec::new();
        core::mem::swap(&mut slots, &mut self.pending);
        self.has_pending = false;
        let ghost all = slots@;
        proof {
            assert(all.skip(0) =~= all);
        }
        let mut i: usize = 0;
        #[verifier::loop_isolation(false)]
        while i < slots.len()
            invariant
                i <= all.len(),
                slots@ == all,
                entries_sorted(self.entries_view()),
                self.pending@.len() == 0,
                !self.has_pending,
                apply_pending(entries_map(self.entries_view()), all.skip(i as int)) == old(
                    self,
                ).contents(),
            decreases all.len() - i,
        {
            let ghost pre = entries_map(self.entries_view());
            let ghost rest = all.skip(i as int);
            proof {
                assert(rest[0] == all[i as int]);
                assert(rest.skip(1) =~= all.skip(i + 1));
            }
            if slots[i].entry.dirty {
                let key = crate::codec::create_vertex_key(slots[i].id);
                let val = encode_vertex(&slots[i].entry.entry);
                self.put_inner(key, val);
            }
            i = i + 1;
        }
        proof {
            assert(all.skip(all.len() as int).len() == 0);
        }
    }

    /// Point write: afterwards the contents hold `val` under `key`.
    pub fn put(&mut self, key: Vec<u8>, val: Vec<u8>)
        requires
            old(self).wf(),
        ensures
            final(self).wf(),
            final(self).settled(),
            final(self).contents() == old(self).contents().insert(key@, val@),
    {
        self.settle();
        self.put_inner(key, val);
    }

    /// How many entries the store holds.
    pub fn len(&self) -> (r: usize)
        requires
            self.settled(),
        ensures
            r == self.entries_view().len(),
    {
        self.entries.len()
    }

    /// The entry at a position, ascending by key.
    pub fn entry_at(&self, i: usize) -> (r: (&Vec<u8>, &Vec<u8>))
        requires
            self.settled(),
            i < self.entries_view().len(),
        ensures
            r.0@ == self.entries_view()[i as int].0,
            r.1@ == self.entries_view()[i as int].1,
    {
        proof {
            lemma_entries_view_index(self.entries, i as int);
        }
        (&self.entries[i].0, &self.entries[i].1)
    }
}

impl KvStore {
    /// Writes every dirty slot of `cache` under its vertex key and clears
    /// its flag; returns how many were written.
    pub(crate) fn flush_cache(&mut self, cache: &mut Vec<CacheSlot>) -> (n: usize)
        requires
            old(self).wf(),
            old(self).settled(),
        ensures
            final(self).wf(),
            final(self).settled(),
            final(self).contents() == apply_pending(old(self).contents(), old(cache)@),
            final(cache)@.len() == old(cache)@.len(),
            forall|i: int|
                0 <= i < final(cache)@.len() ==> {
                    &&& (#[trigger] final(cache)@[i]).id == old(cache)@[i].id
                    &&& final(cache)@[i].entry.entry == old(cache)@[i].entry.entry
                    &&& !final(cache)@[i].entry.dirty
                },
            n == dirty_count(old(cache)@),
    {
        let ghost c0 = cache@;
        proof {
            assert(c0.skip(0) =~= c0);
            assert(c0.take(0).len() == 0);
        }
        let mut n: usize = 0;
        let mut i: usize = 0;
        #[verifier::loop_isolation(false)]
        while i < cache.len()
            invariant
                i <= c0.len(),
                cache@.len() == c0.len(),
                forall|j: int| i <= j < c0.len() ==> (#[trigger] cache@[j]) == c0[j],
                forall|j: int|
                    0 <= j < i ==> {
                        &&& (#[trigger] cache@[j]).id == c0[j].id
                        &&& cache@[j].entry.entry == c0[j].entry.entry
                        &&& !cache@[j].entry.dirty
                    },
                self.wf(),
                self.settled(),
                n == dirty_count(c0.take(i as int)),
                n <= i,
                apply_pending(self.contents(), c0.skip(i as int)) == apply_pending(
                    old(self).contents(),
                    c0,
                ),
            decreases c0.len() - i,
        {
            proof {
                assert(c0.skip(i as int)[0] == c0[i as int]);
                assert(c0.skip(i as int).skip(1) =~= c0.skip(i + 1));
                lemma_dirty_count_snoc(c0, i as int);
            }
            if cache[i].entry.dirty {
                let key = crate::codec::create_vertex_key(cache[i].id);
                let val = encode_vertex(&cache[i].entry.entry);
                self.put(key, val);
                let ghost pre = cache@;
                cache[i].entry.dirty = false;
                proof {
                    assert(cache@ =~= pre.update(
                        i as int,
                        (CacheSlot {
                            id: pre[i as int].id,
                            entry: DirtyEntry { dirty: false, entry: pre[i as int].entry.entry },
                        }),
                    ));
                }
                n = n + 1;
            }
            i = i + 1;
        }
        proof {
            assert(c0.skip(c0.len() as int).len() == 0);
            assert(c0.take(c0.len() as int) =~= c0);
        }
        n
    }
}

} // verus!
