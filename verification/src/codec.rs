//! Binary encoding of the stored records.
//!
//! A vertex record is laid out as: the identifier as eight little-endian
//! bytes, the label as a length-prefixed UTF-8 string, the property count
//! as eight little-endian bytes, and each property as two length-prefixed
//! strings. The persisted sequence counter is eight little-endian bytes.

use vstd::prelude::*;
use vstd::string::StrSliceExecFns;
use vstd::utf8::{decode_utf8, encode_utf8, valid_utf8};

use crate::vertex::{unique_prop_keys, Vertex, VertexView};

verus! {

// ---------------------------------------------------------------------
// Little-endian 64-bit integers
// ---------------------------------------------------------------------

/// The eight little-endian bytes of `n`.
pub open spec fn u64_le_seq(n: u64) -> Seq<u8> {
    Seq::new(8, |i: int| ((n >> ((8 * i) as u64)) & 0xff) as u8)
}

/// The 64-bit value read from eight little-endian bytes.
pub open spec fn u64_from_le(s: Seq<u8>) -> u64
    recommends
        s.len() == 8,
{
    ((s[0] as u64) | ((s[1] as u64) << 8u64) | ((s[2] as u64) << 16u64) | ((s[3] as u64)
        << 24u64) | ((s[4] as u64) << 32u64) | ((s[5] as u64) << 40u64) | ((s[6] as u64)
        << 48u64) | ((s[7] as u64) << 56u64)) as u64
}

pub proof fn lemma_u64_le_round_trip(n: u64)
    ensures
        u64_from_le(u64_le_seq(n)) == n,
{
    let s = u64_le_seq(n);
    assert(s[0] == ((n >> 0u64) & 0xff) as u8);
    assert(s[1] == ((n >> 8u64) & 0xff) as u8);
    assert(s[2] == ((n >> 16u64) & 0xff) as u8);
    assert(s[3] == ((n >> 24u64) & 0xff) as u8);
    assert(s[4] == ((n >> 32u64) & 0xff) as u8);
    assert(s[5] == ((n >> 40u64) & 0xff) as u8);
    assert(s[6] == ((n >> 48u64) & 0xff) as u8);
    assert(s[7] == ((n >> 56u64) & 0xff) as u8);
    assert((((((n >> 0u64) & 0xff) as u8) as u64) | (((((n >> 8u64) & 0xff) as u8) as u64) << 8u64)
        | (((((n >> 16u64) & 0xff) as u8) as u64) << 16u64) | (((((n >> 24u64) & 0xff) as u8)
        as u64) << 24u64) | (((((n >> 32u64) & 0xff) as u8) as u64) << 32u64) | (((((n >> 40u64)
        & 0xff) as u8) as u64) << 40u64) | (((((n >> 48u64) & 0xff) as u8) as u64) << 48u64) | ((((
    (n >> 56u64) & 0xff) as u8) as u64) << 56u64)) == n) by (bit_vector);
}

/// Appends the eight little-endian bytes of `n` to `out`.
pub fn encode_u64(n: u64, out: &mut Vec<u8>)
    ensures
        final(out)@ == old(out)@ + u64_le_seq(n),
{
    let ghost base = out@;
    let mut i: usize = 0;
    #[verifier::loop_isolation(false)]
    while i < 8
        invariant
            i <= 8,
            out@ == base + u64_le_seq(n).take(i as int),
        decreases 8 - i,
    {
        let b: u8 = ((n >> ((8 * i) as u64)) & 0xff) as u8;
        out.push(b);
        proof {
            assert(u64_le_seq(n).take(i + 1) =~= u64_le_seq(n).take(i as int).push(b));
        }
        i = i + 1;
    }
    proof {
        assert(u64_le_seq(n).take(8) =~= u64_le_seq(n));
    }
}

/// Reading eight little-endian bytes at `pos`: the value and the position
/// after it, or nothing if fewer than eight bytes remain.
pub open spec fn take_u64_s(b: Seq<u8>, pos: int) -> Option<(u64, int)> {
    if 0 <= pos && pos + 8 <= b.len() {
        Some((u64_from_le(b.subrange(pos, pos + 8)), pos + 8))
    } else {
        None
    }
}

/// Reads eight little-endian bytes at `*pos` and advances the position.
pub fn take_u64(b: &Vec<u8>, pos: &mut usize) -> (r: Option<u64>)
    ensures
        match take_u64_s(b@, *old(pos) as int) {
            Some((n, p)) => r == Some(n) && *final(pos) == p,
            None => r is None && *final(pos) == *old(pos),
        },
{
    if b.len() >= 8 && *pos <= b.len() - 8 {
        let ghost p0 = *pos as int;
        let ghost s = b@.subrange(p0, p0 + 8);
        let n: u64 = (b[*pos] as u64) | ((b[*pos + 1] as u64) << 8u64) | ((b[*pos + 2] as u64)
            << 16u64) | ((b[*pos + 3] as u64) << 24u64) | ((b[*pos + 4] as u64) << 32u64) | ((b[
            *pos + 5] as u64) << 40u64) | ((b[*pos + 6] as u64) << 48u64) | ((b[*pos + 7] as u64)
            << 56u64);
        proof {
            assert(s[0] == b@[p0] && s[1] == b@[p0 + 1] && s[2] == b@[p0 + 2] && s[3] == b@[p0 + 3]
                && s[4] == b@[p0 + 4] && s[5] == b@[p0 + 5] && s[6] == b@[p0 + 6] && s[7] == b@[p0
                + 7]);
        }
        *pos = *pos + 8;
        Some(n)
    } else {
        None
    }
}

// ---------------------------------------------------------------------
// Length-prefixed UTF-8 strings
// ---------------------------------------------------------------------

/// The encoding of a string: its UTF-8 byte length as eight little-endian
/// bytes, then its UTF-8 bytes.
pub open spec fn enc_string(s: Seq<char>) -> Seq<u8> {
    u64_le_seq(encode_utf8(s).len() as u64) + encode_utf8(s)
}

/// A string whose UTF-8 length the machine can hold.
pub open spec fn str_encodable(s: Seq<char>) -> bool {
    encode_utf8(s).len() <= usize::MAX
}

/// Relies on String::from_utf8: it succeeds exactly on valid UTF-8 input
/// and returns the string whose UTF-8 encoding is that input.
#[verifier::external_body]
fn string_from_utf8(bytes: Vec<u8>) -> (r: Option<String>)
    ensures
        r is Some <==> valid_utf8(bytes@),
        r matches Some(s) ==> encode_utf8(s@) == bytes@,
{
    String::from_utf8(bytes).ok()
}

/// Appends the encoding of `s` to `out`.
pub fn encode_string(s: &str, out: &mut Vec<u8>)
    ensures
        final(out)@ == old(out)@ + enc_string(s@),
        str_encodable(s@),
{
    let mut bytes = s.as_bytes_vec();
    let n: usize = bytes.len();
    encode_u64(n as u64, out);
    out.append(&mut bytes);
}

/// Reading a length-prefixed UTF-8 string at `pos`: the characters and the
/// position after them, or nothing if the bytes do not hold one.
pub open spec fn take_string_s(b: Seq<u8>, pos: int) -> Option<(Seq<char>, int)> {
    match take_u64_s(b, pos) {
        Some((n, p)) => if n <= usize::MAX && p + n <= b.len() && valid_utf8(
            b.subrange(p, p + n),
        ) {
            Some((decode_utf8(b.subrange(p, p + n)), p + n))
        } else {
            None
        },
        None => None,
    }
}

/// The bytes of `b` from `from` (inclusive) to `to` (exclusive).
pub fn copy_range(b: &Vec<u8>, from: usize, to: usize) -> (r: Vec<u8>)
    requires
        from <= to <= b@.len(),
    ensures
        r@ == b@.subrange(from as int, to as int),
{
    let mut r: Vec<u8> = Vec::new();
    let mut j: usize = from;
    #[verifier::loop_isolation(false)]
    while j < to
        invariant
            from <= j <= to <= b@.len(),
            r@ == b@.subrange(from as int, j as int),
        decreases to - j,
    {
        r.push(b[j]);
        proof {
            assert(b@.subrange(from as int, j + 1) =~= b@.subrange(from as int, j as int).push(
                b@[j as int],
            ));
        }
        j = j + 1;
    }
    r
}

/// Reads a length-prefixed UTF-8 string at `*pos` and advances the position.
pub fn take_string(b: &Vec<u8>, pos: &mut usize) -> (r: Option<String>)
    ensures
        match take_string_s(b@, *old(pos) as int) {
            Some((s, p)) => r matches Some(x) && x@ == s && *final(pos) == p,
            None => r is None && *final(pos) == *old(pos),
        },
{
    broadcast use vstd::utf8::encode_utf8_decode_utf8;

    let mut cur: usize = *pos;
    match take_u64(b, &mut cur) {
        None => None,
        Some(n) => {
            if n > usize::MAX as u64 {
                return None;
            }
            let n_us: usize = n as usize;
            if n_us > b.len() - cur {
                return None;
            }
            let bytes = copy_range(b, cur, cur + n_us);
            match string_from_utf8(bytes) {
                None => None,
                Some(s) => {
                    *pos = cur + n_us;
                    Some(s)
                },
            }
        },
    }
}

// ---------------------------------------------------------------------
// Property lists
// ---------------------------------------------------------------------

/// The encoding of the property pairs, in order: each key then its value,
/// both as length-prefixed strings.
pub open spec fn enc_props(ps: Seq<(Seq<char>, Seq<char>)>) -> Seq<u8>
    decreases ps.len(),
{
    if ps.len() == 0 {
        Seq::<u8>::empty()
    } else {
        enc_string(ps[0].0) + enc_string(ps[0].1) + enc_props(ps.skip(1))
    }
}

/// Reading `n` property pairs at `pos`.
pub open spec fn take_props_s(b: Seq<u8>, pos: int, n: nat) -> Option<
    (Seq<(Seq<char>, Seq<char>)>, int),
>
    decreases n,
{
    if n == 0 {
        Some((Seq::<(Seq<char>, Seq<char>)>::empty(), pos))
    } else {
        match take_string_s(b, pos) {
            None => None,
            Some((k, p1)) => match take_string_s(b, p1) {
                None => None,
                Some((v, p2)) => match take_props_s(b, p2, (n - 1) as nat) {
                    None => None,
                    Some((rest, pe)) => Some((seq![(k, v)] + rest, pe)),
                },
            },
        }
    }
}

// ---------------------------------------------------------------------
// Vertex records
// ---------------------------------------------------------------------

/// The encoding of a vertex record.
pub open spec fn enc_vertex(v: VertexView) -> Seq<u8> {
    u64_le_seq(v.id as u64) + enc_string(v.label) + u64_le_seq(v.prop.len() as u64) + enc_props(
        v.prop,
    )
}

/// A property pair whose string lengths the machine can hold.
pub open spec fn pair_encodable(p: (Seq<char>, Seq<char>)) -> bool {
    str_encodable(p.0) && str_encodable(p.1)
}

/// A vertex whose identifier, property count and string lengths the machine
/// can hold. Every value built from a live [`Vertex`] satisfies this.
pub open spec fn encodable(v: VertexView) -> bool {
    &&& v.id <= usize::MAX
    &&& v.prop.len() <= usize::MAX
    &&& str_encodable(v.label)
    &&& forall|i: int| 0 <= i < v.prop.len() ==> pair_encodable(#[trigger] v.prop[i])
}

/// The vertex read from a whole byte record: identifier, label, property
/// count, the properties, nothing left over, and no repeated property key.
pub open spec fn dec_vertex(b: Seq<u8>) -> Option<VertexView> {
    match take_u64_s(b, 0) {
        None => None,
        Some((id, p0)) => if id <= usize::MAX {
            match take_string_s(b, p0) {
                None => None,
                Some((label, p1)) => match take_u64_s(b, p1) {
                    None => None,
                    Some((cnt, p2)) => if cnt <= usize::MAX {
                        match take_props_s(b, p2, cnt as nat) {
                            None => None,
                            Some((prop, pe)) => if pe == b.len() && unique_prop_keys(prop) {
                                Some(VertexView { id: id as nat, label, prop })
                            } else {
                                None
                            },
                        }
                    } else {
                        None
                    },
                },
            }
        } else {
            None
        },
    }
}

/// An empty property list encodes to no bytes.
pub proof fn lemma_enc_props_empty(ps: Seq<(Seq<char>, Seq<char>)>)
    requires
        ps.len() == 0,
    ensures
        enc_props(ps) == Seq::<u8>::empty(),
{
}

/// The property encoding distributes over concatenation.
pub proof fn lemma_enc_props_app(xs: Seq<(Seq<char>, Seq<char>)>, ys: Seq<(Seq<char>, Seq<char>)>)
    ensures
        enc_props(xs + ys) == enc_props(xs) + enc_props(ys),
    decreases xs.len(),
{
    if xs.len() == 0 {
        assert(xs + ys =~= ys);
        assert(enc_props(xs) + enc_props(ys) =~= enc_props(ys));
    } else {
        lemma_enc_props_app(xs.skip(1), ys);
        assert((xs + ys).skip(1) =~= xs.skip(1) + ys);
        assert((xs + ys)[0] == xs[0]);
        assert(enc_props(xs + ys) == enc_string(xs[0].0) + enc_string(xs[0].1) + (enc_props(
            xs.skip(1),
        ) + enc_props(ys)));
        assert(enc_string(xs[0].0) + enc_string(xs[0].1) + (enc_props(xs.skip(1)) + enc_props(ys))
            =~= (enc_string(xs[0].0) + enc_string(xs[0].1) + enc_props(xs.skip(1))) + enc_props(
            ys,
        ));
    }
}

/// Appending one pair extends the property encoding at its end.
pub proof fn lemma_enc_props_snoc(ps: Seq<(Seq<char>, Seq<char>)>, i: int)
    requires
        0 <= i < ps.len(),
    ensures
        enc_props(ps.take(i + 1)) == enc_props(ps.take(i)) + enc_string(ps[i].0) + enc_string(
            ps[i].1,
        ),
{
    let one = seq![ps[i]];
    assert(ps.take(i + 1) =~= ps.take(i) + one);
    lemma_enc_props_app(ps.take(i), one);
    assert(one.skip(1) =~= Seq::<(Seq<char>, Seq<char>)>::empty());
    lemma_enc_props_empty(one.skip(1));
    assert(one[0] == ps[i]);
    assert(enc_props(one) == enc_string(ps[i].0) + enc_string(ps[i].1) + enc_props(one.skip(1)));
    assert(enc_props(one) =~= enc_string(ps[i].0) + enc_string(ps[i].1));
    assert(enc_props(ps.take(i)) + (enc_string(ps[i].0) + enc_string(ps[i].1)) =~= enc_props(
        ps.take(i),
    ) + enc_string(ps[i].0) + enc_string(ps[i].1));
}

/// The byte encoding of a whole vertex.
pub fn encode_vertex(v: &Vertex) -> (out: Vec<u8>)
    ensures
        out@ == enc_vertex(v@),
        encodable(v@),
{
    let mut out: Vec<u8> = Vec::new();
    encode_u64(v.id() as u64, &mut out);
    encode_string(v.label.as_str(), &mut out);
    encode_u64(v.prop.len() as u64, &mut out);
    let ghost head = out@;
    proof {
        assert(v@.prop.len() == v.prop@.len());
        assert(v@.prop.take(0) =~= Seq::<(Seq<char>, Seq<char>)>::empty());
        lemma_enc_props_empty(v@.prop.take(0));
        assert(head + enc_props(v@.prop.take(0)) =~= head);
    }
    let mut i: usize = 0;
    #[verifier::loop_isolation(false)]
    while i < v.prop.len()
        invariant
            i <= v.prop@.len(),
            v@.prop.len() == v.prop@.len(),
            out@ == head + enc_props(v@.prop.take(i as int)),
            forall|j: int| 0 <= j < i ==> pair_encodable(#[trigger] v@.prop[j]),
        decreases v.prop@.len() - i,
    {
        proof {
            assert(v@.prop[i as int] == (v.prop@[i as int].0@, v.prop@[i as int].1@));
        }
        encode_string(v.prop[i].0.as_str(), &mut out);
        encode_string(v.prop[i].1.as_str(), &mut out);
        proof {
            assert(pair_encodable(v@.prop[i as int]));
            lemma_enc_props_snoc(v@.prop, i as int);
            assert(out@ =~= head + enc_props(v@.prop.take(i + 1)));
        }
        i = i + 1;
    }
    proof {
        assert(v@.prop.take(v.prop@.len() as int) =~= v@.prop);
        assert(out@ =~= enc_vertex(v@));
    }
    out
}

/// Whether the property keys are pairwise distinct.
fn props_unique(ps: &Vec<(String, String)>) -> (r: bool)
    ensures
        r == unique_prop_keys(ps.deep_view()),
{
    proof {
        assert(ps.deep_view().len() == ps@.len());
    }
    let mut i: usize = 0;
    #[verifier::loop_isolation(false)]
    while i < ps.len()
        invariant
            i <= ps@.len(),
            ps.deep_view().len() == ps@.len(),
            forall|a: int, b: int| 0 <= a < b < i ==> ps.deep_view()[a].0 != ps.deep_view()[b].0,
        decreases ps@.len() - i,
    {
        let mut j: usize = 0;
        #[verifier::loop_isolation(false)]
    while j < i
            invariant
                j < i < ps@.len() || j == i,
                i < ps@.len(),
                ps.deep_view().len() == ps@.len(),
                forall|a: int| 0 <= a < j ==> ps.deep_view()[a].0 != ps.deep_view()[i as int].0,
            decreases i - j,
        {
            if ps[j].0.eq(&ps[i].0) {
                proof {
                    assert(ps.deep_view()[j as int].0 == ps@[j as int].0@);
                    assert(ps.deep_view()[i as int].0 == ps@[i as int].0@);
                }
                return false;
            }
            proof {
                assert(ps.deep_view()[j as int].0 == ps@[j as int].0@);
                assert(ps.deep_view()[i as int].0 == ps@[i as int].0@);
            }
            j = j + 1;
        }
        i = i + 1;
    }
    true
}

/// Decodes a whole vertex record, or nothing if the bytes do not hold one.
pub fn decode_vertex(b: &Vec<u8>) -> (r: Option<Vertex>)
    ensures
        match dec_vertex(b@) {
            Some(vv) => r matches Some(v) && v@ == vv && v.wf(),
            None => r is None,
        },
{
    let mut pos: usize = 0;
    let id64 = match take_u64(b, &mut pos) {
        None => {
            return None;
        },
        Some(x) => x,
    };
    if id64 > usize::MAX as u64 {
        return None;
    }
    let id: usize = id64 as usize;
    proof {
        assert(id as nat == id64 as nat);
    }
    let label = match take_string(b, &mut pos) {
        None => {
            return None;
        },
        Some(x) => x,
    };
    let cnt64 = match take_u64(b, &mut pos) {
        None => {
            return None;
        },
        Some(x) => x,
    };
    if cnt64 > usize::MAX as u64 {
        return None;
    }
    let cnt: usize = cnt64 as usize;
    proof {
        assert(cnt as nat == cnt64 as nat);
    }
    let ghost pstart = pos as int;
    let mut prop: Vec<(String, String)> = Vec::new();
    proof {
        assert(prop.deep_view().len() == 0);
        let full = take_props_s(b@, pstart, cnt as nat);
        if full is Some {
            let (rest, pe) = full.unwrap();
            assert(prop.deep_view() + rest =~= rest);
        }
    }
    let mut j: usize = 0;
    #[verifier::loop_isolation(false)]
    while j < cnt
        invariant
            j <= cnt,
            prop.deep_view().len() == j,
            (match take_props_s(b@, pos as int, (cnt - j) as nat) {
                Some((rest, pe)) => take_props_s(b@, pstart, cnt as nat) == Some(
                    (prop.deep_view() + rest, pe),
                ),
                None => take_props_s(b@, pstart, cnt as nat) is None,
            }),
        decreases cnt - j,
    {
        let ghost pos0 = pos as int;
        let k = match take_string(b, &mut pos) {
            None => {
                proof {
                    assert(take_props_s(b@, pos0, (cnt - j) as nat) is None);
                }
                return None;
            },
            Some(x) => x,
        };
        let v = match take_string(b, &mut pos) {
            None => {
                proof {
                    assert(take_props_s(b@, pos0, (cnt - j) as nat) is None);
                }
                return None;
            },
            Some(x) => x,
        };
        proof {
            assert(prop.deep_view().len() == j as int);
            assert(prop@.len() == j as int);
        }
        let ghost old_acc = prop.deep_view();
        prop.push((k, v));
        proof {
            assert(prop@.len() == j + 1);
            assert forall|x: int| 0 <= x < j + 1 implies prop.deep_view()[x] == old_acc.push(
                (k@, v@),
            )[x] by {
                if x == j {
                    assert(prop@[x] == (k, v));
                }
            }
            assert(prop.deep_view() =~= old_acc.push((k@, v@)));
            let stepped = take_props_s(b@, pos as int, (cnt - j - 1) as nat);
            assert(take_props_s(b@, pos0, (cnt - j) as nat) == (match stepped {
                None => None,
                Some((rest, pe)) => Some((seq![(k@, v@)] + rest, pe)),
            }));
            if stepped is Some {
                let (rest, pe) = stepped.unwrap();
                assert(old_acc + (seq![(k@, v@)] + rest) =~= prop.deep_view() + rest);
            }
        }
        j = j + 1;
    }
    proof {
        assert(take_props_s(b@, pos as int, 0) == Some(
            (Seq::<(Seq<char>, Seq<char>)>::empty(), pos as int),
        ));
        assert(prop.deep_view() + Seq::<(Seq<char>, Seq<char>)>::empty() =~= prop.deep_view());
    }
    if pos != b.len() {
        return None;
    }
    if !props_unique(&prop) {
        return None;
    }
    let v = Vertex::from_parts(id, label, prop);
    Some(v)
}

// ---------------------------------------------------------------------
// Parsing an encoding gives back what was encoded
// ---------------------------------------------------------------------

/// Reading eight bytes where an integer was written yields that integer.
pub proof fn lemma_take_u64_at(b: Seq<u8>, pos: int, n: u64)
    requires
        0 <= pos,
        pos + 8 <= b.len(),
        b.subrange(pos, pos + 8) == u64_le_seq(n),
    ensures
        take_u64_s(b, pos) == Some((n, pos + 8)),
{
    lemma_u64_le_round_trip(n);
}

/// Reading a string where one was written yields that string.
pub proof fn lemma_take_string_at(b: Seq<u8>, pos: int, s: Seq<char>)
    requires
        0 <= pos,
        pos + enc_string(s).len() <= b.len(),
        b.subrange(pos, pos + enc_string(s).len() as int) == enc_string(s),
        str_encodable(s),
    ensures
        take_string_s(b, pos) == Some((s, pos + enc_string(s).len())),
{
    broadcast use vstd::utf8::encode_utf8_valid_utf8, vstd::utf8::encode_utf8_decode_utf8;

    let u = encode_utf8(s);
    let n = u.len() as u64;
    let e = enc_string(s);
    assert(e.len() == 8 + u.len());
    assert(b.subrange(pos, pos + 8) =~= u64_le_seq(n)) by {
        assert forall|k: int| 0 <= k < 8 implies b.subrange(pos, pos + 8)[k] == u64_le_seq(n)[k]
            by {
            assert(b.subrange(pos, pos + e.len() as int)[k] == e[k]);
            assert(e[k] == u64_le_seq(n)[k]);
        }
    }
    lemma_take_u64_at(b, pos, n);
    assert(b.subrange(pos + 8, pos + 8 + u.len() as int) =~= u) by {
        assert forall|k: int| 0 <= k < u.len() implies b.subrange(
            pos + 8,
            pos + 8 + u.len() as int,
        )[k] == u[k] by {
            assert(b.subrange(pos, pos + e.len() as int)[8 + k] == e[8 + k]);
            assert(e[8 + k] == u[k]);
        }
    }
    assert(valid_utf8(u));
    assert(decode_utf8(u) == s);
}

/// Reading property pairs where some were written yields those pairs.
pub proof fn lemma_take_props_at(b: Seq<u8>, pos: int, ps: Seq<(Seq<char>, Seq<char>)>)
    requires
        0 <= pos,
        pos + enc_props(ps).len() <= b.len(),
        b.subrange(pos, pos + enc_props(ps).len() as int) == enc_props(ps),
        forall|i: int| 0 <= i < ps.len() ==> pair_encodable(#[trigger] ps[i]),
    ensures
        take_props_s(b, pos, ps.len()) == Some((ps, pos + enc_props(ps).len())),
    decreases ps.len(),
{
    if ps.len() == 0 {
    } else {
        let e = enc_props(ps);
        let e0 = enc_string(ps[0].0);
        let e1 = enc_string(ps[0].1);
        let er = enc_props(ps.skip(1));
        assert(e == e0 + e1 + er);
        assert(e.len() == e0.len() + e1.len() + er.len());
        assert(b.subrange(pos, pos + e0.len() as int) =~= e0) by {
            assert forall|k: int| 0 <= k < e0.len() implies b.subrange(pos, pos + e0.len() as int)[k]
                == e0[k] by {
                assert(b.subrange(pos, pos + e.len() as int)[k] == e[k]);
                assert(e[k] == (e0 + e1)[k]);
            }
        }
        lemma_take_string_at(b, pos, ps[0].0);
        let p1 = pos + e0.len();
        assert(b.subrange(p1, p1 + e1.len() as int) =~= e1) by {
            assert forall|k: int| 0 <= k < e1.len() implies b.subrange(p1, p1 + e1.len() as int)[k]
                == e1[k] by {
                assert(b.subrange(pos, pos + e.len() as int)[e0.len() + k] == e[e0.len() + k]);
                assert(e[e0.len() + k] == (e0 + e1)[e0.len() + k]);
            }
        }
        lemma_take_string_at(b, p1, ps[0].1);
        let p2 = p1 + e1.len();
        assert(b.subrange(p2, p2 + er.len() as int) =~= er) by {
            assert forall|k: int| 0 <= k < er.len() implies b.subrange(p2, p2 + er.len() as int)[k]
                == er[k] by {
                assert(b.subrange(pos, pos + e.len() as int)[e0.len() + e1.len() + k] == e[e0.len()
                    + e1.len() + k]);
            }
        }
        assert forall|i: int| 0 <= i < ps.skip(1).len() implies pair_encodable(
            #[trigger] ps.skip(1)[i],
        ) by {
            assert(ps.skip(1)[i] == ps[i + 1]);
        }
        lemma_take_props_at(b, p2, ps.skip(1));
        assert(take_props_s(b, pos, ps.len()) == Some(
            (seq![ps[0]] + ps.skip(1), p2 + er.len()),
        ));
        assert(seq![ps[0]] + ps.skip(1) =~= ps);
    }
}

/// Decoding an encoded vertex record gives back the vertex: the codec
/// round-trips on every well-formed vertex value the machine can hold.
pub proof fn lemma_dec_enc_vertex(v: VertexView)
    requires
        encodable(v),
        unique_prop_keys(v.prop),
    ensures
        dec_vertex(enc_vertex(v)) == Some(v),
{
    let b = enc_vertex(v);
    let h0 = u64_le_seq(v.id as u64);
    let h1 = enc_string(v.label);
    let h2 = u64_le_seq(v.prop.len() as u64);
    let h3 = enc_props(v.prop);
    assert(b == h0 + h1 + h2 + h3);
    assert(b.len() == 8 + h1.len() + 8 + h3.len());
    assert(b.subrange(0, 8) =~= h0) by {
        assert forall|k: int| 0 <= k < 8 implies b.subrange(0int, 8int)[k] == h0[k] by {
            assert(b[k] == ((h0 + h1) + h2)[k]);
            assert(b[k] == (h0 + h1)[k]);
        }
    }
    lemma_take_u64_at(b, 0, v.id as u64);
    assert(v.id as u64 <= usize::MAX);
    let p0 = 8int;
    assert(b.subrange(p0, p0 + h1.len() as int) =~= h1) by {
        assert forall|k: int| 0 <= k < h1.len() implies b.subrange(p0, p0 + h1.len() as int)[k]
            == h1[k] by {
            assert(b[8 + k] == ((h0 + h1) + h2)[8 + k]);
            assert(b[8 + k] == (h0 + h1)[8 + k]);
        }
    }
    lemma_take_string_at(b, p0, v.label);
    let p1 = p0 + h1.len();
    assert(b.subrange(p1, p1 + 8) =~= h2) by {
        assert forall|k: int| 0 <= k < 8 implies b.subrange(p1, p1 + 8)[k] == h2[k] by {
            assert(b[p1 + k] == ((h0 + h1) + h2)[p1 + k]);
        }
    }
    lemma_take_u64_at(b, p1, v.prop.len() as u64);
    assert(v.prop.len() as u64 <= usize::MAX);
    let p2 = p1 + 8;
    assert(b.subrange(p2, p2 + h3.len() as int) =~= h3) by {
        assert forall|k: int| 0 <= k < h3.len() implies b.subrange(p2, p2 + h3.len() as int)[k]
            == h3[k] by {
            assert(b[p2 + k] == h3[k]);
        }
    }
    lemma_take_props_at(b, p2, v.prop);
    assert((v.id as u64) as nat == v.id);
    assert((v.prop.len() as u64) as nat == v.prop.len());
    assert(p2 + h3.len() == b.len());
    assert(dec_vertex(b) == Some(VertexView { id: v.id, label: v.label, prop: v.prop }));
    assert(VertexView { id: v.id, label: v.label, prop: v.prop } == v);
}

// ---------------------------------------------------------------------
// The persisted sequence counter
// ---------------------------------------------------------------------

/// The encoding of the persisted counter value.
pub open spec fn enc_ctx(lsn: nat) -> Seq<u8>
    recommends
        lsn <= u64::MAX,
{
    u64_le_seq(lsn as u64)
}

/// The counter read from a whole stored record: eight little-endian bytes
/// holding a value the machine can count to, nothing left over.
pub open spec fn dec_ctx(b: Seq<u8>) -> Option<nat> {
    match take_u64_s(b, 0) {
        None => None,
        Some((n, p)) => if p == b.len() && n <= usize::MAX {
            Some(n as nat)
        } else {
            None
        },
    }
}

/// The byte encoding of the counter.
pub fn encode_context(lsn: usize) -> (out: Vec<u8>)
    ensures
        out@ == enc_ctx(lsn as nat),
{
    let mut out: Vec<u8> = Vec::new();
    encode_u64(lsn as u64, &mut out);
    proof {
        assert(out@ =~= u64_le_seq(lsn as u64));
    }
    out
}

/// Decodes a stored counter record.
pub fn decode_context(b: &Vec<u8>) -> (r: Option<usize>)
    ensures
        match dec_ctx(b@) {
            Some(n) => r matches Some(x) && x as nat == n,
            None => r is None,
        },
{
    let mut pos: usize = 0;
    let n64 = match take_u64(b, &mut pos) {
        None => {
            return None;
        },
        Some(x) => x,
    };
    if pos != b.len() {
        return None;
    }
    if n64 > usize::MAX as u64 {
        return None;
    }
    Some(n64 as usize)
}

/// Decoding an encoded counter gives back the counter.
pub proof fn lemma_dec_enc_ctx(lsn: nat)
    requires
        lsn <= usize::MAX,
    ensures
        dec_ctx(enc_ctx(lsn)) == Some(lsn),
{
    let b = enc_ctx(lsn);
    assert(b.subrange(0, 8) =~= b);
    lemma_take_u64_at(b, 0, lsn as u64);
    assert((lsn as u64) as nat == lsn);
}

// ---------------------------------------------------------------------
// Key scheme
// ---------------------------------------------------------------------

/// The ASCII decimal digits of `n`, most significant first.
pub open spec fn dec_digits(n: nat) -> Seq<u8>
    decreases n,
{
    if n < 10 {
        seq![(48 + n) as u8]
    } else {
        dec_digits(n / 10) + seq![(48 + n % 10) as u8]
    }
}

/// The byte prefix under which vertex records are keyed: `vtx_`.
pub open spec fn vertex_prefix_seq() -> Seq<u8> {
    seq![118u8, 116u8, 120u8, 95u8]
}

/// The key of the vertex record with identifier `id`: the prefix, then the
/// identifier's decimal digits.
pub open spec fn spec_vertex_key(id: nat) -> Seq<u8> {
    vertex_prefix_seq() + dec_digits(id)
}

/// The well-known key under which the sequence counter is persisted:
/// `sys_context`.
pub open spec fn sys_key_seq() -> Seq<u8> {
    seq![115u8, 121u8, 115u8, 95u8, 99u8, 111u8, 110u8, 116u8, 101u8, 120u8, 116u8]
}

/// The counter's key never collides with a vertex key.
pub proof fn lemma_sys_key_not_vertex_key(id: nat)
    ensures
        sys_key_seq() != spec_vertex_key(id),
{
    assert(sys_key_seq()[0] == 115u8);
    assert(spec_vertex_key(id)[0] == 118u8);
}

/// Appends the decimal digits of `n` to `out`.
pub fn push_decimal(n: usize, out: &mut Vec<u8>)
    ensures
        final(out)@ == old(out)@ + dec_digits(n as nat),
    decreases n,
{
    if n >= 10 {
        push_decimal(n / 10, out);
    }
    let d: u8 = 48 + ((n % 10) as u8);
    out.push(d);
    proof {
        if n < 10 {
            assert(old(out)@ + dec_digits(n as nat) =~= old(out)@.push(d));
        } else {
            assert(old(out)@ + dec_digits(n as nat) =~= (old(out)@ + dec_digits((n / 10) as nat)).push(d));
        }
    }
}

/// The bytes of the vertex key prefix.
pub fn vertex_key_prefix() -> (r: Vec<u8>)
    ensures
        r@ == vertex_prefix_seq(),
{
    let mut r: Vec<u8> = Vec::new();
    r.push(118);
    r.push(116);
    r.push(120);
    r.push(95);
    proof {
        assert(r@ =~= vertex_prefix_seq());
    }
    r
}

/// The bytes of the counter's well-known key.
pub fn sys_context_key() -> (r: Vec<u8>)
    ensures
        r@ == sys_key_seq(),
{
    let mut r: Vec<u8> = Vec::new();
    r.push(115);
    r.push(121);
    r.push(115);
    r.push(95);
    r.push(99);
    r.push(111);
    r.push(110);
    r.push(116);
    r.push(101);
    r.push(120);
    r.push(116);
    proof {
        assert(r@ =~= sys_key_seq());
    }
    r
}

/// The store key of the vertex with identifier `id`.
pub fn create_vertex_key(id: usize) -> (r: Vec<u8>)
    ensures
        r@ == spec_vertex_key(id as nat),
{
    let mut r = vertex_key_prefix();
    push_decimal(id, &mut r);
    r
}

} // verus!
