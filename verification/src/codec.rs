//! The byte format under which records are persisted.
//!
//! A record is laid out as: the identifier (8 bytes, little endian), the
//! three vote counters (4 bytes each, little endian), the activity flag
//! (1 byte, 0 or 1), the owner bytes and the description bytes (each with a
//! 4-byte little-endian length prefix), and finally the voter list (a 4-byte
//! little-endian count followed by each voter's length-prefixed bytes).
//!
//! `spec_encode` and `spec_decode` state the format mathematically; the
//! executable `encode_product` and `decode_product` are proved against them,
//! and `lemma_encode_decode` proves the byte-level round trip.

use vstd::prelude::*;
use vstd::bytes::{
    lemma_auto_spec_u32_to_from_le_bytes, lemma_auto_spec_u64_to_from_le_bytes,
    spec_u32_from_le_bytes, spec_u32_to_le_bytes, spec_u64_from_le_bytes, spec_u64_to_le_bytes,
    u32_from_le_bytes, u32_to_le_bytes, u64_from_le_bytes, u64_to_le_bytes,
};
use vstd::slice::{slice_subrange, slice_to_vec};
use crate::record::{CallerId, Product, RecordView};

verus! {

/// The largest serialized record the store accepts, in bytes.
pub const MAX_VALUE_SIZE: usize = 5000;

/// A byte string preceded by its length as 4 little-endian bytes.
pub open spec fn spec_len_prefixed(b: Seq<u8>) -> Seq<u8> {
    spec_u32_to_le_bytes(b.len() as u32) + b
}

/// The voter list: each voter's bytes, length-prefixed, in order.
pub open spec fn spec_encode_voted(vs: Seq<Seq<u8>>) -> Seq<u8>
    decreases vs.len(),
{
    if vs.len() == 0 {
        Seq::empty()
    } else {
        spec_len_prefixed(vs[0]) + spec_encode_voted(vs.drop_first())
    }
}

/// The full serialized form of a record.
pub open spec fn spec_encode(v: RecordView) -> Seq<u8> {
    spec_u64_to_le_bytes(v.id) + spec_u32_to_le_bytes(v.approve) + spec_u32_to_le_bytes(v.reject)
        + spec_u32_to_le_bytes(v.pass) + seq![if v.is_active { 1u8 } else { 0u8 }]
        + spec_len_prefixed(v.owner) + spec_len_prefixed(v.description)
        + spec_u32_to_le_bytes(v.voted.len() as u32) + spec_encode_voted(v.voted)
}

/// Every variable-length part fits its 4-byte length prefix.
pub open spec fn encodable(v: RecordView) -> bool {
    &&& v.owner.len() <= u32::MAX
    &&& v.description.len() <= u32::MAX
    &&& v.voted.len() <= u32::MAX
    &&& forall|i: int| 0 <= i < v.voted.len() ==> (#[trigger] v.voted[i]).len() <= u32::MAX
}

/// Reads 4 bytes as a little-endian integer; the rest of the input follows.
pub open spec fn dec_u32(s: Seq<u8>) -> Option<(u32, Seq<u8>)> {
    if s.len() >= 4 {
        Some((spec_u32_from_le_bytes(s.take(4)), s.skip(4)))
    } else {
        None
    }
}

/// Reads 8 bytes as a little-endian integer; the rest of the input follows.
pub open spec fn dec_u64(s: Seq<u8>) -> Option<(u64, Seq<u8>)> {
    if s.len() >= 8 {
        Some((spec_u64_from_le_bytes(s.take(8)), s.skip(8)))
    } else {
        None
    }
}

/// Reads one byte; the rest of the input follows.
pub open spec fn dec_u8(s: Seq<u8>) -> Option<(u8, Seq<u8>)> {
    if s.len() >= 1 {
        Some((s[0], s.skip(1)))
    } else {
        None
    }
}

/// Reads a length-prefixed byte string; the rest of the input follows.
pub open spec fn dec_bytes(s: Seq<u8>) -> Option<(Seq<u8>, Seq<u8>)> {
    match dec_u32(s) {
        None => None,
        Some((n, r)) => if r.len() >= n {
            Some((r.take(n as int), r.skip(n as int)))
        } else {
            None
        },
    }
}

/// Reads `count` length-prefixed byte strings; the rest of the input follows.
pub open spec fn dec_voted(s: Seq<u8>, count: nat) -> Option<(Seq<Seq<u8>>, Seq<u8>)>
    decreases count,
{
    if count == 0 {
        Some((Seq::empty(), s))
    } else {
        match dec_bytes(s) {
            None => None,
            Some((b, r)) => match dec_voted(r, (count - 1) as nat) {
                None => None,
                Some((bs, r2)) => Some((seq![b] + bs, r2)),
            },
        }
    }
}

/// The parser of the record format: `None` on any malformed input, and on
/// input with trailing bytes.
pub open spec fn spec_decode(s: Seq<u8>) -> Option<RecordView> {
    match dec_u64(s) {
        None => None,
        Some((id, s1)) => match dec_u32(s1) {
            None => None,
            Some((approve, s2)) => match dec_u32(s2) {
                None => None,
                Some((reject, s3)) => match dec_u32(s3) {
                    None => None,
                    Some((pass, s4)) => match dec_u8(s4) {
                        None => None,
                        Some((act, s5)) => if act != 0 && act != 1 {
                            None
                        } else {
                            match dec_bytes(s5) {
                                None => None,
                                Some((owner, s6)) => match dec_bytes(s6) {
                                    None => None,
                                    Some((description, s7)) => match dec_u32(s7) {
                                        None => None,
                                        Some((count, s8)) => match dec_voted(s8, count as nat) {
                                            None => None,
                                            Some((voted, s9)) => if s9.len() != 0 {
                                                None
                                            } else {
                                                Some(
                                                    RecordView {
                                                        id,
                                                        description,
                                                        approve,
                                                        reject,
                                                        pass,
                                                        is_active: act == 1,
                                                        voted,
                                                        owner,
                                                    },
                                                )
                                            },
                                        },
                                    },
                                },
                            }
                        },
                    },
                },
            },
        },
    }
}

proof fn lemma_dec_u32_prefix(x: u32, rest: Seq<u8>)
    ensures
        dec_u32(spec_u32_to_le_bytes(x) + rest) == Some((x, rest)),
{
    lemma_auto_spec_u32_to_from_le_bytes();
    let s = spec_u32_to_le_bytes(x) + rest;
    assert(s.take(4) =~= spec_u32_to_le_bytes(x));
    assert(s.skip(4) =~= rest);
}

proof fn lemma_dec_u64_prefix(x: u64, rest: Seq<u8>)
    ensures
        dec_u64(spec_u64_to_le_bytes(x) + rest) == Some((x, rest)),
{
    lemma_auto_spec_u64_to_from_le_bytes();
    let s = spec_u64_to_le_bytes(x) + rest;
    assert(s.take(8) =~= spec_u64_to_le_bytes(x));
    assert(s.skip(8) =~= rest);
}

proof fn lemma_dec_u8_prefix(b: u8, rest: Seq<u8>)
    ensures
        dec_u8(seq![b] + rest) == Some((b, rest)),
{
    let s = seq![b] + rest;
    assert(s[0] == b);
    assert(s.skip(1) =~= rest);
}

proof fn lemma_dec_bytes_prefix(b: Seq<u8>, rest: Seq<u8>)
    requires
        b.len() <= u32::MAX,
    ensures
        dec_bytes(spec_len_prefixed(b) + rest) == Some((b, rest)),
{
    lemma_auto_spec_u32_to_from_le_bytes();
    assert(spec_len_prefixed(b) + rest =~= spec_u32_to_le_bytes(b.len() as u32) + (b + rest));
    lemma_dec_u32_prefix(b.len() as u32, b + rest);
    assert((b + rest).take(b.len() as int) =~= b);
    assert((b + rest).skip(b.len() as int) =~= rest);
}

proof fn lemma_dec_voted_prefix(vs: Seq<Seq<u8>>, rest: Seq<u8>)
    requires
        forall|i: int| 0 <= i < vs.len() ==> (#[trigger] vs[i]).len() <= u32::MAX,
    ensures
        dec_voted(spec_encode_voted(vs) + rest, vs.len()) == Some((vs, rest)),
    decreases vs.len(),
{
    if vs.len() == 0 {
        assert(spec_encode_voted(vs) + rest =~= rest);
        assert(vs =~= Seq::<Seq<u8>>::empty());
    } else {
        let tail = vs.drop_first();
        assert(spec_encode_voted(vs) + rest =~= spec_len_prefixed(vs[0]) + (spec_encode_voted(tail)
            + rest));
        lemma_dec_bytes_prefix(vs[0], spec_encode_voted(tail) + rest);
        assert(forall|i: int| 0 <= i < tail.len() ==> (#[trigger] tail[i]).len() <= u32::MAX);
        lemma_dec_voted_prefix(tail, rest);
        assert(seq![vs[0]] + tail =~= vs);
    }
}

/// Appending one voter to the list appends its length-prefixed bytes to the
/// list's serialized form.
pub proof fn lemma_encode_voted_push(vs: Seq<Seq<u8>>, x: Seq<u8>)
    ensures
        spec_encode_voted(vs.push(x)) == spec_encode_voted(vs) + spec_len_prefixed(x),
    decreases vs.len(),
{
    if vs.len() == 0 {
        assert(vs.push(x)[0] == x);
        assert(vs.push(x).drop_first() =~= Seq::<Seq<u8>>::empty());
        assert(spec_encode_voted(vs.push(x)) == spec_len_prefixed(x) + spec_encode_voted(
            Seq::<Seq<u8>>::empty(),
        ));
        assert(spec_len_prefixed(x) + Seq::<u8>::empty() =~= spec_len_prefixed(x));
        assert(spec_encode_voted(vs) + spec_len_prefixed(x) =~= spec_len_prefixed(x));
    } else {
        let tail = vs.drop_first();
        lemma_encode_voted_push(tail, x);
        assert(vs.push(x)[0] == vs[0]);
        assert(vs.push(x).drop_first() =~= tail.push(x));
        assert(spec_encode_voted(vs.push(x)) == spec_len_prefixed(vs[0]) + (spec_encode_voted(tail)
            + spec_len_prefixed(x)));
        assert(spec_len_prefixed(vs[0]) + (spec_encode_voted(tail) + spec_len_prefixed(x)) =~= (
        spec_len_prefixed(vs[0]) + spec_encode_voted(tail)) + spec_len_prefixed(x));
        assert(spec_len_prefixed(vs[0]) + spec_encode_voted(tail) == spec_encode_voted(vs));
    }
}

/// The serialized voter list takes at least 4 bytes per voter, and holds
/// each voter's bytes whole.
pub proof fn lemma_encode_voted_len(vs: Seq<Seq<u8>>)
    ensures
        spec_encode_voted(vs).len() >= 4 * vs.len(),
        forall|i: int|
            0 <= i < vs.len() ==> (#[trigger] vs[i]).len() <= spec_encode_voted(vs).len(),
    decreases vs.len(),
{
    lemma_auto_spec_u32_to_from_le_bytes();
    if vs.len() > 0 {
        lemma_encode_voted_len(vs.drop_first());
        assert forall|i: int| 0 <= i < vs.len() implies (#[trigger] vs[i]).len()
            <= spec_encode_voted(vs).len() by {
            if i > 0 {
                assert(vs[i] == vs.drop_first()[i - 1]);
            }
        }
    }
}

/// A serialized record takes at least 4 bytes per voter — with the size
/// bound this caps the voter count, and with it each vote counter — and
/// holds the description, the owner and each voter's bytes whole.
pub proof fn lemma_encode_len(v: RecordView)
    ensures
        spec_encode(v).len() >= 4 * v.voted.len(),
        spec_encode(v).len() >= v.description.len(),
        spec_encode(v).len() >= v.owner.len(),
        forall|i: int|
            0 <= i < v.voted.len() ==> (#[trigger] v.voted[i]).len() <= spec_encode(v).len(),
{
    lemma_encode_voted_len(v.voted);
}

/// Parsing a serialized record yields exactly the record back.
pub proof fn lemma_encode_decode(v: RecordView)
    requires
        encodable(v),
    ensures
        spec_decode(spec_encode(v)) == Some(v),
{
    lemma_auto_spec_u32_to_from_le_bytes();
    let r_voted = spec_encode_voted(v.voted);
    let r8 = spec_u32_to_le_bytes(v.voted.len() as u32) + r_voted;
    let r7 = spec_len_prefixed(v.description) + r8;
    let r6 = spec_len_prefixed(v.owner) + r7;
    let act = if v.is_active { 1u8 } else { 0u8 };
    let r5 = seq![act] + r6;
    let r4 = spec_u32_to_le_bytes(v.pass) + r5;
    let r3 = spec_u32_to_le_bytes(v.reject) + r4;
    let r2 = spec_u32_to_le_bytes(v.approve) + r3;
    assert(spec_encode(v) =~= spec_u64_to_le_bytes(v.id) + r2);
    lemma_dec_u64_prefix(v.id, r2);
    lemma_dec_u32_prefix(v.approve, r3);
    lemma_dec_u32_prefix(v.reject, r4);
    lemma_dec_u32_prefix(v.pass, r5);
    lemma_dec_u8_prefix(act, r6);
    lemma_dec_bytes_prefix(v.owner, r7);
    lemma_dec_bytes_prefix(v.description, r8);
    lemma_dec_u32_prefix(v.voted.len() as u32, r_voted);
    assert(r_voted =~= spec_encode_voted(v.voted) + Seq::<u8>::empty());
    lemma_dec_voted_prefix(v.voted, Seq::<u8>::empty());
    assert((v.voted.len() as u32) as nat == v.voted.len());
}

/// Appends `b` with its 4-byte length prefix to `out`.
fn push_len_prefixed(out: &mut Vec<u8>, b: &Vec<u8>)
    requires
        b@.len() <= u32::MAX,
    ensures
        final(out)@ == old(out)@ + spec_len_prefixed(b@),
{
    let ghost prefix: Seq<u8> = spec_u32_to_le_bytes(b@.len() as u32);
    let mut tmp = u32_to_le_bytes(b.len() as u32);
    out.append(&mut tmp);
    let n = b.len();
    let mut i: usize = 0;
    while i < n
        invariant
            0 <= i <= n,
            n == b@.len(),
            out@ =~= old(out)@ + prefix + b@.subrange(0, i as int),
        decreases n - i,
    {
        out.push(b[i]);
        i += 1;
    }
    proof {
        assert(b@.subrange(0, n as int) =~= b@);
        assert(out@ =~= old(out)@ + spec_len_prefixed(b@));
    }
}

/// Serializes a record into the byte format.
pub fn encode_product(p: &Product) -> (out: Vec<u8>)
    requires
        encodable(p@),
    ensures
        out@ == spec_encode(p@),
{
    let mut out: Vec<u8> = Vec::new();
    let mut tmp = u64_to_le_bytes(p.id);
    out.append(&mut tmp);
    let mut tmp = u32_to_le_bytes(p.approve);
    out.append(&mut tmp);
    let mut tmp = u32_to_le_bytes(p.reject);
    out.append(&mut tmp);
    let mut tmp = u32_to_le_bytes(p.pass);
    out.append(&mut tmp);
    out.push(if p.is_active { 1u8 } else { 0u8 });
    push_len_prefixed(&mut out, &p.owner.bytes);
    push_len_prefixed(&mut out, &p.description);
    let ghost head: Seq<u8> = out@ + spec_u32_to_le_bytes(p@.voted.len() as u32);
    let mut tmp = u32_to_le_bytes(p.voted.len() as u32);
    out.append(&mut tmp);
    let n = p.voted.len();
    let mut i: usize = 0;
    while i < n
        invariant
            0 <= i <= n,
            n == p@.voted.len(),
            encodable(p@),
            forall|j: int| 0 <= j < n ==> p.voted@[j]@ == p@.voted[j],
            out@ =~= head + spec_encode_voted(p@.voted.take(i as int)),
        decreases n - i,
    {
        proof {
            assert(p@.voted[i as int].len() <= u32::MAX);
            assert(p@.voted.take(i as int).push(p@.voted[i as int]) =~= p@.voted.take(i + 1));
            lemma_encode_voted_push(p@.voted.take(i as int), p@.voted[i as int]);
        }
        push_len_prefixed(&mut out, &p.voted[i].bytes);
        i += 1;
    }
    proof {
        assert(p@.voted.take(n as int) =~= p@.voted);
        assert(out@ =~= spec_encode(p@));
    }
    out
}

/// Reads 4 little-endian bytes at `i`, returning the value and the index
/// past them.
fn read_u32(bytes: &Vec<u8>, i: usize) -> (r: Option<(u32, usize)>)
    requires
        i <= bytes@.len(),
    ensures
        r is None <==> dec_u32(bytes@.skip(i as int)) is None,
        r matches Some((n, j)) ==> i <= j <= bytes@.len() && dec_u32(bytes@.skip(i as int))
            == Some((n, bytes@.skip(j as int))),
{
    if bytes.len() - i >= 4 {
        let sl = slice_subrange(bytes.as_slice(), i, i + 4);
        let n = u32_from_le_bytes(sl);
        proof {
            assert(bytes@.skip(i as int).take(4) =~= bytes@.subrange(i as int, i + 4));
            assert(bytes@.skip(i as int).skip(4) =~= bytes@.skip(i + 4));
        }
        Some((n, i + 4))
    } else {
        None
    }
}

/// Reads 8 little-endian bytes at `i`, returning the value and the index
/// past them.
fn read_u64(bytes: &Vec<u8>, i: usize) -> (r: Option<(u64, usize)>)
    requires
        i <= bytes@.len(),
    ensures
        r is None <==> dec_u64(bytes@.skip(i as int)) is None,
        r matches Some((n, j)) ==> i <= j <= bytes@.len() && dec_u64(bytes@.skip(i as int))
            == Some((n, bytes@.skip(j as int))),
{
    if bytes.len() - i >= 8 {
        let sl = slice_subrange(bytes.as_slice(), i, i + 8);
        let n = u64_from_le_bytes(sl);
        proof {
            assert(bytes@.skip(i as int).take(8) =~= bytes@.subrange(i as int, i + 8));
            assert(bytes@.skip(i as int).skip(8) =~= bytes@.skip(i + 8));
        }
        Some((n, i + 8))
    } else {
        None
    }
}

/// Reads a length-prefixed byte string at `i`, returning it and the index
/// past it.
fn read_bytes(bytes: &Vec<u8>, i: usize) -> (r: Option<(Vec<u8>, usize)>)
    requires
        i <= bytes@.len(),
    ensures
        r is None <==> dec_bytes(bytes@.skip(i as int)) is None,
        r matches Some((b, j)) ==> i <= j <= bytes@.len() && dec_bytes(bytes@.skip(i as int))
            == Some((b@, bytes@.skip(j as int))),
{
    match read_u32(bytes, i) {
        None => None,
        Some((n, j)) => {
            let n_us = n as usize;
            if bytes.len() - j >= n_us {
                let sl = slice_subrange(bytes.as_slice(), j, j + n_us);
                let b = slice_to_vec(sl);
                proof {
                    assert(bytes@.skip(j as int).take(n as int) =~= bytes@.subrange(
                        j as int,
                        j + n_us,
                    ));
                    assert(bytes@.skip(j as int).skip(n as int) =~= bytes@.skip(j + n_us));
                }
                Some((b, j + n_us))
            } else {
                None
            }
        },
    }
}

/// Reads `count` length-prefixed voter entries at `i`.
fn read_voted(bytes: &Vec<u8>, i: usize, count: u32) -> (r: Option<(Vec<CallerId>, usize)>)
    requires
        i <= bytes@.len(),
    ensures
        r is None <==> dec_voted(bytes@.skip(i as int), count as nat) is None,
        r matches Some((vs, j)) ==> i <= j <= bytes@.len() && dec_voted(
            bytes@.skip(i as int),
            count as nat,
        ) == Some((vs@.map_values(|c: CallerId| c@), bytes@.skip(j as int))),
    decreases count,
{
    if count == 0 {
        let vs: Vec<CallerId> = Vec::new();
        proof {
            assert(vs@.map_values(|c: CallerId| c@) =~= Seq::<Seq<u8>>::empty());
        }
        Some((vs, i))
    } else {
        match read_bytes(bytes, i) {
            None => None,
            Some((b, j)) => {
                match read_voted(bytes, j, count - 1) {
                    None => None,
                    Some((mut vs, k)) => {
                        let ghost tail_view = vs@.map_values(|c: CallerId| c@);
                        let c = CallerId::new(b);
                        let ghost cv = c@;
                        vs.insert(0, c);
                        proof {
                            assert(vs@.map_values(|c: CallerId| c@) =~= seq![cv] + tail_view);
                        }
                        Some((vs, k))
                    },
                }
            },
        }
    }
}

/// Parses a serialized record; `None` exactly where `spec_decode` is `None`.
pub fn decode_product(bytes: &Vec<u8>) -> (r: Option<Product>)
    ensures
        r is None <==> spec_decode(bytes@) is None,
        r matches Some(p) ==> spec_decode(bytes@) == Some(p@),
{
    proof {
        assert(bytes@.skip(0) =~= bytes@);
    }
    let step = read_u64(bytes, 0);
    if step.is_none() {
        return None;
    }
    let (id, i1) = step.unwrap();
    let step = read_u32(bytes, i1);
    if step.is_none() {
        return None;
    }
    let (approve, i2) = step.unwrap();
    let step = read_u32(bytes, i2);
    if step.is_none() {
        return None;
    }
    let (reject, i3) = step.unwrap();
    let step = read_u32(bytes, i3);
    if step.is_none() {
        return None;
    }
    let (pass, i4) = step.unwrap();
    if bytes.len() - i4 < 1 {
        return None;
    }
    let act = bytes[i4];
    let i5 = i4 + 1;
    proof {
        assert(dec_u8(bytes@.skip(i4 as int)) == Some((act, bytes@.skip(i5 as int)))) by {
            assert(bytes@.skip(i4 as int)[0] == act);
            assert(bytes@.skip(i4 as int).skip(1) =~= bytes@.skip(i5 as int));
        }
    }
    if act != 0 && act != 1 {
        return None;
    }
    let step = read_bytes(bytes, i5);
    if step.is_none() {
        return None;
    }
    let (owner, i6) = step.unwrap();
    let step = read_bytes(bytes, i6);
    if step.is_none() {
        return None;
    }
    let (description, i7) = step.unwrap();
    let step = read_u32(bytes, i7);
    if step.is_none() {
        return None;
    }
    let (count, i8) = step.unwrap();
    let step = read_voted(bytes, i8, count);
    if step.is_none() {
        return None;
    }
    let (voted, i9) = step.unwrap();
    if i9 != bytes.len() {
        proof {
            assert(bytes@.skip(i9 as int).len() != 0);
        }
        return None;
    }
    proof {
        assert(bytes@.skip(i9 as int).len() == 0);
    }
    Some(
        Product {
            id,
            description,
            approve,
            reject,
            pass,
            is_active: act == 1,
            voted,
            owner: CallerId { bytes: owner },
        },
    )
}

} // verus!
