//! Little-endian wire primitives shared by the instruction codec.
//!
//! Every field of an instruction payload is laid down by one of the `enc_*`
//! spec functions; the `read_*` functions parse one field at a cursor
//! position and the `write_*` functions append one field to a buffer.
//! Each reader's contract gives both directions: whatever it returns is the
//! exact encoding of the bytes it consumed, and whenever the bytes at the
//! cursor start with the encoding of some value, the reader returns exactly
//! that value.

use vstd::prelude::*;
use vstd::bytes::*;
use vstd::slice::slice_subrange;

verus! {

pub open spec fn enc_u8(v: u8) -> Seq<u8> {
    seq![v]
}

pub open spec fn enc_u16(v: u16) -> Seq<u8> {
    spec_u16_to_le_bytes(v)
}

pub open spec fn enc_u32(v: u32) -> Seq<u8> {
    spec_u32_to_le_bytes(v)
}

pub open spec fn enc_u64(v: u64) -> Seq<u8> {
    spec_u64_to_le_bytes(v)
}

pub open spec fn enc_i32(v: i32) -> Seq<u8> {
    spec_u32_to_le_bytes(v as u32)
}

pub open spec fn enc_i64(v: i64) -> Seq<u8> {
    spec_u64_to_le_bytes(v as u64)
}

pub open spec fn enc_bool(v: bool) -> Seq<u8> {
    seq![if v { 1u8 } else { 0u8 }]
}

/// The bytes of `data` starting at `pos` begin with `p`.
pub open spec fn is_prefix_at(data: Seq<u8>, pos: int, p: Seq<u8>) -> bool {
    &&& 0 <= pos
    &&& pos + p.len() <= data.len()
    &&& data.subrange(pos, pos + p.len()) == p
}

/// A prefix made of two parts splits into a prefix of each part.
pub proof fn lemma_split_prefix(d: Seq<u8>, pos: int, a: Seq<u8>, b: Seq<u8>)
    requires
        is_prefix_at(d, pos, a + b),
    ensures
        is_prefix_at(d, pos, a),
        is_prefix_at(d, pos + a.len(), b),
{
    let ab = a + b;
    assert forall|i: int| 0 <= i < a.len() implies d.subrange(pos, pos + a.len() as int)[i]
        == a[i] by {
        assert(d.subrange(pos, pos + ab.len() as int)[i] == ab[i]);
    }
    assert(d.subrange(pos, pos + a.len() as int) =~= a);
    assert forall|j: int| 0 <= j < b.len() implies d.subrange(
        pos + a.len(),
        pos + a.len() + b.len() as int,
    )[j] == b[j] by {
        assert(d.subrange(pos, pos + ab.len() as int)[a.len() + j] == ab[a.len() + j]);
    }
    assert(d.subrange(pos + a.len(), pos + a.len() + b.len() as int) =~= b);
}

/// A subrange splits at any interior point into the two adjacent subranges.
pub proof fn lemma_join_at(d: Seq<u8>, a: int, b: int, c: int)
    requires
        0 <= a <= b <= c <= d.len(),
    ensures
        d.subrange(a, c) == d.subrange(a, b) + d.subrange(b, c),
{
    assert(d.subrange(a, c) =~= d.subrange(a, b) + d.subrange(b, c));
}

/// Concatenation of byte sequences is associative.
pub proof fn lemma_add_assoc(a: Seq<u8>, b: Seq<u8>, c: Seq<u8>)
    ensures
        (a + b) + c == a + (b + c),
{
    assert((a + b) + c =~= a + (b + c));
}

/// A sequence is a prefix of itself at position zero.
pub proof fn lemma_prefix_whole(d: Seq<u8>)
    ensures
        is_prefix_at(d, 0, d),
{
    assert(d.subrange(0, d.len() as int) =~= d);
}

/// The length of every fixed-width field encoding.
pub proof fn lemma_enc_lens()
    ensures
        forall|v: u8| (#[trigger] enc_u8(v)).len() == 1,
        forall|v: u16| (#[trigger] enc_u16(v)).len() == 2,
        forall|v: u32| (#[trigger] enc_u32(v)).len() == 4,
        forall|v: u64| (#[trigger] enc_u64(v)).len() == 8,
        forall|v: i32| (#[trigger] enc_i32(v)).len() == 4,
        forall|v: i64| (#[trigger] enc_i64(v)).len() == 8,
        forall|v: bool| (#[trigger] enc_bool(v)).len() == 1,
{
    lemma_auto_spec_u16_to_from_le_bytes();
    lemma_auto_spec_u32_to_from_le_bytes();
    lemma_auto_spec_u64_to_from_le_bytes();
}

pub fn read_u8(data: &[u8], pos: usize) -> (r: Option<(u8, usize)>)
    ensures
        r matches Some(p) ==> pos + 1 <= data@.len() && p.1 == pos + 1
            && data@.subrange(pos as int, p.1 as int) == enc_u8(p.0),
        r is None ==> pos + 1 > data@.len(),
        forall|v: u8| is_prefix_at(data@, pos as int, enc_u8(v))
            ==> r == Some((v, (pos + 1) as usize)),
{
    if pos < data.len() {
        let b = data[pos];
        proof {
            assert(data@.subrange(pos as int, pos as int + 1) =~= enc_u8(b));
            assert forall|v: u8| is_prefix_at(data@, pos as int, enc_u8(v)) implies v == b by {
                assert(data@.subrange(pos as int, pos as int + 1)[0] == v);
            }
        }
        Some((b, pos + 1))
    } else {
        None
    }
}

pub fn read_u16(data: &[u8], pos: usize) -> (r: Option<(u16, usize)>)
    ensures
        r matches Some(p) ==> pos + 2 <= data@.len() && p.1 == pos + 2
            && data@.subrange(pos as int, p.1 as int) == enc_u16(p.0),
        r is None ==> pos + 2 > data@.len(),
        forall|v: u16| is_prefix_at(data@, pos as int, enc_u16(v))
            ==> r == Some((v, (pos + 2) as usize)),
{
    proof {
        lemma_auto_spec_u16_to_from_le_bytes();
    }
    if pos < data.len() && data.len() - pos >= 2 {
        let s = slice_subrange(data, pos, pos + 2);
        let x = u16_from_le_bytes(s);
        proof {
            assert(enc_u16(x) == s@);
            assert forall|v: u16| is_prefix_at(data@, pos as int, enc_u16(v)) implies x == v by {
                assert(s@ == enc_u16(v));
            }
        }
        Some((x, pos + 2))
    } else {
        None
    }
}

pub fn read_u32(data: &[u8], pos: usize) -> (r: Option<(u32, usize)>)
    ensures
        r matches Some(p) ==> pos + 4 <= data@.len() && p.1 == pos + 4
            && data@.subrange(pos as int, p.1 as int) == enc_u32(p.0),
        r is None ==> pos + 4 > data@.len(),
        forall|v: u32| is_prefix_at(data@, pos as int, enc_u32(v))
            ==> r == Some((v, (pos + 4) as usize)),
{
    proof {
        lemma_auto_spec_u32_to_from_le_bytes();
    }
    if pos < data.len() && data.len() - pos >= 4 {
        let s = slice_subrange(data, pos, pos + 4);
        let x = u32_from_le_bytes(s);
        proof {
            assert(enc_u32(x) == s@);
            assert forall|v: u32| is_prefix_at(data@, pos as int, enc_u32(v)) implies x == v by {
                assert(s@ == enc_u32(v));
            }
        }
        Some((x, pos + 4))
    } else {
        None
    }
}

pub fn read_u64(data: &[u8], pos: usize) -> (r: Option<(u64, usize)>)
    ensures
        r matches Some(p) ==> pos + 8 <= data@.len() && p.1 == pos + 8
            && data@.subrange(pos as int, p.1 as int) == enc_u64(p.0),
        r is None ==> pos + 8 > data@.len(),
        forall|v: u64| is_prefix_at(data@, pos as int, enc_u64(v))
            ==> r == Some((v, (pos + 8) as usize)),
{
    proof {
        lemma_auto_spec_u64_to_from_le_bytes();
    }
    if pos < data.len() && data.len() - pos >= 8 {
        let s = slice_subrange(data, pos, pos + 8);
        let x = u64_from_le_bytes(s);
        proof {
            assert(enc_u64(x) == s@);
            assert forall|v: u64| is_prefix_at(data@, pos as int, enc_u64(v)) implies x == v by {
                assert(s@ == enc_u64(v));
            }
        }
        Some((x, pos + 8))
    } else {
        None
    }
}

proof fn lemma_i32_u32_casts(x: u32, v: i32)
    ensures
        (x as i32) as u32 == x,
        (v as u32) as i32 == v,
{
    assert((x as i32) as u32 == x) by (bit_vector);
    assert((v as u32) as i32 == v) by (bit_vector);
}

proof fn lemma_i64_u64_casts(x: u64, v: i64)
    ensures
        (x as i64) as u64 == x,
        (v as u64) as i64 == v,
{
    assert((x as i64) as u64 == x) by (bit_vector);
    assert((v as u64) as i64 == v) by (bit_vector);
}

pub fn read_i32(data: &[u8], pos: usize) -> (r: Option<(i32, usize)>)
    ensures
        r matches Some(p) ==> pos + 4 <= data@.len() && p.1 == pos + 4
            && data@.subrange(pos as int, p.1 as int) == enc_i32(p.0),
        r is None ==> pos + 4 > data@.len(),
        forall|v: i32| is_prefix_at(data@, pos as int, enc_i32(v))
            ==> r == Some((v, (pos + 4) as usize)),
{
    match read_u32(data, pos) {
        Some((x, end)) => {
            let v = #[verifier::truncate] (x as i32);
            proof {
                lemma_i32_u32_casts(x, v);
                assert forall|w: i32| is_prefix_at(data@, pos as int, enc_i32(w)) implies v == w by {
                    assert(is_prefix_at(data@, pos as int, enc_u32(w as u32)));
                    lemma_i32_u32_casts(x, w);
                }
            }
            Some((v, end))
        }
        None => {
            proof {
                assert forall|w: i32| !is_prefix_at(data@, pos as int, enc_i32(w)) by {
                    if is_prefix_at(data@, pos as int, enc_i32(w)) {
                        assert(is_prefix_at(data@, pos as int, enc_u32(w as u32)));
                    }
                }
            }
            None
        }
    }
}

pub fn read_i64(data: &[u8], pos: usize) -> (r: Option<(i64, usize)>)
    ensures
        r matches Some(p) ==> pos + 8 <= data@.len() && p.1 == pos + 8
            && data@.subrange(pos as int, p.1 as int) == enc_i64(p.0),
        r is None ==> pos + 8 > data@.len(),
        forall|v: i64| is_prefix_at(data@, pos as int, enc_i64(v))
            ==> r == Some((v, (pos + 8) as usize)),
{
    match read_u64(data, pos) {
        Some((x, end)) => {
            let v = #[verifier::truncate] (x as i64);
            proof {
                lemma_i64_u64_casts(x, v);
                assert forall|w: i64| is_prefix_at(data@, pos as int, enc_i64(w)) implies v == w by {
                    assert(is_prefix_at(data@, pos as int, enc_u64(w as u64)));
                    lemma_i64_u64_casts(x, w);
                }
            }
            Some((v, end))
        }
        None => {
            proof {
                assert forall|w: i64| !is_prefix_at(data@, pos as int, enc_i64(w)) by {
                    if is_prefix_at(data@, pos as int, enc_i64(w)) {
                        assert(is_prefix_at(data@, pos as int, enc_u64(w as u64)));
                    }
                }
            }
            None
        }
    }
}

pub fn read_bool(data: &[u8], pos: usize) -> (r: Option<(bool, usize)>)
    ensures
        r matches Some(p) ==> pos + 1 <= data@.len() && p.1 == pos + 1
            && data@.subrange(pos as int, p.1 as int) == enc_bool(p.0),
        forall|v: bool| is_prefix_at(data@, pos as int, enc_bool(v))
            ==> r == Some((v, (pos + 1) as usize)),
{
    if pos < data.len() {
        let b = data[pos];
        if b == 0 || b == 1 {
            let v = b == 1;
            proof {
                assert(data@.subrange(pos as int, pos as int + 1) =~= enc_bool(v));
                assert forall|w: bool| is_prefix_at(data@, pos as int, enc_bool(w)) implies w == v by {
                    assert(data@.subrange(pos as int, pos as int + 1)[0] == enc_bool(w)[0]);
                }
            }
            Some((v, pos + 1))
        } else {
            proof {
                assert forall|w: bool| !is_prefix_at(data@, pos as int, enc_bool(w)) by {
                    if is_prefix_at(data@, pos as int, enc_bool(w)) {
                        assert(data@.subrange(pos as int, pos as int + 1)[0] == enc_bool(w)[0]);
                    }
                }
            }
            None
        }
    } else {
        None
    }
}

pub fn write_u8(out: &mut Vec<u8>, v: u8)
    ensures
        final(out)@ == old(out)@ + enc_u8(v),
{
    out.push(v);
    proof {
        assert(out@ =~= old(out)@ + enc_u8(v));
    }
}

pub fn write_u16(out: &mut Vec<u8>, v: u16)
    ensures
        final(out)@ == old(out)@ + enc_u16(v),
{
    proof {
        lemma_auto_spec_u16_to_from_le_bytes();
    }
    let mut bytes = u16_to_le_bytes(v);
    out.append(&mut bytes);
}

pub fn write_u32(out: &mut Vec<u8>, v: u32)
    ensures
        final(out)@ == old(out)@ + enc_u32(v),
{
    proof {
        lemma_auto_spec_u32_to_from_le_bytes();
    }
    let mut bytes = u32_to_le_bytes(v);
    out.append(&mut bytes);
}

pub fn write_u64(out: &mut Vec<u8>, v: u64)
    ensures
        final(out)@ == old(out)@ + enc_u64(v),
{
    proof {
        lemma_auto_spec_u64_to_from_le_bytes();
    }
    let mut bytes = u64_to_le_bytes(v);
    out.append(&mut bytes);
}

pub fn write_i32(out: &mut Vec<u8>, v: i32)
    ensures
        final(out)@ == old(out)@ + enc_i32(v),
{
    let w = #[verifier::truncate] (v as u32);
    write_u32(out, w);
}

pub fn write_i64(out: &mut Vec<u8>, v: i64)
    ensures
        final(out)@ == old(out)@ + enc_i64(v),
{
    let w = #[verifier::truncate] (v as u64);
    write_u64(out, w);
}

pub fn write_bool(out: &mut Vec<u8>, v: bool)
    ensures
        final(out)@ == old(out)@ + enc_bool(v),
{
    out.push(if v { 1 } else { 0 });
    proof {
        assert(out@ =~= old(out)@ + enc_bool(v));
    }
}

} // verus!
