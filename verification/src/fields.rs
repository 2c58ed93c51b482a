//! Codecs for the composite wire shapes that payload fields use:
//! optional fields behind a one-byte presence flag, length-prefixed
//! lists, and fixed-size arrays.

use vstd::prelude::*;
use crate::wire::{
    enc_bool, enc_i32, enc_i64, enc_u16, enc_u32, enc_u64, enc_u8, is_prefix_at,
    lemma_add_assoc, lemma_enc_lens, lemma_join_at, lemma_split_prefix, read_bool, read_i32, read_i64,
    read_u16, read_u32, read_u64, read_u8, write_bool, write_i32, write_i64, write_u16,
    write_u32, write_u64, write_u8,
};

verus! {

pub open spec fn enc_opt_u8(o: Option<u8>) -> Seq<u8> {
    match o {
        Option::None => seq![0u8],
        Option::Some(v) => seq![1u8] + enc_u8(v),
    }
}

pub fn read_opt_u8(data: &[u8], pos: usize) -> (r: Option<(Option<u8>, usize)>)
    ensures
        r matches Some(p) ==> pos <= p.1 <= data@.len()
            && data@.subrange(pos as int, p.1 as int) == enc_opt_u8(p.0)
            && p.1 == pos + enc_opt_u8(p.0).len(),
        forall|v: Option<u8>| is_prefix_at(data@, pos as int, enc_opt_u8(v))
            ==> (r matches Some(p) && p.0 == v && p.1 == pos + enc_opt_u8(v).len()),
{
    if pos < data.len() {
        let tag = data[pos];
        if tag == 0 {
            proof {
                assert(data@.subrange(pos as int, pos as int + 1) =~= enc_opt_u8(Option::None));
                assert forall|v: Option<u8>| is_prefix_at(data@, pos as int, enc_opt_u8(v))
                    implies v is None by {
                    if v matches Some(w) {
                        assert(data@.subrange(
                            pos as int,
                            pos as int + enc_opt_u8(v).len() as int,
                        )[0] == enc_opt_u8(v)[0]);
                    }
                }
            }
            Some((None, pos + 1))
        } else if tag == 1 {
            match read_u8(data, pos + 1) {
                Some((x, end)) => {
                    proof {
                        lemma_join_at(data@, pos as int, pos as int + 1, end as int);
                        assert(data@.subrange(pos as int, pos as int + 1) =~= seq![1u8]);
                        assert forall|v: Option<u8>| is_prefix_at(data@, pos as int, enc_opt_u8(v))
                            implies v == Some(x) by {
                            match v {
                                Option::None => {
                                    assert(data@.subrange(pos as int, pos as int + 1)[0]
                                        == enc_opt_u8(v)[0]);
                                }
                                Option::Some(w) => {
                                    lemma_split_prefix(data@, pos as int, seq![1u8], enc_u8(w));
                                    assert(is_prefix_at(data@, pos as int + 1, enc_u8(w)));
                                }
                            }
                        }
                    }
                    Some((Some(x), end))
                }
                None => {
                    proof {
                        assert forall|v: Option<u8>| !is_prefix_at(
                            data@,
                            pos as int,
                            enc_opt_u8(v),
                        ) by {
                            if is_prefix_at(data@, pos as int, enc_opt_u8(v)) {
                                match v {
                                    Option::None => {
                                        assert(data@.subrange(pos as int, pos as int + 1)[0]
                                            == enc_opt_u8(v)[0]);
                                    }
                                    Option::Some(w) => {
                                        lemma_split_prefix(data@, pos as int, seq![1u8], enc_u8(w));
                                        assert(is_prefix_at(data@, pos as int + 1, enc_u8(w)));
                                    }
                                }
                            }
                        }
                    }
                    None
                }
            }
        } else {
            proof {
                assert forall|v: Option<u8>| !is_prefix_at(data@, pos as int, enc_opt_u8(v)) by {
                    if is_prefix_at(data@, pos as int, enc_opt_u8(v)) {
                        assert(data@.subrange(
                            pos as int,
                            pos as int + enc_opt_u8(v).len() as int,
                        )[0] == enc_opt_u8(v)[0]);
                    }
                }
            }
            None
        }
    } else {
        proof {
            assert forall|v: Option<u8>| !is_prefix_at(data@, pos as int, enc_opt_u8(v)) by {
                if is_prefix_at(data@, pos as int, enc_opt_u8(v)) {
                    match v {
                        Option::None => {}
                        Option::Some(w) => {}
                    }
                }
            }
        }
        None
    }
}

pub fn write_opt_u8(out: &mut Vec<u8>, v: Option<u8>)
    ensures
        final(out)@ == old(out)@ + enc_opt_u8(v),
{
    match v {
        Option::None => {
            out.push(0);
        }
        Option::Some(x) => {
            out.push(1);
            write_u8(out, x);
        }
    }
    proof {
        assert(out@ =~= old(out)@ + enc_opt_u8(v));
    }
}

pub open spec fn enc_opt_u16(o: Option<u16>) -> Seq<u8> {
    match o {
        Option::None => seq![0u8],
        Option::Some(v) => seq![1u8] + enc_u16(v),
    }
}

pub fn read_opt_u16(data: &[u8], pos: usize) -> (r: Option<(Option<u16>, usize)>)
    ensures
        r matches Some(p) ==> pos <= p.1 <= data@.len()
            && data@.subrange(pos as int, p.1 as int) == enc_opt_u16(p.0)
            && p.1 == pos + enc_opt_u16(p.0).len(),
        forall|v: Option<u16>| is_prefix_at(data@, pos as int, enc_opt_u16(v))
            ==> (r matches Some(p) && p.0 == v && p.1 == pos + enc_opt_u16(v).len()),
{
    if pos < data.len() {
        let tag = data[pos];
        if tag == 0 {
            proof {
                assert(data@.subrange(pos as int, pos as int + 1) =~= enc_opt_u16(Option::None));
                assert forall|v: Option<u16>| is_prefix_at(data@, pos as int, enc_opt_u16(v))
                    implies v is None by {
                    if v matches Some(w) {
                        assert(data@.subrange(
                            pos as int,
                            pos as int + enc_opt_u16(v).len() as int,
                        )[0] == enc_opt_u16(v)[0]);
                    }
                }
            }
            Some((None, pos + 1))
        } else if tag == 1 {
            match read_u16(data, pos + 1) {
                Some((x, end)) => {
                    proof {
                        lemma_join_at(data@, pos as int, pos as int + 1, end as int);
                        assert(data@.subrange(pos as int, pos as int + 1) =~= seq![1u8]);
                        assert forall|v: Option<u16>| is_prefix_at(data@, pos as int, enc_opt_u16(v))
                            implies v == Some(x) by {
                            match v {
                                Option::None => {
                                    assert(data@.subrange(pos as int, pos as int + 1)[0]
                                        == enc_opt_u16(v)[0]);
                                }
                                Option::Some(w) => {
                                    lemma_split_prefix(data@, pos as int, seq![1u8], enc_u16(w));
                                    assert(is_prefix_at(data@, pos as int + 1, enc_u16(w)));
                                }
                            }
                        }
                    }
                    Some((Some(x), end))
                }
                None => {
                    proof {
                        assert forall|v: Option<u16>| !is_prefix_at(
                            data@,
                            pos as int,
                            enc_opt_u16(v),
                        ) by {
                            if is_prefix_at(data@, pos as int, enc_opt_u16(v)) {
                                match v {
                                    Option::None => {
                                        assert(data@.subrange(pos as int, pos as int + 1)[0]
                                            == enc_opt_u16(v)[0]);
                                    }
                                    Option::Some(w) => {
                                        lemma_split_prefix(data@, pos as int, seq![1u8], enc_u16(w));
                                        assert(is_prefix_at(data@, pos as int + 1, enc_u16(w)));
                                    }
                                }
                            }
                        }
                    }
                    None
                }
            }
        } else {
            proof {
                assert forall|v: Option<u16>| !is_prefix_at(data@, pos as int, enc_opt_u16(v)) by {
                    if is_prefix_at(data@, pos as int, enc_opt_u16(v)) {
                        assert(data@.subrange(
                            pos as int,
                            pos as int + enc_opt_u16(v).len() as int,
                        )[0] == enc_opt_u16(v)[0]);
                    }
                }
            }
            None
        }
    } else {
        proof {
            assert forall|v: Option<u16>| !is_prefix_at(data@, pos as int, enc_opt_u16(v)) by {
                if is_prefix_at(data@, pos as int, enc_opt_u16(v)) {
                    match v {
                        Option::None => {}
                        Option::Some(w) => {}
                    }
                }
            }
        }
        None
    }
}

pub fn write_opt_u16(out: &mut Vec<u8>, v: Option<u16>)
    ensures
        final(out)@ == old(out)@ + enc_opt_u16(v),
{
    match v {
        Option::None => {
            out.push(0);
        }
        Option::Some(x) => {
            out.push(1);
            write_u16(out, x);
        }
    }
    proof {
        assert(out@ =~= old(out)@ + enc_opt_u16(v));
    }
}

pub open spec fn enc_opt_u32(o: Option<u32>) -> Seq<u8> {
    match o {
        Option::None => seq![0u8],
        Option::Some(v) => seq![1u8] + enc_u32(v),
    }
}

pub fn read_opt_u32(data: &[u8], pos: usize) -> (r: Option<(Option<u32>, usize)>)
    ensures
        r matches Some(p) ==> pos <= p.1 <= data@.len()
            && data@.subrange(pos as int, p.1 as int) == enc_opt_u32(p.0)
            && p.1 == pos + enc_opt_u32(p.0).len(),
        forall|v: Option<u32>| is_prefix_at(data@, pos as int, enc_opt_u32(v))
            ==> (r matches Some(p) && p.0 == v && p.1 == pos + enc_opt_u32(v).len()),
{
    if pos < data.len() {
        let tag = data[pos];
        if tag == 0 {
            proof {
                assert(data@.subrange(pos as int, pos as int + 1) =~= enc_opt_u32(Option::None));
                assert forall|v: Option<u32>| is_prefix_at(data@, pos as int, enc_opt_u32(v))
                    implies v is None by {
                    if v matches Some(w) {
                        assert(data@.subrange(
                            pos as int,
                            pos as int + enc_opt_u32(v).len() as int,
                        )[0] == enc_opt_u32(v)[0]);
                    }
                }
            }
            Some((None, pos + 1))
        } else if tag == 1 {
            match read_u32(data, pos + 1) {
                Some((x, end)) => {
                    proof {
                        lemma_join_at(data@, pos as int, pos as int + 1, end as int);
                        assert(data@.subrange(pos as int, pos as int + 1) =~= seq![1u8]);
                        assert forall|v: Option<u32>| is_prefix_at(data@, pos as int, enc_opt_u32(v))
                            implies v == Some(x) by {
                            match v {
                                Option::None => {
                                    assert(data@.subrange(pos as int, pos as int + 1)[0]
                                        == enc_opt_u32(v)[0]);
                                }
                                Option::Some(w) => {
                                    lemma_split_prefix(data@, pos as int, seq![1u8], enc_u32(w));
                                    assert(is_prefix_at(data@, pos as int + 1, enc_u32(w)));
                                }
                            }
                        }
                    }
                    Some((Some(x), end))
                }
                None => {
                    proof {
                        assert forall|v: Option<u32>| !is_prefix_at(
                            data@,
                            pos as int,
                            enc_opt_u32(v),
                        ) by {
                            if is_prefix_at(data@, pos as int, enc_opt_u32(v)) {
                                match v {
                                    Option::None => {
                                        assert(data@.subrange(pos as int, pos as int + 1)[0]
                                            == enc_opt_u32(v)[0]);
                                    }
                                    Option::Some(w) => {
                                        lemma_split_prefix(data@, pos as int, seq![1u8], enc_u32(w));
                                        assert(is_prefix_at(data@, pos as int + 1, enc_u32(w)));
                                    }
                                }
                            }
                        }
                    }
                    None
                }
            }
        } else {
            proof {
                assert forall|v: Option<u32>| !is_prefix_at(data@, pos as int, enc_opt_u32(v)) by {
                    if is_prefix_at(data@, pos as int, enc_opt_u32(v)) {
                        assert(data@.subrange(
                            pos as int,
                            pos as int + enc_opt_u32(v).len() as int,
                        )[0] == enc_opt_u32(v)[0]);
                    }
                }
            }
            None
        }
    } else {
        proof {
            assert forall|v: Option<u32>| !is_prefix_at(data@, pos as int, enc_opt_u32(v)) by {
                if is_prefix_at(data@, pos as int, enc_opt_u32(v)) {
                    match v {
                        Option::None => {}
                        Option::Some(w) => {}
                    }
                }
            }
        }
        None
    }
}

pub fn write_opt_u32(out: &mut Vec<u8>, v: Option<u32>)
    ensures
        final(out)@ == old(out)@ + enc_opt_u32(v),
{
    match v {
        Option::None => {
            out.push(0);
        }
        Option::Some(x) => {
            out.push(1);
            write_u32(out, x);
        }
    }
    proof {
        assert(out@ =~= old(out)@ + enc_opt_u32(v));
    }
}

pub open spec fn enc_opt_u64(o: Option<u64>) -> Seq<u8> {
    match o {
        Option::None => seq![0u8],
        Option::Some(v) => seq![1u8] + enc_u64(v),
    }
}

pub fn read_opt_u64(data: &[u8], pos: usize) -> (r: Option<(Option<u64>, usize)>)
    ensures
        r matches Some(p) ==> pos <= p.1 <= data@.len()
            && data@.subrange(pos as int, p.1 as int) == enc_opt_u64(p.0)
            && p.1 == pos + enc_opt_u64(p.0).len(),
        forall|v: Option<u64>| is_prefix_at(data@, pos as int, enc_opt_u64(v))
            ==> (r matches Some(p) && p.0 == v && p.1 == pos + enc_opt_u64(v).len()),
{
    if pos < data.len() {
        let tag = data[pos];
        if tag == 0 {
            proof {
                assert(data@.subrange(pos as int, pos as int + 1) =~= enc_opt_u64(Option::None));
                assert forall|v: Option<u64>| is_prefix_at(data@, pos as int, enc_opt_u64(v))
                    implies v is None by {
                    if v matches Some(w) {
                        assert(data@.subrange(
                            pos as int,
                            pos as int + enc_opt_u64(v).len() as int,
                        )[0] == enc_opt_u64(v)[0]);
                    }
                }
            }
            Some((None, pos + 1))
        } else if tag == 1 {
            match read_u64(data, pos + 1) {
                Some((x, end)) => {
                    proof {
                        lemma_join_at(data@, pos as int, pos as int + 1, end as int);
                        assert(data@.subrange(pos as int, pos as int + 1) =~= seq![1u8]);
                        assert forall|v: Option<u64>| is_prefix_at(data@, pos as int, enc_opt_u64(v))
                            implies v == Some(x) by {
                            match v {
                                Option::None => {
                                    assert(data@.subrange(pos as int, pos as int + 1)[0]
                                        == enc_opt_u64(v)[0]);
                                }
                                Option::Some(w) => {
                                    lemma_split_prefix(data@, pos as int, seq![1u8], enc_u64(w));
                                    assert(is_prefix_at(data@, pos as int + 1, enc_u64(w)));
                                }
                            }
                        }
                    }
                    Some((Some(x), end))
                }
                None => {
                    proof {
                        assert forall|v: Option<u64>| !is_prefix_at(
                            data@,
                            pos as int,
                            enc_opt_u64(v),
                        ) by {
                            if is_prefix_at(data@, pos as int, enc_opt_u64(v)) {
                                match v {
                                    Option::None => {
                                        assert(data@.subrange(pos as int, pos as int + 1)[0]
                                            == enc_opt_u64(v)[0]);
                                    }
                                    Option::Some(w) => {
                                        lemma_split_prefix(data@, pos as int, seq![1u8], enc_u64(w));
                                        assert(is_prefix_at(data@, pos as int + 1, enc_u64(w)));
                                    }
                                }
                            }
                        }
                    }
                    None
                }
            }
        } else {
            proof {
                assert forall|v: Option<u64>| !is_prefix_at(data@, pos as int, enc_opt_u64(v)) by {
                    if is_prefix_at(data@, pos as int, enc_opt_u64(v)) {
                        assert(data@.subrange(
                            pos as int,
                            pos as int + enc_opt_u64(v).len() as int,
                        )[0] == enc_opt_u64(v)[0]);
                    }
                }
            }
            None
        }
    } else {
        proof {
            assert forall|v: Option<u64>| !is_prefix_at(data@, pos as int, enc_opt_u64(v)) by {
                if is_prefix_at(data@, pos as int, enc_opt_u64(v)) {
                    match v {
                        Option::None => {}
                        Option::Some(w) => {}
                    }
                }
            }
        }
        None
    }
}

pub fn write_opt_u64(out: &mut Vec<u8>, v: Option<u64>)
    ensures
        final(out)@ == old(out)@ + enc_opt_u64(v),
{
    match v {
        Option::None => {
            out.push(0);
        }
        Option::Some(x) => {
            out.push(1);
            write_u64(out, x);
        }
    }
    proof {
        assert(out@ =~= old(out)@ + enc_opt_u64(v));
    }
}

pub open spec fn enc_opt_i32(o: Option<i32>) -> Seq<u8> {
    match o {
        Option::None => seq![0u8],
        Option::Some(v) => seq![1u8] + enc_i32(v),
    }
}

pub fn read_opt_i32(data: &[u8], pos: usize) -> (r: Option<(Option<i32>, usize)>)
    ensures
        r matches Some(p) ==> pos <= p.1 <= data@.len()
            && data@.subrange(pos as int, p.1 as int) == enc_opt_i32(p.0)
            && p.1 == pos + enc_opt_i32(p.0).len(),
        forall|v: Option<i32>| is_prefix_at(data@, pos as int, enc_opt_i32(v))
            ==> (r matches Some(p) && p.0 == v && p.1 == pos + enc_opt_i32(v).len()),
{
    if pos < data.len() {
        let tag = data[pos];
        if tag == 0 {
            proof {
                assert(data@.subrange(pos as int, pos as int + 1) =~= enc_opt_i32(Option::None));
                assert forall|v: Option<i32>| is_prefix_at(data@, pos as int, enc_opt_i32(v))
                    implies v is None by {
                    if v matches Some(w) {
                        assert(data@.subrange(
                            pos as int,
                            pos as int + enc_opt_i32(v).len() as int,
                        )[0] == enc_opt_i32(v)[0]);
                    }
                }
            }
            Some((None, pos + 1))
        } else if tag == 1 {
            match read_i32(data, pos + 1) {
                Some((x, end)) => {
                    proof {
                        lemma_join_at(data@, pos as int, pos as int + 1, end as int);
                        assert(data@.subrange(pos as int, pos as int + 1) =~= seq![1u8]);
                        assert forall|v: Option<i32>| is_prefix_at(data@, pos as int, enc_opt_i32(v))
                            implies v == Some(x) by {
                            match v {
                                Option::None => {
                                    assert(data@.subrange(pos as int, pos as int + 1)[0]
                                        == enc_opt_i32(v)[0]);
                                }
                                Option::Some(w) => {
                                    lemma_split_prefix(data@, pos as int, seq![1u8], enc_i32(w));
                                    assert(is_prefix_at(data@, pos as int + 1, enc_i32(w)));
                                }
                            }
                        }
                    }
                    Some((Some(x), end))
                }
                None => {
                    proof {
                        assert forall|v: Option<i32>| !is_prefix_at(
                            data@,
                            pos as int,
                            enc_opt_i32(v),
                        ) by {
                            if is_prefix_at(data@, pos as int, enc_opt_i32(v)) {
                                match v {
                                    Option::None => {
                                        assert(data@.subrange(pos as int, pos as int + 1)[0]
                                            == enc_opt_i32(v)[0]);
                                    }
                                    Option::Some(w) => {
                                        lemma_split_prefix(data@, pos as int, seq![1u8], enc_i32(w));
                                        assert(is_prefix_at(data@, pos as int + 1, enc_i32(w)));
                                    }
                                }
                            }
                        }
                    }
                    None
                }
            }
        } else {
            proof {
                assert forall|v: Option<i32>| !is_prefix_at(data@, pos as int, enc_opt_i32(v)) by {
                    if is_prefix_at(data@, pos as int, enc_opt_i32(v)) {
                        assert(data@.subrange(
                            pos as int,
                            pos as int + enc_opt_i32(v).len() as int,
                        )[0] == enc_opt_i32(v)[0]);
                    }
                }
            }
            None
        }
    } else {
        proof {
            assert forall|v: Option<i32>| !is_prefix_at(data@, pos as int, enc_opt_i32(v)) by {
                if is_prefix_at(data@, pos as int, enc_opt_i32(v)) {
                    match v {
                        Option::None => {}
                        Option::Some(w) => {}
                    }
                }
            }
        }
        None
    }
}

pub fn write_opt_i32(out: &mut Vec<u8>, v: Option<i32>)
    ensures
        final(out)@ == old(out)@ + enc_opt_i32(v),
{
    match v {
        Option::None => {
            out.push(0);
        }
        Option::Some(x) => {
            out.push(1);
            write_i32(out, x);
        }
    }
    proof {
        assert(out@ =~= old(out)@ + enc_opt_i32(v));
    }
}

pub open spec fn enc_opt_i64(o: Option<i64>) -> Seq<u8> {
    match o {
        Option::None => seq![0u8],
        Option::Some(v) => seq![1u8] + enc_i64(v),
    }
}

pub fn read_opt_i64(data: &[u8], pos: usize) -> (r: Option<(Option<i64>, usize)>)
    ensures
        r matches Some(p) ==> pos <= p.1 <= data@.len()
            && data@.subrange(pos as int, p.1 as int) == enc_opt_i64(p.0)
            && p.1 == pos + enc_opt_i64(p.0).len(),
        forall|v: Option<i64>| is_prefix_at(data@, pos as int, enc_opt_i64(v))
            ==> (r matches Some(p) && p.0 == v && p.1 == pos + enc_opt_i64(v).len()),
{
    if pos < data.len() {
        let tag = data[pos];
        if tag == 0 {
            proof {
                assert(data@.subrange(pos as int, pos as int + 1) =~= enc_opt_i64(Option::None));
                assert forall|v: Option<i64>| is_prefix_at(data@, pos as int, enc_opt_i64(v))
                    implies v is None by {
                    if v matches Some(w) {
                        assert(data@.subrange(
                            pos as int,
                            pos as int + enc_opt_i64(v).len() as int,
                        )[0] == enc_opt_i64(v)[0]);
                    }
                }
            }
            Some((None, pos + 1))
        } else if tag == 1 {
            match read_i64(data, pos + 1) {
                Some((x, end)) => {
                    proof {
                        lemma_join_at(data@, pos as int, pos as int + 1, end as int);
                        assert(data@.subrange(pos as int, pos as int + 1) =~= seq![1u8]);
                        assert forall|v: Option<i64>| is_prefix_at(data@, pos as int, enc_opt_i64(v))
                            implies v == Some(x) by {
                            match v {
                                Option::None => {
                                    assert(data@.subrange(pos as int, pos as int + 1)[0]
                                        == enc_opt_i64(v)[0]);
                                }
                                Option::Some(w) => {
                                    lemma_split_prefix(data@, pos as int, seq![1u8], enc_i64(w));
                                    assert(is_prefix_at(data@, pos as int + 1, enc_i64(w)));
                                }
                            }
                        }
                    }
                    Some((Some(x), end))
                }
                None => {
                    proof {
                        assert forall|v: Option<i64>| !is_prefix_at(
                            data@,
                            pos as int,
                            enc_opt_i64(v),
                        ) by {
                            if is_prefix_at(data@, pos as int, enc_opt_i64(v)) {
                                match v {
                                    Option::None => {
                                        assert(data@.subrange(pos as int, pos as int + 1)[0]
                                            == enc_opt_i64(v)[0]);
                                    }
                                    Option::Some(w) => {
                                        lemma_split_prefix(data@, pos as int, seq![1u8], enc_i64(w));
                                        assert(is_prefix_at(data@, pos as int + 1, enc_i64(w)));
                                    }
                                }
                            }
                        }
                    }
                    None
                }
            }
        } else {
            proof {
                assert forall|v: Option<i64>| !is_prefix_at(data@, pos as int, enc_opt_i64(v)) by {
                    if is_prefix_at(data@, pos as int, enc_opt_i64(v)) {
                        assert(data@.subrange(
                            pos as int,
                            pos as int + enc_opt_i64(v).len() as int,
                        )[0] == enc_opt_i64(v)[0]);
                    }
                }
            }
            None
        }
    } else {
        proof {
            assert forall|v: Option<i64>| !is_prefix_at(data@, pos as int, enc_opt_i64(v)) by {
                if is_prefix_at(data@, pos as int, enc_opt_i64(v)) {
                    match v {
                        Option::None => {}
                        Option::Some(w) => {}
                    }
                }
            }
        }
        None
    }
}

pub fn write_opt_i64(out: &mut Vec<u8>, v: Option<i64>)
    ensures
        final(out)@ == old(out)@ + enc_opt_i64(v),
{
    match v {
        Option::None => {
            out.push(0);
        }
        Option::Some(x) => {
            out.push(1);
            write_i64(out, x);
        }
    }
    proof {
        assert(out@ =~= old(out)@ + enc_opt_i64(v));
    }
}

pub open spec fn enc_opt_bool(o: Option<bool>) -> Seq<u8> {
    match o {
        Option::None => seq![0u8],
        Option::Some(v) => seq![1u8] + enc_bool(v),
    }
}

pub fn read_opt_bool(data: &[u8], pos: usize) -> (r: Option<(Option<bool>, usize)>)
    ensures
        r matches Some(p) ==> pos <= p.1 <= data@.len()
            && data@.subrange(pos as int, p.1 as int) == enc_opt_bool(p.0)
            && p.1 == pos + enc_opt_bool(p.0).len(),
        forall|v: Option<bool>| is_prefix_at(data@, pos as int, enc_opt_bool(v))
            ==> (r matches Some(p) && p.0 == v && p.1 == pos + enc_opt_bool(v).len()),
{
    if pos < data.len() {
        let tag = data[pos];
        if tag == 0 {
            proof {
                assert(data@.subrange(pos as int, pos as int + 1) =~= enc_opt_bool(Option::None));
                assert forall|v: Option<bool>| is_prefix_at(data@, pos as int, enc_opt_bool(v))
                    implies v is None by {
                    if v matches Some(w) {
                        assert(data@.subrange(
                            pos as int,
                            pos as int + enc_opt_bool(v).len() as int,
                        )[0] == enc_opt_bool(v)[0]);
                    }
                }
            }
            Some((None, pos + 1))
        } else if tag == 1 {
            match read_bool(data, pos + 1) {
                Some((x, end)) => {
                    proof {
                        lemma_join_at(data@, pos as int, pos as int + 1, end as int);
                        assert(data@.subrange(pos as int, pos as int + 1) =~= seq![1u8]);
                        assert forall|v: Option<bool>| is_prefix_at(data@, pos as int, enc_opt_bool(v))
                            implies v == Some(x) by {
                            match v {
                                Option::None => {
                                    assert(data@.subrange(pos as int, pos as int + 1)[0]
                                        == enc_opt_bool(v)[0]);
                                }
                                Option::Some(w) => {
                                    lemma_split_prefix(data@, pos as int, seq![1u8], enc_bool(w));
                                    assert(is_prefix_at(data@, pos as int + 1, enc_bool(w)));
                                }
                            }
                        }
                    }
                    Some((Some(x), end))
                }
                None => {
                    proof {
                        assert forall|v: Option<bool>| !is_prefix_at(
                            data@,
                            pos as int,
                            enc_opt_bool(v),
                        ) by {
                            if is_prefix_at(data@, pos as int, enc_opt_bool(v)) {
                                match v {
                                    Option::None => {
                                        assert(data@.subrange(pos as int, pos as int + 1)[0]
                                            == enc_opt_bool(v)[0]);
                                    }
                                    Option::Some(w) => {
                                        lemma_split_prefix(data@, pos as int, seq![1u8], enc_bool(w));
                                        assert(is_prefix_at(data@, pos as int + 1, enc_bool(w)));
                                    }
                                }
                            }
                        }
                    }
                    None
                }
            }
        } else {
            proof {
                assert forall|v: Option<bool>| !is_prefix_at(data@, pos as int, enc_opt_bool(v)) by {
                    if is_prefix_at(data@, pos as int, enc_opt_bool(v)) {
                        assert(data@.subrange(
                            pos as int,
                            pos as int + enc_opt_bool(v).len() as int,
                        )[0] == enc_opt_bool(v)[0]);
                    }
                }
            }
            None
        }
    } else {
        proof {
            assert forall|v: Option<bool>| !is_prefix_at(data@, pos as int, enc_opt_bool(v)) by {
                if is_prefix_at(data@, pos as int, enc_opt_bool(v)) {
                    match v {
                        Option::None => {}
                        Option::Some(w) => {}
                    }
                }
            }
        }
        None
    }
}

pub fn write_opt_bool(out: &mut Vec<u8>, v: Option<bool>)
    ensures
        final(out)@ == old(out)@ + enc_opt_bool(v),
{
    match v {
        Option::None => {
            out.push(0);
        }
        Option::Some(x) => {
            out.push(1);
            write_bool(out, x);
        }
    }
    proof {
        assert(out@ =~= old(out)@ + enc_opt_bool(v));
    }
}

pub open spec fn enc_u32_elems(s: Seq<u32>) -> Seq<u8>
    decreases s.len(),
{
    if s.len() == 0 {
        Seq::empty()
    } else {
        enc_u32(s[0]) + enc_u32_elems(s.subrange(1, s.len() as int))
    }
}

pub proof fn lemma_enc_u32_elems_snoc(s: Seq<u32>, x: u32)
    ensures
        enc_u32_elems(s.push(x)) == enc_u32_elems(s) + enc_u32(x),
    decreases s.len(),
{
    let sp = s.push(x);
    if s.len() == 0 {
        assert(sp[0] == x);
        assert(sp.subrange(1, sp.len() as int) =~= Seq::<u32>::empty());
        assert(enc_u32_elems(Seq::<u32>::empty()) == Seq::<u8>::empty());
        assert(enc_u32_elems(sp) == enc_u32(x) + Seq::<u8>::empty());
        assert(enc_u32(x) + Seq::<u8>::empty() =~= Seq::<u8>::empty() + enc_u32(x));
    } else {
        assert(sp[0] == s[0]);
        assert(sp.subrange(1, sp.len() as int) =~= s.subrange(1, s.len() as int).push(x));
        lemma_enc_u32_elems_snoc(s.subrange(1, s.len() as int), x);
        assert(enc_u32_elems(sp) == enc_u32(s[0]) + (enc_u32_elems(s.subrange(1, s.len() as int)) + enc_u32(x)));
        assert(enc_u32(s[0]) + (enc_u32_elems(s.subrange(1, s.len() as int)) + enc_u32(x))
            =~= (enc_u32(s[0]) + enc_u32_elems(s.subrange(1, s.len() as int))) + enc_u32(x));
    }
}

pub open spec fn enc_vec_u32(s: Seq<u32>) -> Seq<u8> {
    enc_u32(s.len() as u32) + enc_u32_elems(s)
}

pub fn read_vec_u32(data: &[u8], pos: usize) -> (r: Option<(Vec<u32>, usize)>)
    ensures
        r matches Some(p) ==> pos <= p.1 <= data@.len()
            && data@.subrange(pos as int, p.1 as int) == enc_vec_u32(p.0@)
            && p.1 == pos + enc_vec_u32(p.0@).len()
            && p.0@.len() <= u32::MAX,
        forall|s: Seq<u32>| s.len() <= u32::MAX && is_prefix_at(data@, pos as int, enc_vec_u32(s))
            ==> (r matches Some(p) && p.0@ == s && p.1 == pos + enc_vec_u32(s).len()),
{
    proof {
        lemma_enc_lens();
        assert forall|s: Seq<u32>| s.len() <= u32::MAX && is_prefix_at(data@, pos as int, enc_vec_u32(s)) implies (
            is_prefix_at(data@, pos as int, enc_u32(s.len() as u32))
            && is_prefix_at(data@, pos as int + 4, enc_u32_elems(s))
        ) by {
            lemma_split_prefix(data@, pos as int, enc_u32(s.len() as u32), enc_u32_elems(s));
        }
    }
    match read_u32(data, pos) {
        None => {
            proof {
                assert forall|s: Seq<u32>| !(s.len() <= u32::MAX && is_prefix_at(data@, pos as int, enc_vec_u32(s))) by {
                    if s.len() <= u32::MAX && is_prefix_at(data@, pos as int, enc_vec_u32(s)) {
                        assert(is_prefix_at(data@, pos as int, enc_u32(s.len() as u32)));
                    }
                }
            }
            None
        }
        Some((count, start)) => {
            let mut acc: Vec<u32> = Vec::new();
            let mut cur: usize = start;
            let mut k: u32 = 0;
            proof {
                assert(enc_u32_elems(acc@) =~= Seq::<u8>::empty());
                assert(data@.subrange(start as int, cur as int) =~= enc_u32_elems(acc@));
                assert forall|s: Seq<u32>| s.len() <= u32::MAX && is_prefix_at(data@, pos as int, enc_vec_u32(s)) implies (
                    s.len() == count && acc@ == s.take(0)
                    && is_prefix_at(data@, cur as int, enc_u32_elems(s.skip(0)))
                ) by {
                    assert(is_prefix_at(data@, pos as int, enc_u32(s.len() as u32)));
                    assert(s.skip(0) =~= s);
                    assert(acc@ =~= s.take(0));
                }
            }
            while k < count
                invariant
                    k <= count,
                    pos + 4 == start,
                    start <= cur <= data@.len(),
                    acc@.len() == k,
                    data@.subrange(start as int, cur as int) == enc_u32_elems(acc@),
                    cur == start + enc_u32_elems(acc@).len(),
                    forall|s: Seq<u32>| s.len() <= u32::MAX && is_prefix_at(data@, pos as int, enc_vec_u32(s))
                        ==> s.len() == count && acc@ == s.take(k as int)
                            && is_prefix_at(data@, cur as int, enc_u32_elems(s.skip(k as int))),
                decreases count - k,
            {
                match read_u32(data, cur) {
                    None => {
                        proof {
                            assert forall|s: Seq<u32>| !(s.len() <= u32::MAX && is_prefix_at(data@, pos as int, enc_vec_u32(s))) by {
                                if s.len() <= u32::MAX && is_prefix_at(data@, pos as int, enc_vec_u32(s)) {
                                    let rest = s.skip(k as int);
                                    assert(rest[0] == s[k as int]);
                                    assert(rest.subrange(1, rest.len() as int) =~= s.skip(k as int + 1));
                                    assert(enc_u32_elems(rest) == enc_u32(rest[0]) + enc_u32_elems(s.skip(k as int + 1)));
                                    lemma_split_prefix(data@, cur as int, enc_u32(s[k as int]), enc_u32_elems(s.skip(k as int + 1)));
                                    assert(is_prefix_at(data@, cur as int, enc_u32(s[k as int])));
                                }
                            }
                        }
                        return None;
                    }
                    Some((x, next)) => {
                        proof {
                            lemma_enc_u32_elems_snoc(acc@, x);
                            lemma_join_at(data@, start as int, cur as int, next as int);
                            assert forall|s: Seq<u32>| s.len() <= u32::MAX && is_prefix_at(data@, pos as int, enc_vec_u32(s)) implies (
                                acc@.push(x) == s.take(k as int + 1)
                                && is_prefix_at(data@, next as int, enc_u32_elems(s.skip(k as int + 1)))
                            ) by {
                                let rest = s.skip(k as int);
                                assert(rest[0] == s[k as int]);
                                assert(rest.subrange(1, rest.len() as int) =~= s.skip(k as int + 1));
                                assert(enc_u32_elems(rest) == enc_u32(rest[0]) + enc_u32_elems(s.skip(k as int + 1)));
                                lemma_split_prefix(data@, cur as int, enc_u32(s[k as int]), enc_u32_elems(s.skip(k as int + 1)));
                                assert(is_prefix_at(data@, cur as int, enc_u32(s[k as int])));
                                assert(acc@.push(x) =~= s.take(k as int + 1));
                            }
                        }
                        acc.push(x);
                        cur = next;
                        k = k + 1;
                    }
                }
            }
            proof {
                lemma_join_at(data@, pos as int, start as int, cur as int);
                assert(acc@.len() as u32 == count);
                assert(data@.subrange(pos as int, cur as int) == enc_vec_u32(acc@));
                assert forall|s: Seq<u32>| s.len() <= u32::MAX && is_prefix_at(data@, pos as int, enc_vec_u32(s))
                    implies (acc@ == s && cur == pos + enc_vec_u32(s).len()) by {
                    assert(s.take(s.len() as int) =~= s);
                }
            }
            Some((acc, cur))
        }
    }
}

pub fn write_vec_u32(out: &mut Vec<u8>, v: &Vec<u32>)
    requires
        v@.len() <= u32::MAX,
    ensures
        final(out)@ == old(out)@ + enc_vec_u32(v@),
{
    write_u32(out, v.len() as u32);
    let mut idx: usize = 0;
    while idx < v.len()
        invariant
            idx <= v@.len(),
            v@.len() <= u32::MAX,
            out@ == old(out)@ + enc_u32(v@.len() as u32) + enc_u32_elems(v@.take(idx as int)),
        decreases v@.len() - idx,
    {
        write_u32(out, v[idx]);
        proof {
            lemma_enc_u32_elems_snoc(v@.take(idx as int), v@[idx as int]);
            assert(v@.take(idx as int + 1) =~= v@.take(idx as int).push(v@[idx as int]));
        }
        idx = idx + 1;
    }
    proof {
        assert(v@.take(v@.len() as int) =~= v@);
        assert(out@ =~= old(out)@ + enc_vec_u32(v@));
    }
}

pub open spec fn enc_u16_elems(s: Seq<u16>) -> Seq<u8>
    decreases s.len(),
{
    if s.len() == 0 {
        Seq::empty()
    } else {
        enc_u16(s[0]) + enc_u16_elems(s.subrange(1, s.len() as int))
    }
}

pub proof fn lemma_enc_u16_elems_snoc(s: Seq<u16>, x: u16)
    ensures
        enc_u16_elems(s.push(x)) == enc_u16_elems(s) + enc_u16(x),
    decreases s.len(),
{
    let sp = s.push(x);
    if s.len() == 0 {
        assert(sp[0] == x);
        assert(sp.subrange(1, sp.len() as int) =~= Seq::<u16>::empty());
        assert(enc_u16_elems(Seq::<u16>::empty()) == Seq::<u8>::empty());
        assert(enc_u16_elems(sp) == enc_u16(x) + Seq::<u8>::empty());
        assert(enc_u16(x) + Seq::<u8>::empty() =~= Seq::<u8>::empty() + enc_u16(x));
    } else {
        assert(sp[0] == s[0]);
        assert(sp.subrange(1, sp.len() as int) =~= s.subrange(1, s.len() as int).push(x));
        lemma_enc_u16_elems_snoc(s.subrange(1, s.len() as int), x);
        assert(enc_u16_elems(sp) == enc_u16(s[0]) + (enc_u16_elems(s.subrange(1, s.len() as int)) + enc_u16(x)));
        assert(enc_u16(s[0]) + (enc_u16_elems(s.subrange(1, s.len() as int)) + enc_u16(x))
            =~= (enc_u16(s[0]) + enc_u16_elems(s.subrange(1, s.len() as int))) + enc_u16(x));
    }
}

pub open spec fn enc_vec_u16(s: Seq<u16>) -> Seq<u8> {
    enc_u32(s.len() as u32) + enc_u16_elems(s)
}

pub fn read_vec_u16(data: &[u8], pos: usize) -> (r: Option<(Vec<u16>, usize)>)
    ensures
        r matches Some(p) ==> pos <= p.1 <= data@.len()
            && data@.subrange(pos as int, p.1 as int) == enc_vec_u16(p.0@)
            && p.1 == pos + enc_vec_u16(p.0@).len()
            && p.0@.len() <= u32::MAX,
        forall|s: Seq<u16>| s.len() <= u32::MAX && is_prefix_at(data@, pos as int, enc_vec_u16(s))
            ==> (r matches Some(p) && p.0@ == s && p.1 == pos + enc_vec_u16(s).len()),
{
    proof {
        lemma_enc_lens();
        assert forall|s: Seq<u16>| s.len() <= u32::MAX && is_prefix_at(data@, pos as int, enc_vec_u16(s)) implies (
            is_prefix_at(data@, pos as int, enc_u32(s.len() as u32))
            && is_prefix_at(data@, pos as int + 4, enc_u16_elems(s))
        ) by {
            lemma_split_prefix(data@, pos as int, enc_u32(s.len() as u32), enc_u16_elems(s));
        }
    }
    match read_u32(data, pos) {
        None => {
            proof {
                assert forall|s: Seq<u16>| !(s.len() <= u32::MAX && is_prefix_at(data@, pos as int, enc_vec_u16(s))) by {
                    if s.len() <= u32::MAX && is_prefix_at(data@, pos as int, enc_vec_u16(s)) {
                        assert(is_prefix_at(data@, pos as int, enc_u32(s.len() as u32)));
                    }
                }
            }
            None
        }
        Some((count, start)) => {
            let mut acc: Vec<u16> = Vec::new();
            let mut cur: usize = start;
            let mut k: u32 = 0;
            proof {
                assert(enc_u16_elems(acc@) =~= Seq::<u8>::empty());
                assert(data@.subrange(start as int, cur as int) =~= enc_u16_elems(acc@));
                assert forall|s: Seq<u16>| s.len() <= u32::MAX && is_prefix_at(data@, pos as int, enc_vec_u16(s)) implies (
                    s.len() == count && acc@ == s.take(0)
                    && is_prefix_at(data@, cur as int, enc_u16_elems(s.skip(0)))
                ) by {
                    assert(is_prefix_at(data@, pos as int, enc_u32(s.len() as u32)));
                    assert(s.skip(0) =~= s);
                    assert(acc@ =~= s.take(0));
                }
            }
            while k < count
                invariant
                    k <= count,
                    pos + 4 == start,
                    start <= cur <= data@.len(),
                    acc@.len() == k,
                    data@.subrange(start as int, cur as int) == enc_u16_elems(acc@),
                    cur == start + enc_u16_elems(acc@).len(),
                    forall|s: Seq<u16>| s.len() <= u32::MAX && is_prefix_at(data@, pos as int, enc_vec_u16(s))
                        ==> s.len() == count && acc@ == s.take(k as int)
                            && is_prefix_at(data@, cur as int, enc_u16_elems(s.skip(k as int))),
                decreases count - k,
            {
                match read_u16(data, cur) {
                    None => {
                        proof {
                            assert forall|s: Seq<u16>| !(s.len() <= u32::MAX && is_prefix_at(data@, pos as int, enc_vec_u16(s))) by {
                                if s.len() <= u32::MAX && is_prefix_at(data@, pos as int, enc_vec_u16(s)) {
                                    let rest = s.skip(k as int);
                                    assert(rest[0] == s[k as int]);
                                    assert(rest.subrange(1, rest.len() as int) =~= s.skip(k as int + 1));
                                    assert(enc_u16_elems(rest) == enc_u16(rest[0]) + enc_u16_elems(s.skip(k as int + 1)));
                                    lemma_split_prefix(data@, cur as int, enc_u16(s[k as int]), enc_u16_elems(s.skip(k as int + 1)));
                                    assert(is_prefix_at(data@, cur as int, enc_u16(s[k as int])));
                                }
                            }
                        }
                        return None;
                    }
                    Some((x, next)) => {
                        proof {
                            lemma_enc_u16_elems_snoc(acc@, x);
                            lemma_join_at(data@, start as int, cur as int, next as int);
                            assert forall|s: Seq<u16>| s.len() <= u32::MAX && is_prefix_at(data@, pos as int, enc_vec_u16(s)) implies (
                                acc@.push(x) == s.take(k as int + 1)
                                && is_prefix_at(data@, next as int, enc_u16_elems(s.skip(k as int + 1)))
                            ) by {
                                let rest = s.skip(k as int);
                                assert(rest[0] == s[k as int]);
                                assert(rest.subrange(1, rest.len() as int) =~= s.skip(k as int + 1));
                                assert(enc_u16_elems(rest) == enc_u16(rest[0]) + enc_u16_elems(s.skip(k as int + 1)));
                                lemma_split_prefix(data@, cur as int, enc_u16(s[k as int]), enc_u16_elems(s.skip(k as int + 1)));
                                assert(is_prefix_at(data@, cur as int, enc_u16(s[k as int])));
                                assert(acc@.push(x) =~= s.take(k as int + 1));
                            }
                        }
                        acc.push(x);
                        cur = next;
                        k = k + 1;
                    }
                }
            }
            proof {
                lemma_join_at(data@, pos as int, start as int, cur as int);
                assert(acc@.len() as u32 == count);
                assert(data@.subrange(pos as int, cur as int) == enc_vec_u16(acc@));
                assert forall|s: Seq<u16>| s.len() <= u32::MAX && is_prefix_at(data@, pos as int, enc_vec_u16(s))
                    implies (acc@ == s && cur == pos + enc_vec_u16(s).len()) by {
                    assert(s.take(s.len() as int) =~= s);
                }
            }
            Some((acc, cur))
        }
    }
}

pub fn write_vec_u16(out: &mut Vec<u8>, v: &Vec<u16>)
    requires
        v@.len() <= u32::MAX,
    ensures
        final(out)@ == old(out)@ + enc_vec_u16(v@),
{
    write_u32(out, v.len() as u32);
    let mut idx: usize = 0;
    while idx < v.len()
        invariant
            idx <= v@.len(),
            v@.len() <= u32::MAX,
            out@ == old(out)@ + enc_u32(v@.len() as u32) + enc_u16_elems(v@.take(idx as int)),
        decreases v@.len() - idx,
    {
        write_u16(out, v[idx]);
        proof {
            lemma_enc_u16_elems_snoc(v@.take(idx as int), v@[idx as int]);
            assert(v@.take(idx as int + 1) =~= v@.take(idx as int).push(v@[idx as int]));
        }
        idx = idx + 1;
    }
    proof {
        assert(v@.take(v@.len() as int) =~= v@);
        assert(out@ =~= old(out)@ + enc_vec_u16(v@));
    }
}

pub open spec fn enc_bytes32(a: [u8; 32]) -> Seq<u8> {
    a@
}

pub fn read_bytes32(data: &[u8], pos: usize) -> (r: Option<([u8; 32], usize)>)
    ensures
        r matches Some(p) ==> pos + 32 <= data@.len() && p.1 == pos + 32
            && data@.subrange(pos as int, p.1 as int) == enc_bytes32(p.0),
        forall|v: [u8; 32]| is_prefix_at(data@, pos as int, enc_bytes32(v))
            ==> (r matches Some(p) && p.0 == v && p.1 == pos + enc_bytes32(v).len()),
{
    if pos < data.len() && data.len() - pos >= 32 {
        let mut a = [0u8; 32];
        let mut j: usize = 0;
        while j < 32
            invariant
                j <= 32,
                pos + 32 <= data@.len(),
                data@.len() <= usize::MAX,
                forall|t: int| 0 <= t < j ==> a@[t] == data@[pos + t],
            decreases 32 - j,
        {
            let b = data[pos + j];
            a[j] = b;
            j = j + 1;
        }
        proof {
            assert(a@ =~= data@.subrange(pos as int, pos as int + 32));
            assert forall|v: [u8; 32]| is_prefix_at(data@, pos as int, enc_bytes32(v))
                implies v == a by {
                assert(v@ =~= a@);
            }
        }
        Some((a, pos + 32))
    } else {
        proof {
            assert forall|v: [u8; 32]| !is_prefix_at(data@, pos as int, enc_bytes32(v)) by {
                if is_prefix_at(data@, pos as int, enc_bytes32(v)) {
                    assert(v@.len() == 32);
                }
            }
        }
        None
    }
}

pub fn write_bytes32(out: &mut Vec<u8>, a: &[u8; 32])
    ensures
        final(out)@ == old(out)@ + enc_bytes32(*a),
{
    out.extend_from_slice(a.as_slice());
}

pub open spec fn enc_u16x5(a: [u16; 5]) -> Seq<u8> {
    enc_u16(a@[0]) + enc_u16(a@[1]) + enc_u16(a@[2]) + enc_u16(a@[3]) + enc_u16(a@[4])
}

pub fn read_u16x5(data: &[u8], pos: usize) -> (r: Option<([u16; 5], usize)>)
    ensures
        r matches Some(p) ==> pos + 10 <= data@.len() && p.1 == pos + 10
            && data@.subrange(pos as int, p.1 as int) == enc_u16x5(p.0),
        forall|v: [u16; 5]| is_prefix_at(data@, pos as int, enc_u16x5(v))
            ==> (r matches Some(p) && p.0 == v && p.1 == pos + enc_u16x5(v).len()),
{
    proof {
        lemma_enc_lens();
        assert forall|v: [u16; 5]| is_prefix_at(data@, pos as int, enc_u16x5(v)) implies (
            is_prefix_at(data@, pos as int, enc_u16(v@[0]))
            && is_prefix_at(data@, pos as int + 2, enc_u16(v@[1]))
            && is_prefix_at(data@, pos as int + 4, enc_u16(v@[2]))
            && is_prefix_at(data@, pos as int + 6, enc_u16(v@[3]))
            && is_prefix_at(data@, pos as int + 8, enc_u16(v@[4]))
        ) by {
            lemma_split_prefix(data@, pos as int,
                enc_u16(v@[0]) + enc_u16(v@[1]) + enc_u16(v@[2]) + enc_u16(v@[3]), enc_u16(v@[4]));
            lemma_split_prefix(data@, pos as int,
                enc_u16(v@[0]) + enc_u16(v@[1]) + enc_u16(v@[2]), enc_u16(v@[3]));
            lemma_split_prefix(data@, pos as int, enc_u16(v@[0]) + enc_u16(v@[1]), enc_u16(v@[2]));
            lemma_split_prefix(data@, pos as int, enc_u16(v@[0]), enc_u16(v@[1]));
        }
    }
    match read_u16(data, pos) {
        None => {
            None
        }
        Some((v0, pos1)) => match read_u16(data, pos1) {
            None => {
                None
            }
            Some((v1, pos2)) => match read_u16(data, pos2) {
                None => {
                    None
                }
                Some((v2, pos3)) => match read_u16(data, pos3) {
                    None => {
                        None
                    }
                    Some((v3, pos4)) => match read_u16(data, pos4) {
                        None => {
                            None
                        }
                        Some((v4, pos5)) => {
                            let mut a = [0u16; 5];
                            a[0] = v0;
                            a[1] = v1;
                            a[2] = v2;
                            a[3] = v3;
                            a[4] = v4;
                            proof {
                                lemma_join_at(data@, pos as int, pos1 as int, pos2 as int);
                                lemma_join_at(data@, pos as int, pos2 as int, pos3 as int);
                                lemma_join_at(data@, pos as int, pos3 as int, pos4 as int);
                                lemma_join_at(data@, pos as int, pos4 as int, pos5 as int);
                                assert(data@.subrange(pos as int, pos5 as int) == enc_u16x5(a));
                                assert forall|v: [u16; 5]| is_prefix_at(data@, pos as int, enc_u16x5(v))
                                    implies v == a by {
                                    assert(is_prefix_at(data@, pos1 as int, enc_u16(v@[1])));
                                    assert(is_prefix_at(data@, pos2 as int, enc_u16(v@[2])));
                                    assert(is_prefix_at(data@, pos3 as int, enc_u16(v@[3])));
                                    assert(is_prefix_at(data@, pos4 as int, enc_u16(v@[4])));
                                    assert(v@ =~= a@);
                                }
                            }
                            Some((a, pos5))
                        }
                    },
                },
            },
        },
    }
}

pub fn write_u16x5(out: &mut Vec<u8>, a: &[u16; 5])
    ensures
        final(out)@ == old(out)@ + enc_u16x5(*a),
{
    write_u16(out, a[0]);
    write_u16(out, a[1]);
    write_u16(out, a[2]);
    write_u16(out, a[3]);
    write_u16(out, a[4]);
    proof {
        assert(out@ =~= old(out)@ + enc_u16x5(*a));
    }
}

} // verus!
