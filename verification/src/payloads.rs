//! The payload record of every cataloged instruction variant, with its
//! exact wire encoding, parser, and serializer.

use vstd::prelude::*;
use crate::wire::{
    enc_bool, enc_i32, enc_i64, enc_u16, enc_u32, enc_u64, enc_u8, is_prefix_at,
    lemma_add_assoc, lemma_enc_lens, lemma_join_at, lemma_split_prefix, read_bool, read_i32, read_i64,
    read_u16, read_u32, read_u64, read_u8, write_bool, write_i32, write_i64, write_u16,
    write_u32, write_u64, write_u8,
};
use crate::fields::{
    enc_bytes32, enc_opt_bool, enc_opt_i32, enc_opt_i64, enc_opt_u16, enc_opt_u32,
    enc_opt_u64, enc_opt_u8, enc_u16x5, enc_vec_u16, enc_vec_u32, read_bytes32,
    read_opt_u16, read_opt_u32, read_opt_u64, read_u16x5, read_vec_u16, read_vec_u32,
    write_bytes32, write_opt_u16, write_opt_u32, write_opt_u64, write_u16x5,
    write_vec_u16, write_vec_u32,
};
use crate::orders::{
    enc_modify_order_params, enc_opt_market_type, enc_opt_position_direction,
    enc_opt_spot_fulfillment_type, enc_opt_swap_reduce_only, enc_order_params,
    enc_settle_pnl_mode, enc_vec_order_params, read_modify_order_params,
    read_opt_market_type, read_opt_position_direction, read_opt_spot_fulfillment_type,
    read_opt_swap_reduce_only, read_order_params, read_settle_pnl_mode,
    read_vec_order_params, write_modify_order_params, write_opt_market_type,
    write_opt_position_direction, write_opt_spot_fulfillment_type,
    write_opt_swap_reduce_only, write_order_params, write_settle_pnl_mode,
    write_vec_order_params, MarketType, ModifyOrderParams, OrderParams,
    PositionDirection, SettlePnlMode, SpotFulfillmentType, SwapReduceOnly,
};

verus! {

#[derive(Clone, Debug, PartialEq)]
pub struct InitializeUser {
    pub sub_account_id: u16,
    pub name: [u8; 32],
}

pub open spec fn enc_initialize_user(p: InitializeUser) -> Seq<u8> {
    enc_u16(p.sub_account_id) + enc_bytes32(p.name)
}

proof fn lemma_initialize_user_parts(data: Seq<u8>, pos: int, v: InitializeUser)
    requires
        is_prefix_at(data, pos, enc_initialize_user(v)),
    ensures
        is_prefix_at(data, pos, enc_u16(v.sub_account_id)),
        is_prefix_at(data, pos + enc_u16(v.sub_account_id).len(), enc_bytes32(v.name)),
{
    lemma_enc_lens();
    lemma_split_prefix(data, pos, enc_u16(v.sub_account_id), enc_bytes32(v.name));
}

pub fn read_initialize_user(data: &[u8], pos: usize) -> (r: Option<(InitializeUser, usize)>)
    ensures
        r matches Some(p) ==> pos <= p.1 <= data@.len()
            && data@.subrange(pos as int, p.1 as int) == enc_initialize_user(p.0)
            && p.1 == pos + enc_initialize_user(p.0).len(),
        forall|v: InitializeUser| is_prefix_at(data@, pos as int, enc_initialize_user(v))
            ==> (r matches Some(p) && p.0 == v && p.1 == pos + enc_initialize_user(v).len()),
{
    proof {
        lemma_enc_lens();
    }
    match read_u16(data, pos) {
        None => {
            proof {
                assert forall|v: InitializeUser| !(is_prefix_at(data@, pos as int, enc_initialize_user(v))) by {
                    if is_prefix_at(data@, pos as int, enc_initialize_user(v)) {
                        lemma_initialize_user_parts(data@, pos as int, v);
                        assert(is_prefix_at(data@, pos as int, enc_u16(v.sub_account_id)));
                    }
                }
            }
            None
        }
        Some((sub_account_id, pos1)) => {
            match read_bytes32(data, pos1) {
                None => {
                    proof {
                        assert forall|v: InitializeUser| !(is_prefix_at(data@, pos as int, enc_initialize_user(v))) by {
                            if is_prefix_at(data@, pos as int, enc_initialize_user(v)) {
                                lemma_initialize_user_parts(data@, pos as int, v);
                                assert(is_prefix_at(data@, pos as int, enc_u16(v.sub_account_id)));
                                assert(is_prefix_at(data@, pos1 as int, enc_bytes32(v.name)));
                            }
                        }
                    }
                    None
                }
                Some((name, pos2)) => {
                    let result = InitializeUser { sub_account_id, name };
                    proof {
                        lemma_join_at(data@, pos as int, pos1 as int, pos2 as int);
                        assert(data@.subrange(pos as int, pos2 as int) == enc_initialize_user(result));
                        assert forall|v: InitializeUser| is_prefix_at(data@, pos as int, enc_initialize_user(v))
                            implies (result == v && pos2 == pos + enc_initialize_user(v).len()) by {
                            lemma_initialize_user_parts(data@, pos as int, v);
                            assert(is_prefix_at(data@, pos as int, enc_u16(v.sub_account_id)));
                            assert(is_prefix_at(data@, pos1 as int, enc_bytes32(v.name)));
                        }
                    }
                    Some((result, pos2))
                    }
                }
            }
        }
}

pub fn write_initialize_user(out: &mut Vec<u8>, p: &InitializeUser)
    ensures
        final(out)@ == old(out)@ + enc_initialize_user(*p),
{
    write_u16(out, p.sub_account_id);
    write_bytes32(out, &p.name);
    proof {
        lemma_add_assoc(old(out)@, enc_u16(p.sub_account_id), enc_bytes32(p.name));
    }
    proof {
        assert(out@ == old(out)@ + enc_initialize_user(*p));
    }
}

#[derive(Clone, Debug, PartialEq)]
pub struct InitializeUserStats {}

#[derive(Clone, Debug, PartialEq)]
pub struct InitializeReferrerName {
    pub name: [u8; 32],
}

pub open spec fn enc_initialize_referrer_name(p: InitializeReferrerName) -> Seq<u8> {
    enc_bytes32(p.name)
}

pub fn read_initialize_referrer_name(data: &[u8], pos: usize) -> (r: Option<(InitializeReferrerName, usize)>)
    ensures
        r matches Some(p) ==> pos <= p.1 <= data@.len()
            && data@.subrange(pos as int, p.1 as int) == enc_initialize_referrer_name(p.0)
            && p.1 == pos + enc_initialize_referrer_name(p.0).len(),
        forall|v: InitializeReferrerName| is_prefix_at(data@, pos as int, enc_initialize_referrer_name(v))
            ==> (r matches Some(p) && p.0 == v && p.1 == pos + enc_initialize_referrer_name(v).len()),
{
    proof {
        lemma_enc_lens();
    }
    match read_bytes32(data, pos) {
        None => {
            proof {
                assert forall|v: InitializeReferrerName| !(is_prefix_at(data@, pos as int, enc_initialize_referrer_name(v))) by {
                    if is_prefix_at(data@, pos as int, enc_initialize_referrer_name(v)) {
                        assert(is_prefix_at(data@, pos as int, enc_bytes32(v.name)));
                    }
                }
            }
            None
        }
        Some((name, pos1)) => {
            let result = InitializeReferrerName { name };
            proof {
                assert(data@.subrange(pos as int, pos1 as int) == enc_initialize_referrer_name(result));
                assert forall|v: InitializeReferrerName| is_prefix_at(data@, pos as int, enc_initialize_referrer_name(v))
                    implies (result == v && pos1 == pos + enc_initialize_referrer_name(v).len()) by {
                    assert(is_prefix_at(data@, pos as int, enc_bytes32(v.name)));
                }
            }
            Some((result, pos1))
            }
        }
}

pub fn write_initialize_referrer_name(out: &mut Vec<u8>, p: &InitializeReferrerName)
    ensures
        final(out)@ == old(out)@ + enc_initialize_referrer_name(*p),
{
    write_bytes32(out, &p.name);
    proof {
        assert(out@ == old(out)@ + enc_initialize_referrer_name(*p));
    }
}

#[derive(Clone, Debug, PartialEq)]
pub struct Deposit {
    pub market_index: u16,
    pub amount: u64,
    pub reduce_only: bool,
}

pub open spec fn enc_deposit(p: Deposit) -> Seq<u8> {
    enc_u16(p.market_index) + enc_u64(p.amount) + enc_bool(p.reduce_only)
}

proof fn lemma_deposit_parts(data: Seq<u8>, pos: int, v: Deposit)
    requires
        is_prefix_at(data, pos, enc_deposit(v)),
    ensures
        is_prefix_at(data, pos, enc_u16(v.market_index)),
        is_prefix_at(data, pos + enc_u16(v.market_index).len(), enc_u64(v.amount)),
        is_prefix_at(data, pos + enc_u16(v.market_index).len() + enc_u64(v.amount).len(), enc_bool(v.reduce_only)),
{
    lemma_enc_lens();
    lemma_split_prefix(data, pos, enc_u16(v.market_index) + enc_u64(v.amount), enc_bool(v.reduce_only));
    lemma_split_prefix(data, pos, enc_u16(v.market_index), enc_u64(v.amount));
}

pub fn read_deposit(data: &[u8], pos: usize) -> (r: Option<(Deposit, usize)>)
    ensures
        r matches Some(p) ==> pos <= p.1 <= data@.len()
            && data@.subrange(pos as int, p.1 as int) == enc_deposit(p.0)
            && p.1 == pos + enc_deposit(p.0).len(),
        forall|v: Deposit| is_prefix_at(data@, pos as int, enc_deposit(v))
            ==> (r matches Some(p) && p.0 == v && p.1 == pos + enc_deposit(v).len()),
{
    proof {
        lemma_enc_lens();
    }
    match read_u16(data, pos) {
        None => {
            proof {
                assert forall|v: Deposit| !(is_prefix_at(data@, pos as int, enc_deposit(v))) by {
                    if is_prefix_at(data@, pos as int, enc_deposit(v)) {
                        lemma_deposit_parts(data@, pos as int, v);
                        assert(is_prefix_at(data@, pos as int, enc_u16(v.market_index)));
                    }
                }
            }
            None
        }
        Some((market_index, pos1)) => {
            match read_u64(data, pos1) {
                None => {
                    proof {
                        assert forall|v: Deposit| !(is_prefix_at(data@, pos as int, enc_deposit(v))) by {
                            if is_prefix_at(data@, pos as int, enc_deposit(v)) {
                                lemma_deposit_parts(data@, pos as int, v);
                                assert(is_prefix_at(data@, pos as int, enc_u16(v.market_index)));
                                assert(is_prefix_at(data@, pos1 as int, enc_u64(v.amount)));
                            }
                        }
                    }
                    None
                }
                Some((amount, pos2)) => {
                    match read_bool(data, pos2) {
                        None => {
                            proof {
                                assert forall|v: Deposit| !(is_prefix_at(data@, pos as int, enc_deposit(v))) by {
                                    if is_prefix_at(data@, pos as int, enc_deposit(v)) {
                                        lemma_deposit_parts(data@, pos as int, v);
                                        assert(is_prefix_at(data@, pos as int, enc_u16(v.market_index)));
                                        assert(is_prefix_at(data@, pos1 as int, enc_u64(v.amount)));
                                        assert(is_prefix_at(data@, pos2 as int, enc_bool(v.reduce_only)));
                                    }
                                }
                            }
                            None
                        }
                        Some((reduce_only, pos3)) => {
                            let result = Deposit { market_index, amount, reduce_only };
                            proof {
                                lemma_join_at(data@, pos as int, pos1 as int, pos2 as int);
                                lemma_join_at(data@, pos as int, pos2 as int, pos3 as int);
                                assert(data@.subrange(pos as int, pos3 as int) == enc_deposit(result));
                                assert forall|v: Deposit| is_prefix_at(data@, pos as int, enc_deposit(v))
                                    implies (result == v && pos3 == pos + enc_deposit(v).len()) by {
                                    lemma_deposit_parts(data@, pos as int, v);
                                    assert(is_prefix_at(data@, pos as int, enc_u16(v.market_index)));
                                    assert(is_prefix_at(data@, pos1 as int, enc_u64(v.amount)));
                                    assert(is_prefix_at(data@, pos2 as int, enc_bool(v.reduce_only)));
                                }
                            }
                            Some((result, pos3))
                            }
                        }
                    }
                }
            }
        }
}

pub fn write_deposit(out: &mut Vec<u8>, p: &Deposit)
    ensures
        final(out)@ == old(out)@ + enc_deposit(*p),
{
    write_u16(out, p.market_index);
    write_u64(out, p.amount);
    proof {
        lemma_add_assoc(old(out)@, enc_u16(p.market_index), enc_u64(p.amount));
    }
    write_bool(out, p.reduce_only);
    proof {
        lemma_add_assoc(old(out)@, enc_u16(p.market_index) + enc_u64(p.amount), enc_bool(p.reduce_only));
    }
    proof {
        assert(out@ == old(out)@ + enc_deposit(*p));
    }
}

#[derive(Clone, Debug, PartialEq)]
pub struct Withdraw {
    pub market_index: u16,
    pub amount: u64,
    pub reduce_only: bool,
}

pub open spec fn enc_withdraw(p: Withdraw) -> Seq<u8> {
    enc_u16(p.market_index) + enc_u64(p.amount) + enc_bool(p.reduce_only)
}

proof fn lemma_withdraw_parts(data: Seq<u8>, pos: int, v: Withdraw)
    requires
        is_prefix_at(data, pos, enc_withdraw(v)),
    ensures
        is_prefix_at(data, pos, enc_u16(v.market_index)),
        is_prefix_at(data, pos + enc_u16(v.market_index).len(), enc_u64(v.amount)),
        is_prefix_at(data, pos + enc_u16(v.market_index).len() + enc_u64(v.amount).len(), enc_bool(v.reduce_only)),
{
    lemma_enc_lens();
    lemma_split_prefix(data, pos, enc_u16(v.market_index) + enc_u64(v.amount), enc_bool(v.reduce_only));
    lemma_split_prefix(data, pos, enc_u16(v.market_index), enc_u64(v.amount));
}

pub fn read_withdraw(data: &[u8], pos: usize) -> (r: Option<(Withdraw, usize)>)
    ensures
        r matches Some(p) ==> pos <= p.1 <= data@.len()
            && data@.subrange(pos as int, p.1 as int) == enc_withdraw(p.0)
            && p.1 == pos + enc_withdraw(p.0).len(),
        forall|v: Withdraw| is_prefix_at(data@, pos as int, enc_withdraw(v))
            ==> (r matches Some(p) && p.0 == v && p.1 == pos + enc_withdraw(v).len()),
{
    proof {
        lemma_enc_lens();
    }
    match read_u16(data, pos) {
        None => {
            proof {
                assert forall|v: Withdraw| !(is_prefix_at(data@, pos as int, enc_withdraw(v))) by {
                    if is_prefix_at(data@, pos as int, enc_withdraw(v)) {
                        lemma_withdraw_parts(data@, pos as int, v);
                        assert(is_prefix_at(data@, pos as int, enc_u16(v.market_index)));
                    }
                }
            }
            None
        }
        Some((market_index, pos1)) => {
            match read_u64(data, pos1) {
                None => {
                    proof {
                        assert forall|v: Withdraw| !(is_prefix_at(data@, pos as int, enc_withdraw(v))) by {
                            if is_prefix_at(data@, pos as int, enc_withdraw(v)) {
                                lemma_withdraw_parts(data@, pos as int, v);
                                assert(is_prefix_at(data@, pos as int, enc_u16(v.market_index)));
                                assert(is_prefix_at(data@, pos1 as int, enc_u64(v.amount)));
                            }
                        }
                    }
                    None
                }
                Some((amount, pos2)) => {
                    match read_bool(data, pos2) {
                        None => {
                            proof {
                                assert forall|v: Withdraw| !(is_prefix_at(data@, pos as int, enc_withdraw(v))) by {
                                    if is_prefix_at(data@, pos as int, enc_withdraw(v)) {
                                        lemma_withdraw_parts(data@, pos as int, v);
                                        assert(is_prefix_at(data@, pos as int, enc_u16(v.market_index)));
                                        assert(is_prefix_at(data@, pos1 as int, enc_u64(v.amount)));
                                        assert(is_prefix_at(data@, pos2 as int, enc_bool(v.reduce_only)));
                                    }
                                }
                            }
                            None
                        }
                        Some((reduce_only, pos3)) => {
                            let result = Withdraw { market_index, amount, reduce_only };
                            proof {
                                lemma_join_at(data@, pos as int, pos1 as int, pos2 as int);
                                lemma_join_at(data@, pos as int, pos2 as int, pos3 as int);
                                assert(data@.subrange(pos as int, pos3 as int) == enc_withdraw(result));
                                assert forall|v: Withdraw| is_prefix_at(data@, pos as int, enc_withdraw(v))
                                    implies (result == v && pos3 == pos + enc_withdraw(v).len()) by {
                                    lemma_withdraw_parts(data@, pos as int, v);
                                    assert(is_prefix_at(data@, pos as int, enc_u16(v.market_index)));
                                    assert(is_prefix_at(data@, pos1 as int, enc_u64(v.amount)));
                                    assert(is_prefix_at(data@, pos2 as int, enc_bool(v.reduce_only)));
                                }
                            }
                            Some((result, pos3))
                            }
                        }
                    }
                }
            }
        }
}

pub fn write_withdraw(out: &mut Vec<u8>, p: &Withdraw)
    ensures
        final(out)@ == old(out)@ + enc_withdraw(*p),
{
    write_u16(out, p.market_index);
    write_u64(out, p.amount);
    proof {
        lemma_add_assoc(old(out)@, enc_u16(p.market_index), enc_u64(p.amount));
    }
    write_bool(out, p.reduce_only);
    proof {
        lemma_add_assoc(old(out)@, enc_u16(p.market_index) + enc_u64(p.amount), enc_bool(p.reduce_only));
    }
    proof {
        assert(out@ == old(out)@ + enc_withdraw(*p));
    }
}

#[derive(Clone, Debug, PartialEq)]
pub struct TransferDeposit {
    pub market_index: u16,
    pub amount: u64,
}

pub open spec fn enc_transfer_deposit(p: TransferDeposit) -> Seq<u8> {
    enc_u16(p.market_index) + enc_u64(p.amount)
}

proof fn lemma_transfer_deposit_parts(data: Seq<u8>, pos: int, v: TransferDeposit)
    requires
        is_prefix_at(data, pos, enc_transfer_deposit(v)),
    ensures
        is_prefix_at(data, pos, enc_u16(v.market_index)),
        is_prefix_at(data, pos + enc_u16(v.market_index).len(), enc_u64(v.amount)),
{
    lemma_enc_lens();
    lemma_split_prefix(data, pos, enc_u16(v.market_index), enc_u64(v.amount));
}

pub fn read_transfer_deposit(data: &[u8], pos: usize) -> (r: Option<(TransferDeposit, usize)>)
    ensures
        r matches Some(p) ==> pos <= p.1 <= data@.len()
            && data@.subrange(pos as int, p.1 as int) == enc_transfer_deposit(p.0)
            && p.1 == pos + enc_transfer_deposit(p.0).len(),
        forall|v: TransferDeposit| is_prefix_at(data@, pos as int, enc_transfer_deposit(v))
            ==> (r matches Some(p) && p.0 == v && p.1 == pos + enc_transfer_deposit(v).len()),
{
    proof {
        lemma_enc_lens();
    }
    match read_u16(data, pos) {
        None => {
            proof {
                assert forall|v: TransferDeposit| !(is_prefix_at(data@, pos as int, enc_transfer_deposit(v))) by {
                    if is_prefix_at(data@, pos as int, enc_transfer_deposit(v)) {
                        lemma_transfer_deposit_parts(data@, pos as int, v);
                        assert(is_prefix_at(data@, pos as int, enc_u16(v.market_index)));
                    }
                }
            }
            None
        }
        Some((market_index, pos1)) => {
            match read_u64(data, pos1) {
                None => {
                    proof {
                        assert forall|v: TransferDeposit| !(is_prefix_at(data@, pos as int, enc_transfer_deposit(v))) by {
                            if is_prefix_at(data@, pos as int, enc_transfer_deposit(v)) {
                                lemma_transfer_deposit_parts(data@, pos as int, v);
                                assert(is_prefix_at(data@, pos as int, enc_u16(v.market_index)));
                                assert(is_prefix_at(data@, pos1 as int, enc_u64(v.amount)));
                            }
                        }
                    }
                    None
                }
                Some((amount, pos2)) => {
                    let result = TransferDeposit { market_index, amount };
                    proof {
                        lemma_join_at(data@, pos as int, pos1 as int, pos2 as int);
                        assert(data@.subrange(pos as int, pos2 as int) == enc_transfer_deposit(result));
                        assert forall|v: TransferDeposit| is_prefix_at(data@, pos as int, enc_transfer_deposit(v))
                            implies (result == v && pos2 == pos + enc_transfer_deposit(v).len()) by {
                            lemma_transfer_deposit_parts(data@, pos as int, v);
                            assert(is_prefix_at(data@, pos as int, enc_u16(v.market_index)));
                            assert(is_prefix_at(data@, pos1 as int, enc_u64(v.amount)));
                        }
                    }
                    Some((result, pos2))
                    }
                }
            }
        }
}

pub fn write_transfer_deposit(out: &mut Vec<u8>, p: &TransferDeposit)
    ensures
        final(out)@ == old(out)@ + enc_transfer_deposit(*p),
{
    write_u16(out, p.market_index);
    write_u64(out, p.amount);
    proof {
        lemma_add_assoc(old(out)@, enc_u16(p.market_index), enc_u64(p.amount));
    }
    proof {
        assert(out@ == old(out)@ + enc_transfer_deposit(*p));
    }
}

#[derive(Clone, Debug, PartialEq)]
pub struct PlacePerpOrder {
    pub params: OrderParams,
}

pub open spec fn enc_place_perp_order(p: PlacePerpOrder) -> Seq<u8> {
    enc_order_params(p.params)
}

pub fn read_place_perp_order(data: &[u8], pos: usize) -> (r: Option<(PlacePerpOrder, usize)>)
    ensures
        r matches Some(p) ==> pos <= p.1 <= data@.len()
            && data@.subrange(pos as int, p.1 as int) == enc_place_perp_order(p.0)
            && p.1 == pos + enc_place_perp_order(p.0).len(),
        forall|v: PlacePerpOrder| is_prefix_at(data@, pos as int, enc_place_perp_order(v))
            ==> (r matches Some(p) && p.0 == v && p.1 == pos + enc_place_perp_order(v).len()),
{
    proof {
        lemma_enc_lens();
    }
    match read_order_params(data, pos) {
        None => {
            proof {
                assert forall|v: PlacePerpOrder| !(is_prefix_at(data@, pos as int, enc_place_perp_order(v))) by {
                    if is_prefix_at(data@, pos as int, enc_place_perp_order(v)) {
                        assert(is_prefix_at(data@, pos as int, enc_order_params(v.params)));
                    }
                }
            }
            None
        }
        Some((params, pos1)) => {
            let result = PlacePerpOrder { params };
            proof {
                assert(data@.subrange(pos as int, pos1 as int) == enc_place_perp_order(result));
                assert forall|v: PlacePerpOrder| is_prefix_at(data@, pos as int, enc_place_perp_order(v))
                    implies (result == v && pos1 == pos + enc_place_perp_order(v).len()) by {
                    assert(is_prefix_at(data@, pos as int, enc_order_params(v.params)));
                }
            }
            Some((result, pos1))
            }
        }
}

pub fn write_place_perp_order(out: &mut Vec<u8>, p: &PlacePerpOrder)
    ensures
        final(out)@ == old(out)@ + enc_place_perp_order(*p),
{
    write_order_params(out, &p.params);
    proof {
        assert(out@ == old(out)@ + enc_place_perp_order(*p));
    }
}

#[derive(Clone, Debug, PartialEq)]
pub struct CancelOrder {
    pub order_id: Option<u32>,
}

pub open spec fn enc_cancel_order(p: CancelOrder) -> Seq<u8> {
    enc_opt_u32(p.order_id)
}

pub fn read_cancel_order(data: &[u8], pos: usize) -> (r: Option<(CancelOrder, usize)>)
    ensures
        r matches Some(p) ==> pos <= p.1 <= data@.len()
            && data@.subrange(pos as int, p.1 as int) == enc_cancel_order(p.0)
            && p.1 == pos + enc_cancel_order(p.0).len(),
        forall|v: CancelOrder| is_prefix_at(data@, pos as int, enc_cancel_order(v))
            ==> (r matches Some(p) && p.0 == v && p.1 == pos + enc_cancel_order(v).len()),
{
    proof {
        lemma_enc_lens();
    }
    match read_opt_u32(data, pos) {
        None => {
            proof {
                assert forall|v: CancelOrder| !(is_prefix_at(data@, pos as int, enc_cancel_order(v))) by {
                    if is_prefix_at(data@, pos as int, enc_cancel_order(v)) {
                        assert(is_prefix_at(data@, pos as int, enc_opt_u32(v.order_id)));
                    }
                }
            }
            None
        }
        Some((order_id, pos1)) => {
            let result = CancelOrder { order_id };
            proof {
                assert(data@.subrange(pos as int, pos1 as int) == enc_cancel_order(result));
                assert forall|v: CancelOrder| is_prefix_at(data@, pos as int, enc_cancel_order(v))
                    implies (result == v && pos1 == pos + enc_cancel_order(v).len()) by {
                    assert(is_prefix_at(data@, pos as int, enc_opt_u32(v.order_id)));
                }
            }
            Some((result, pos1))
            }
        }
}

pub fn write_cancel_order(out: &mut Vec<u8>, p: &CancelOrder)
    ensures
        final(out)@ == old(out)@ + enc_cancel_order(*p),
{
    write_opt_u32(out, p.order_id);
    proof {
        assert(out@ == old(out)@ + enc_cancel_order(*p));
    }
}

#[derive(Clone, Debug, PartialEq)]
pub struct CancelOrderByUserId {
    pub user_order_id: u8,
}

pub open spec fn enc_cancel_order_by_user_id(p: CancelOrderByUserId) -> Seq<u8> {
    enc_u8(p.user_order_id)
}

pub fn read_cancel_order_by_user_id(data: &[u8], pos: usize) -> (r: Option<(CancelOrderByUserId, usize)>)
    ensures
        r matches Some(p) ==> pos <= p.1 <= data@.len()
            && data@.subrange(pos as int, p.1 as int) == enc_cancel_order_by_user_id(p.0)
            && p.1 == pos + enc_cancel_order_by_user_id(p.0).len(),
        forall|v: CancelOrderByUserId| is_prefix_at(data@, pos as int, enc_cancel_order_by_user_id(v))
            ==> (r matches Some(p) && p.0 == v && p.1 == pos + enc_cancel_order_by_user_id(v).len()),
{
    proof {
        lemma_enc_lens();
    }
    match read_u8(data, pos) {
        None => {
            proof {
                assert forall|v: CancelOrderByUserId| !(is_prefix_at(data@, pos as int, enc_cancel_order_by_user_id(v))) by {
                    if is_prefix_at(data@, pos as int, enc_cancel_order_by_user_id(v)) {
                        assert(is_prefix_at(data@, pos as int, enc_u8(v.user_order_id)));
                    }
                }
            }
            None
        }
        Some((user_order_id, pos1)) => {
            let result = CancelOrderByUserId { user_order_id };
            proof {
                assert(data@.subrange(pos as int, pos1 as int) == enc_cancel_order_by_user_id(result));
                assert forall|v: CancelOrderByUserId| is_prefix_at(data@, pos as int, enc_cancel_order_by_user_id(v))
                    implies (result == v && pos1 == pos + enc_cancel_order_by_user_id(v).len()) by {
                    assert(is_prefix_at(data@, pos as int, enc_u8(v.user_order_id)));
                }
            }
            Some((result, pos1))
            }
        }
}

pub fn write_cancel_order_by_user_id(out: &mut Vec<u8>, p: &CancelOrderByUserId)
    ensures
        final(out)@ == old(out)@ + enc_cancel_order_by_user_id(*p),
{
    write_u8(out, p.user_order_id);
    proof {
        assert(out@ == old(out)@ + enc_cancel_order_by_user_id(*p));
    }
}

#[derive(Clone, Debug, PartialEq)]
pub struct CancelOrders {
    pub market_type: Option<MarketType>,
    pub market_index: Option<u16>,
    pub direction: Option<PositionDirection>,
}

pub open spec fn enc_cancel_orders(p: CancelOrders) -> Seq<u8> {
    enc_opt_market_type(p.market_type) + enc_opt_u16(p.market_index) + enc_opt_position_direction(p.direction)
}

proof fn lemma_cancel_orders_parts(data: Seq<u8>, pos: int, v: CancelOrders)
    requires
        is_prefix_at(data, pos, enc_cancel_orders(v)),
    ensures
        is_prefix_at(data, pos, enc_opt_market_type(v.market_type)),
        is_prefix_at(data, pos + enc_opt_market_type(v.market_type).len(), enc_opt_u16(v.market_index)),
        is_prefix_at(data, pos + enc_opt_market_type(v.market_type).len() + enc_opt_u16(v.market_index).len(), enc_opt_position_direction(v.direction)),
{
    lemma_enc_lens();
    lemma_split_prefix(data, pos, enc_opt_market_type(v.market_type) + enc_opt_u16(v.market_index), enc_opt_position_direction(v.direction));
    lemma_split_prefix(data, pos, enc_opt_market_type(v.market_type), enc_opt_u16(v.market_index));
}

pub fn read_cancel_orders(data: &[u8], pos: usize) -> (r: Option<(CancelOrders, usize)>)
    ensures
        r matches Some(p) ==> pos <= p.1 <= data@.len()
            && data@.subrange(pos as int, p.1 as int) == enc_cancel_orders(p.0)
            && p.1 == pos + enc_cancel_orders(p.0).len(),
        forall|v: CancelOrders| is_prefix_at(data@, pos as int, enc_cancel_orders(v))
            ==> (r matches Some(p) && p.0 == v && p.1 == pos + enc_cancel_orders(v).len()),
{
    proof {
        lemma_enc_lens();
    }
    match read_opt_market_type(data, pos) {
        None => {
            proof {
                assert forall|v: CancelOrders| !(is_prefix_at(data@, pos as int, enc_cancel_orders(v))) by {
                    if is_prefix_at(data@, pos as int, enc_cancel_orders(v)) {
                        lemma_cancel_orders_parts(data@, pos as int, v);
                        assert(is_prefix_at(data@, pos as int, enc_opt_market_type(v.market_type)));
                    }
                }
            }
            None
        }
        Some((market_type, pos1)) => {
            match read_opt_u16(data, pos1) {
                None => {
                    proof {
                        assert forall|v: CancelOrders| !(is_prefix_at(data@, pos as int, enc_cancel_orders(v))) by {
                            if is_prefix_at(data@, pos as int, enc_cancel_orders(v)) {
                                lemma_cancel_orders_parts(data@, pos as int, v);
                                assert(is_prefix_at(data@, pos as int, enc_opt_market_type(v.market_type)));
                                assert(is_prefix_at(data@, pos1 as int, enc_opt_u16(v.market_index)));
                            }
                        }
                    }
                    None
                }
                Some((market_index, pos2)) => {
                    match read_opt_position_direction(data, pos2) {
                        None => {
                            proof {
                                assert forall|v: CancelOrders| !(is_prefix_at(data@, pos as int, enc_cancel_orders(v))) by {
                                    if is_prefix_at(data@, pos as int, enc_cancel_orders(v)) {
                                        lemma_cancel_orders_parts(data@, pos as int, v);
                                        assert(is_prefix_at(data@, pos as int, enc_opt_market_type(v.market_type)));
                                        assert(is_prefix_at(data@, pos1 as int, enc_opt_u16(v.market_index)));
                                        assert(is_prefix_at(data@, pos2 as int, enc_opt_position_direction(v.direction)));
                                    }
                                }
                            }
                            None
                        }
                        Some((direction, pos3)) => {
                            let result = CancelOrders { market_type, market_index, direction };
                            proof {
                                lemma_join_at(data@, pos as int, pos1 as int, pos2 as int);
                                lemma_join_at(data@, pos as int, pos2 as int, pos3 as int);
                                assert(data@.subrange(pos as int, pos3 as int) == enc_cancel_orders(result));
                                assert forall|v: CancelOrders| is_prefix_at(data@, pos as int, enc_cancel_orders(v))
                                    implies (result == v && pos3 == pos + enc_cancel_orders(v).len()) by {
                                    lemma_cancel_orders_parts(data@, pos as int, v);
                                    assert(is_prefix_at(data@, pos as int, enc_opt_market_type(v.market_type)));
                                    assert(is_prefix_at(data@, pos1 as int, enc_opt_u16(v.market_index)));
                                    assert(is_prefix_at(data@, pos2 as int, enc_opt_position_direction(v.direction)));
                                }
                            }
                            Some((result, pos3))
                            }
                        }
                    }
                }
            }
        }
}

pub fn write_cancel_orders(out: &mut Vec<u8>, p: &CancelOrders)
    ensures
        final(out)@ == old(out)@ + enc_cancel_orders(*p),
{
    write_opt_market_type(out, p.market_type);
    write_opt_u16(out, p.market_index);
    proof {
        lemma_add_assoc(old(out)@, enc_opt_market_type(p.market_type), enc_opt_u16(p.market_index));
    }
    write_opt_position_direction(out, p.direction);
    proof {
        lemma_add_assoc(old(out)@, enc_opt_market_type(p.market_type) + enc_opt_u16(p.market_index), enc_opt_position_direction(p.direction));
    }
    proof {
        assert(out@ == old(out)@ + enc_cancel_orders(*p));
    }
}

#[derive(Clone, Debug, PartialEq)]
pub struct CancelOrdersByIds {
    pub order_ids: Vec<u32>,
}

pub open spec fn enc_cancel_orders_by_ids(p: CancelOrdersByIds) -> Seq<u8> {
    enc_vec_u32(p.order_ids@)
}

pub fn read_cancel_orders_by_ids(data: &[u8], pos: usize) -> (r: Option<(CancelOrdersByIds, usize)>)
    ensures
        r matches Some(p) ==> pos <= p.1 <= data@.len()
            && data@.subrange(pos as int, p.1 as int) == enc_cancel_orders_by_ids(p.0)
            && p.1 == pos + enc_cancel_orders_by_ids(p.0).len() && p.0.order_ids@.len() <= u32::MAX,
        forall|v: CancelOrdersByIds| v.order_ids@.len() <= u32::MAX && is_prefix_at(data@, pos as int, enc_cancel_orders_by_ids(v))
            ==> (r matches Some(p) && p.0.order_ids@ == v.order_ids@ && p.1 == pos + enc_cancel_orders_by_ids(v).len()),
{
    proof {
        lemma_enc_lens();
    }
    match read_vec_u32(data, pos) {
        None => {
            proof {
                assert forall|v: CancelOrdersByIds| !(v.order_ids@.len() <= u32::MAX && is_prefix_at(data@, pos as int, enc_cancel_orders_by_ids(v))) by {
                    if v.order_ids@.len() <= u32::MAX && is_prefix_at(data@, pos as int, enc_cancel_orders_by_ids(v)) {
                        assert(is_prefix_at(data@, pos as int, enc_vec_u32(v.order_ids@)));
                    }
                }
            }
            None
        }
        Some((order_ids, pos1)) => {
            let result = CancelOrdersByIds { order_ids };
            proof {
                assert(data@.subrange(pos as int, pos1 as int) == enc_cancel_orders_by_ids(result));
                assert forall|v: CancelOrdersByIds| v.order_ids@.len() <= u32::MAX && is_prefix_at(data@, pos as int, enc_cancel_orders_by_ids(v))
                    implies (result.order_ids@ == v.order_ids@ && pos1 == pos + enc_cancel_orders_by_ids(v).len()) by {
                    assert(is_prefix_at(data@, pos as int, enc_vec_u32(v.order_ids@)));
                }
            }
            Some((result, pos1))
            }
        }
}

pub fn write_cancel_orders_by_ids(out: &mut Vec<u8>, p: &CancelOrdersByIds)
    requires
        p.order_ids@.len() <= u32::MAX,
    ensures
        final(out)@ == old(out)@ + enc_cancel_orders_by_ids(*p),
{
    write_vec_u32(out, &p.order_ids);
    proof {
        assert(out@ == old(out)@ + enc_cancel_orders_by_ids(*p));
    }
}

#[derive(Clone, Debug, PartialEq)]
pub struct ModifyOrder {
    pub order_id: Option<u32>,
    pub modify_order_params: ModifyOrderParams,
}

pub open spec fn enc_modify_order(p: ModifyOrder) -> Seq<u8> {
    enc_opt_u32(p.order_id) + enc_modify_order_params(p.modify_order_params)
}

proof fn lemma_modify_order_parts(data: Seq<u8>, pos: int, v: ModifyOrder)
    requires
        is_prefix_at(data, pos, enc_modify_order(v)),
    ensures
        is_prefix_at(data, pos, enc_opt_u32(v.order_id)),
        is_prefix_at(data, pos + enc_opt_u32(v.order_id).len(), enc_modify_order_params(v.modify_order_params)),
{
    lemma_enc_lens();
    lemma_split_prefix(data, pos, enc_opt_u32(v.order_id), enc_modify_order_params(v.modify_order_params));
}

pub fn read_modify_order(data: &[u8], pos: usize) -> (r: Option<(ModifyOrder, usize)>)
    ensures
        r matches Some(p) ==> pos <= p.1 <= data@.len()
            && data@.subrange(pos as int, p.1 as int) == enc_modify_order(p.0)
            && p.1 == pos + enc_modify_order(p.0).len(),
        forall|v: ModifyOrder| is_prefix_at(data@, pos as int, enc_modify_order(v))
            ==> (r matches Some(p) && p.0 == v && p.1 == pos + enc_modify_order(v).len()),
{
    proof {
        lemma_enc_lens();
    }
    match read_opt_u32(data, pos) {
        None => {
            proof {
                assert forall|v: ModifyOrder| !(is_prefix_at(data@, pos as int, enc_modify_order(v))) by {
                    if is_prefix_at(data@, pos as int, enc_modify_order(v)) {
                        lemma_modify_order_parts(data@, pos as int, v);
                        assert(is_prefix_at(data@, pos as int, enc_opt_u32(v.order_id)));
                    }
                }
            }
            None
        }
        Some((order_id, pos1)) => {
            match read_modify_order_params(data, pos1) {
                None => {
                    proof {
                        assert forall|v: ModifyOrder| !(is_prefix_at(data@, pos as int, enc_modify_order(v))) by {
                            if is_prefix_at(data@, pos as int, enc_modify_order(v)) {
                                lemma_modify_order_parts(data@, pos as int, v);
                                assert(is_prefix_at(data@, pos as int, enc_opt_u32(v.order_id)));
                                assert(is_prefix_at(data@, pos1 as int, enc_modify_order_params(v.modify_order_params)));
                            }
                        }
                    }
                    None
                }
                Some((modify_order_params, pos2)) => {
                    let result = ModifyOrder { order_id, modify_order_params };
                    proof {
                        lemma_join_at(data@, pos as int, pos1 as int, pos2 as int);
                        assert(data@.subrange(pos as int, pos2 as int) == enc_modify_order(result));
                        assert forall|v: ModifyOrder| is_prefix_at(data@, pos as int, enc_modify_order(v))
                            implies (result == v && pos2 == pos + enc_modify_order(v).len()) by {
                            lemma_modify_order_parts(data@, pos as int, v);
                            assert(is_prefix_at(data@, pos as int, enc_opt_u32(v.order_id)));
                            assert(is_prefix_at(data@, pos1 as int, enc_modify_order_params(v.modify_order_params)));
                        }
                    }
                    Some((result, pos2))
                    }
                }
            }
        }
}

pub fn write_modify_order(out: &mut Vec<u8>, p: &ModifyOrder)
    ensures
        final(out)@ == old(out)@ + enc_modify_order(*p),
{
    write_opt_u32(out, p.order_id);
    write_modify_order_params(out, &p.modify_order_params);
    proof {
        lemma_add_assoc(old(out)@, enc_opt_u32(p.order_id), enc_modify_order_params(p.modify_order_params));
    }
    proof {
        assert(out@ == old(out)@ + enc_modify_order(*p));
    }
}

#[derive(Clone, Debug, PartialEq)]
pub struct PlaceAndTakePerpOrder {
    pub params: OrderParams,
    pub maker_order_id: Option<u32>,
}

pub open spec fn enc_place_and_take_perp_order(p: PlaceAndTakePerpOrder) -> Seq<u8> {
    enc_order_params(p.params) + enc_opt_u32(p.maker_order_id)
}

proof fn lemma_place_and_take_perp_order_parts(data: Seq<u8>, pos: int, v: PlaceAndTakePerpOrder)
    requires
        is_prefix_at(data, pos, enc_place_and_take_perp_order(v)),
    ensures
        is_prefix_at(data, pos, enc_order_params(v.params)),
        is_prefix_at(data, pos + enc_order_params(v.params).len(), enc_opt_u32(v.maker_order_id)),
{
    lemma_enc_lens();
    lemma_split_prefix(data, pos, enc_order_params(v.params), enc_opt_u32(v.maker_order_id));
}

pub fn read_place_and_take_perp_order(data: &[u8], pos: usize) -> (r: Option<(PlaceAndTakePerpOrder, usize)>)
    ensures
        r matches Some(p) ==> pos <= p.1 <= data@.len()
            && data@.subrange(pos as int, p.1 as int) == enc_place_and_take_perp_order(p.0)
            && p.1 == pos + enc_place_and_take_perp_order(p.0).len(),
        forall|v: PlaceAndTakePerpOrder| is_prefix_at(data@, pos as int, enc_place_and_take_perp_order(v))
            ==> (r matches Some(p) && p.0 == v && p.1 == pos + enc_place_and_take_perp_order(v).len()),
{
    proof {
        lemma_enc_lens();
    }
    match read_order_params(data, pos) {
        None => {
            proof {
                assert forall|v: PlaceAndTakePerpOrder| !(is_prefix_at(data@, pos as int, enc_place_and_take_perp_order(v))) by {
                    if is_prefix_at(data@, pos as int, enc_place_and_take_perp_order(v)) {
                        lemma_place_and_take_perp_order_parts(data@, pos as int, v);
                        assert(is_prefix_at(data@, pos as int, enc_order_params(v.params)));
                    }
                }
            }
            None
        }
        Some((params, pos1)) => {
            match read_opt_u32(data, pos1) {
                None => {
                    proof {
                        assert forall|v: PlaceAndTakePerpOrder| !(is_prefix_at(data@, pos as int, enc_place_and_take_perp_order(v))) by {
                            if is_prefix_at(data@, pos as int, enc_place_and_take_perp_order(v)) {
                                lemma_place_and_take_perp_order_parts(data@, pos as int, v);
                                assert(is_prefix_at(data@, pos as int, enc_order_params(v.params)));
                                assert(is_prefix_at(data@, pos1 as int, enc_opt_u32(v.maker_order_id)));
                            }
                        }
                    }
                    None
                }
                Some((maker_order_id, pos2)) => {
                    let result = PlaceAndTakePerpOrder { params, maker_order_id };
                    proof {
                        lemma_join_at(data@, pos as int, pos1 as int, pos2 as int);
                        assert(data@.subrange(pos as int, pos2 as int) == enc_place_and_take_perp_order(result));
                        assert forall|v: PlaceAndTakePerpOrder| is_prefix_at(data@, pos as int, enc_place_and_take_perp_order(v))
                            implies (result == v && pos2 == pos + enc_place_and_take_perp_order(v).len()) by {
                            lemma_place_and_take_perp_order_parts(data@, pos as int, v);
                            assert(is_prefix_at(data@, pos as int, enc_order_params(v.params)));
                            assert(is_prefix_at(data@, pos1 as int, enc_opt_u32(v.maker_order_id)));
                        }
                    }
                    Some((result, pos2))
                    }
                }
            }
        }
}

pub fn write_place_and_take_perp_order(out: &mut Vec<u8>, p: &PlaceAndTakePerpOrder)
    ensures
        final(out)@ == old(out)@ + enc_place_and_take_perp_order(*p),
{
    write_order_params(out, &p.params);
    write_opt_u32(out, p.maker_order_id);
    proof {
        lemma_add_assoc(old(out)@, enc_order_params(p.params), enc_opt_u32(p.maker_order_id));
    }
    proof {
        assert(out@ == old(out)@ + enc_place_and_take_perp_order(*p));
    }
}

#[derive(Clone, Debug, PartialEq)]
pub struct PlaceAndMakePerpOrder {
    pub params: OrderParams,
    pub taker_order_id: u32,
}

pub open spec fn enc_place_and_make_perp_order(p: PlaceAndMakePerpOrder) -> Seq<u8> {
    enc_order_params(p.params) + enc_u32(p.taker_order_id)
}

proof fn lemma_place_and_make_perp_order_parts(data: Seq<u8>, pos: int, v: PlaceAndMakePerpOrder)
    requires
        is_prefix_at(data, pos, enc_place_and_make_perp_order(v)),
    ensures
        is_prefix_at(data, pos, enc_order_params(v.params)),
        is_prefix_at(data, pos + enc_order_params(v.params).len(), enc_u32(v.taker_order_id)),
{
    lemma_enc_lens();
    lemma_split_prefix(data, pos, enc_order_params(v.params), enc_u32(v.taker_order_id));
}

pub fn read_place_and_make_perp_order(data: &[u8], pos: usize) -> (r: Option<(PlaceAndMakePerpOrder, usize)>)
    ensures
        r matches Some(p) ==> pos <= p.1 <= data@.len()
            && data@.subrange(pos as int, p.1 as int) == enc_place_and_make_perp_order(p.0)
            && p.1 == pos + enc_place_and_make_perp_order(p.0).len(),
        forall|v: PlaceAndMakePerpOrder| is_prefix_at(data@, pos as int, enc_place_and_make_perp_order(v))
            ==> (r matches Some(p) && p.0 == v && p.1 == pos + enc_place_and_make_perp_order(v).len()),
{
    proof {
        lemma_enc_lens();
    }
    match read_order_params(data, pos) {
        None => {
            proof {
                assert forall|v: PlaceAndMakePerpOrder| !(is_prefix_at(data@, pos as int, enc_place_and_make_perp_order(v))) by {
                    if is_prefix_at(data@, pos as int, enc_place_and_make_perp_order(v)) {
                        lemma_place_and_make_perp_order_parts(data@, pos as int, v);
                        assert(is_prefix_at(data@, pos as int, enc_order_params(v.params)));
                    }
                }
            }
            None
        }
        Some((params, pos1)) => {
            match read_u32(data, pos1) {
                None => {
                    proof {
                        assert forall|v: PlaceAndMakePerpOrder| !(is_prefix_at(data@, pos as int, enc_place_and_make_perp_order(v))) by {
                            if is_prefix_at(data@, pos as int, enc_place_and_make_perp_order(v)) {
                                lemma_place_and_make_perp_order_parts(data@, pos as int, v);
                                assert(is_prefix_at(data@, pos as int, enc_order_params(v.params)));
                                assert(is_prefix_at(data@, pos1 as int, enc_u32(v.taker_order_id)));
                            }
                        }
                    }
                    None
                }
                Some((taker_order_id, pos2)) => {
                    let result = PlaceAndMakePerpOrder { params, taker_order_id };
                    proof {
                        lemma_join_at(data@, pos as int, pos1 as int, pos2 as int);
                        assert(data@.subrange(pos as int, pos2 as int) == enc_place_and_make_perp_order(result));
                        assert forall|v: PlaceAndMakePerpOrder| is_prefix_at(data@, pos as int, enc_place_and_make_perp_order(v))
                            implies (result == v && pos2 == pos + enc_place_and_make_perp_order(v).len()) by {
                            lemma_place_and_make_perp_order_parts(data@, pos as int, v);
                            assert(is_prefix_at(data@, pos as int, enc_order_params(v.params)));
                            assert(is_prefix_at(data@, pos1 as int, enc_u32(v.taker_order_id)));
                        }
                    }
                    Some((result, pos2))
                    }
                }
            }
        }
}

pub fn write_place_and_make_perp_order(out: &mut Vec<u8>, p: &PlaceAndMakePerpOrder)
    ensures
        final(out)@ == old(out)@ + enc_place_and_make_perp_order(*p),
{
    write_order_params(out, &p.params);
    write_u32(out, p.taker_order_id);
    proof {
        lemma_add_assoc(old(out)@, enc_order_params(p.params), enc_u32(p.taker_order_id));
    }
    proof {
        assert(out@ == old(out)@ + enc_place_and_make_perp_order(*p));
    }
}

#[derive(Clone, Debug, PartialEq)]
pub struct PlaceSpotOrder {
    pub params: OrderParams,
}

pub open spec fn enc_place_spot_order(p: PlaceSpotOrder) -> Seq<u8> {
    enc_order_params(p.params)
}

pub fn read_place_spot_order(data: &[u8], pos: usize) -> (r: Option<(PlaceSpotOrder, usize)>)
    ensures
        r matches Some(p) ==> pos <= p.1 <= data@.len()
            && data@.subrange(pos as int, p.1 as int) == enc_place_spot_order(p.0)
            && p.1 == pos + enc_place_spot_order(p.0).len(),
        forall|v: PlaceSpotOrder| is_prefix_at(data@, pos as int, enc_place_spot_order(v))
            ==> (r matches Some(p) && p.0 == v && p.1 == pos + enc_place_spot_order(v).len()),
{
    proof {
        lemma_enc_lens();
    }
    match read_order_params(data, pos) {
        None => {
            proof {
                assert forall|v: PlaceSpotOrder| !(is_prefix_at(data@, pos as int, enc_place_spot_order(v))) by {
                    if is_prefix_at(data@, pos as int, enc_place_spot_order(v)) {
                        assert(is_prefix_at(data@, pos as int, enc_order_params(v.params)));
                    }
                }
            }
            None
        }
        Some((params, pos1)) => {
            let result = PlaceSpotOrder { params };
            proof {
                assert(data@.subrange(pos as int, pos1 as int) == enc_place_spot_order(result));
                assert forall|v: PlaceSpotOrder| is_prefix_at(data@, pos as int, enc_place_spot_order(v))
                    implies (result == v && pos1 == pos + enc_place_spot_order(v).len()) by {
                    assert(is_prefix_at(data@, pos as int, enc_order_params(v.params)));
                }
            }
            Some((result, pos1))
            }
        }
}

pub fn write_place_spot_order(out: &mut Vec<u8>, p: &PlaceSpotOrder)
    ensures
        final(out)@ == old(out)@ + enc_place_spot_order(*p),
{
    write_order_params(out, &p.params);
    proof {
        assert(out@ == old(out)@ + enc_place_spot_order(*p));
    }
}

#[derive(Clone, Debug, PartialEq)]
pub struct PlaceOrders {
    pub params: Vec<OrderParams>,
}

pub open spec fn enc_place_orders(p: PlaceOrders) -> Seq<u8> {
    enc_vec_order_params(p.params@)
}

pub fn read_place_orders(data: &[u8], pos: usize) -> (r: Option<(PlaceOrders, usize)>)
    ensures
        r matches Some(p) ==> pos <= p.1 <= data@.len()
            && data@.subrange(pos as int, p.1 as int) == enc_place_orders(p.0)
            && p.1 == pos + enc_place_orders(p.0).len() && p.0.params@.len() <= u32::MAX,
        forall|v: PlaceOrders| v.params@.len() <= u32::MAX && is_prefix_at(data@, pos as int, enc_place_orders(v))
            ==> (r matches Some(p) && p.0.params@ == v.params@ && p.1 == pos + enc_place_orders(v).len()),
{
    proof {
        lemma_enc_lens();
    }
    match read_vec_order_params(data, pos) {
        None => {
            proof {
                assert forall|v: PlaceOrders| !(v.params@.len() <= u32::MAX && is_prefix_at(data@, pos as int, enc_place_orders(v))) by {
                    if v.params@.len() <= u32::MAX && is_prefix_at(data@, pos as int, enc_place_orders(v)) {
                        assert(is_prefix_at(data@, pos as int, enc_vec_order_params(v.params@)));
                    }
                }
            }
            None
        }
        Some((params, pos1)) => {
            let result = PlaceOrders { params };
            proof {
                assert(data@.subrange(pos as int, pos1 as int) == enc_place_orders(result));
                assert forall|v: PlaceOrders| v.params@.len() <= u32::MAX && is_prefix_at(data@, pos as int, enc_place_orders(v))
                    implies (result.params@ == v.params@ && pos1 == pos + enc_place_orders(v).len()) by {
                    assert(is_prefix_at(data@, pos as int, enc_vec_order_params(v.params@)));
                }
            }
            Some((result, pos1))
            }
        }
}

pub fn write_place_orders(out: &mut Vec<u8>, p: &PlaceOrders)
    requires
        p.params@.len() <= u32::MAX,
    ensures
        final(out)@ == old(out)@ + enc_place_orders(*p),
{
    write_vec_order_params(out, &p.params);
    proof {
        assert(out@ == old(out)@ + enc_place_orders(*p));
    }
}

#[derive(Clone, Debug, PartialEq)]
pub struct BeginSwap {
    pub in_market_index: u16,
    pub out_market_index: u16,
    pub amount_in: u64,
}

pub open spec fn enc_begin_swap(p: BeginSwap) -> Seq<u8> {
    enc_u16(p.in_market_index) + enc_u16(p.out_market_index) + enc_u64(p.amount_in)
}

proof fn lemma_begin_swap_parts(data: Seq<u8>, pos: int, v: BeginSwap)
    requires
        is_prefix_at(data, pos, enc_begin_swap(v)),
    ensures
        is_prefix_at(data, pos, enc_u16(v.in_market_index)),
        is_prefix_at(data, pos + enc_u16(v.in_market_index).len(), enc_u16(v.out_market_index)),
        is_prefix_at(data, pos + enc_u16(v.in_market_index).len() + enc_u16(v.out_market_index).len(), enc_u64(v.amount_in)),
{
    lemma_enc_lens();
    lemma_split_prefix(data, pos, enc_u16(v.in_market_index) + enc_u16(v.out_market_index), enc_u64(v.amount_in));
    lemma_split_prefix(data, pos, enc_u16(v.in_market_index), enc_u16(v.out_market_index));
}

pub fn read_begin_swap(data: &[u8], pos: usize) -> (r: Option<(BeginSwap, usize)>)
    ensures
        r matches Some(p) ==> pos <= p.1 <= data@.len()
            && data@.subrange(pos as int, p.1 as int) == enc_begin_swap(p.0)
            && p.1 == pos + enc_begin_swap(p.0).len(),
        forall|v: BeginSwap| is_prefix_at(data@, pos as int, enc_begin_swap(v))
            ==> (r matches Some(p) && p.0 == v && p.1 == pos + enc_begin_swap(v).len()),
{
    proof {
        lemma_enc_lens();
    }
    match read_u16(data, pos) {
        None => {
            proof {
                assert forall|v: BeginSwap| !(is_prefix_at(data@, pos as int, enc_begin_swap(v))) by {
                    if is_prefix_at(data@, pos as int, enc_begin_swap(v)) {
                        lemma_begin_swap_parts(data@, pos as int, v);
                        assert(is_prefix_at(data@, pos as int, enc_u16(v.in_market_index)));
                    }
                }
            }
            None
        }
        Some((in_market_index, pos1)) => {
            match read_u16(data, pos1) {
                None => {
                    proof {
                        assert forall|v: BeginSwap| !(is_prefix_at(data@, pos as int, enc_begin_swap(v))) by {
                            if is_prefix_at(data@, pos as int, enc_begin_swap(v)) {
                                lemma_begin_swap_parts(data@, pos as int, v);
                                assert(is_prefix_at(data@, pos as int, enc_u16(v.in_market_index)));
                                assert(is_prefix_at(data@, pos1 as int, enc_u16(v.out_market_index)));
                            }
                        }
                    }
                    None
                }
                Some((out_market_index, pos2)) => {
                    match read_u64(data, pos2) {
                        None => {
                            proof {
                                assert forall|v: BeginSwap| !(is_prefix_at(data@, pos as int, enc_begin_swap(v))) by {
                                    if is_prefix_at(data@, pos as int, enc_begin_swap(v)) {
                                        lemma_begin_swap_parts(data@, pos as int, v);
                                        assert(is_prefix_at(data@, pos as int, enc_u16(v.in_market_index)));
                                        assert(is_prefix_at(data@, pos1 as int, enc_u16(v.out_market_index)));
                                        assert(is_prefix_at(data@, pos2 as int, enc_u64(v.amount_in)));
                                    }
                                }
                            }
                            None
                        }
                        Some((amount_in, pos3)) => {
                            let result = BeginSwap { in_market_index, out_market_index, amount_in };
                            proof {
                                lemma_join_at(data@, pos as int, pos1 as int, pos2 as int);
                                lemma_join_at(data@, pos as int, pos2 as int, pos3 as int);
                                assert(data@.subrange(pos as int, pos3 as int) == enc_begin_swap(result));
                                assert forall|v: BeginSwap| is_prefix_at(data@, pos as int, enc_begin_swap(v))
                                    implies (result == v && pos3 == pos + enc_begin_swap(v).len()) by {
                                    lemma_begin_swap_parts(data@, pos as int, v);
                                    assert(is_prefix_at(data@, pos as int, enc_u16(v.in_market_index)));
                                    assert(is_prefix_at(data@, pos1 as int, enc_u16(v.out_market_index)));
                                    assert(is_prefix_at(data@, pos2 as int, enc_u64(v.amount_in)));
                                }
                            }
                            Some((result, pos3))
                            }
                        }
                    }
                }
            }
        }
}

pub fn write_begin_swap(out: &mut Vec<u8>, p: &BeginSwap)
    ensures
        final(out)@ == old(out)@ + enc_begin_swap(*p),
{
    write_u16(out, p.in_market_index);
    write_u16(out, p.out_market_index);
    proof {
        lemma_add_assoc(old(out)@, enc_u16(p.in_market_index), enc_u16(p.out_market_index));
    }
    write_u64(out, p.amount_in);
    proof {
        lemma_add_assoc(old(out)@, enc_u16(p.in_market_index) + enc_u16(p.out_market_index), enc_u64(p.amount_in));
    }
    proof {
        assert(out@ == old(out)@ + enc_begin_swap(*p));
    }
}

#[derive(Clone, Debug, PartialEq)]
pub struct EndSwap {
    pub in_market_index: u16,
    pub out_market_index: u16,
    pub limit_price: Option<u64>,
    pub reduce_only: Option<SwapReduceOnly>,
}

pub open spec fn enc_end_swap(p: EndSwap) -> Seq<u8> {
    enc_u16(p.in_market_index) + enc_u16(p.out_market_index) + enc_opt_u64(p.limit_price) + enc_opt_swap_reduce_only(p.reduce_only)
}

proof fn lemma_end_swap_parts(data: Seq<u8>, pos: int, v: EndSwap)
    requires
        is_prefix_at(data, pos, enc_end_swap(v)),
    ensures
        is_prefix_at(data, pos, enc_u16(v.in_market_index)),
        is_prefix_at(data, pos + enc_u16(v.in_market_index).len(), enc_u16(v.out_market_index)),
        is_prefix_at(data, pos + enc_u16(v.in_market_index).len() + enc_u16(v.out_market_index).len(), enc_opt_u64(v.limit_price)),
        is_prefix_at(data, pos + enc_u16(v.in_market_index).len() + enc_u16(v.out_market_index).len() + enc_opt_u64(v.limit_price).len(), enc_opt_swap_reduce_only(v.reduce_only)),
{
    lemma_enc_lens();
    lemma_split_prefix(data, pos, enc_u16(v.in_market_index) + enc_u16(v.out_market_index) + enc_opt_u64(v.limit_price), enc_opt_swap_reduce_only(v.reduce_only));
    lemma_split_prefix(data, pos, enc_u16(v.in_market_index) + enc_u16(v.out_market_index), enc_opt_u64(v.limit_price));
    lemma_split_prefix(data, pos, enc_u16(v.in_market_index), enc_u16(v.out_market_index));
}

pub fn read_end_swap(data: &[u8], pos: usize) -> (r: Option<(EndSwap, usize)>)
    ensures
        r matches Some(p) ==> pos <= p.1 <= data@.len()
            && data@.subrange(pos as int, p.1 as int) == enc_end_swap(p.0)
            && p.1 == pos + enc_end_swap(p.0).len(),
        forall|v: EndSwap| is_prefix_at(data@, pos as int, enc_end_swap(v))
            ==> (r matches Some(p) && p.0 == v && p.1 == pos + enc_end_swap(v).len()),
{
    proof {
        lemma_enc_lens();
    }
    match read_u16(data, pos) {
        None => {
            proof {
                assert forall|v: EndSwap| !(is_prefix_at(data@, pos as int, enc_end_swap(v))) by {
                    if is_prefix_at(data@, pos as int, enc_end_swap(v)) {
                        lemma_end_swap_parts(data@, pos as int, v);
                        assert(is_prefix_at(data@, pos as int, enc_u16(v.in_market_index)));
                    }
                }
            }
            None
        }
        Some((in_market_index, pos1)) => {
            match read_u16(data, pos1) {
                None => {
                    proof {
                        assert forall|v: EndSwap| !(is_prefix_at(data@, pos as int, enc_end_swap(v))) by {
                            if is_prefix_at(data@, pos as int, enc_end_swap(v)) {
                                lemma_end_swap_parts(data@, pos as int, v);
                                assert(is_prefix_at(data@, pos as int, enc_u16(v.in_market_index)));
                                assert(is_prefix_at(data@, pos1 as int, enc_u16(v.out_market_index)));
                            }
                        }
                    }
                    None
                }
                Some((out_market_index, pos2)) => {
                    match read_opt_u64(data, pos2) {
                        None => {
                            proof {
                                assert forall|v: EndSwap| !(is_prefix_at(data@, pos as int, enc_end_swap(v))) by {
                                    if is_prefix_at(data@, pos as int, enc_end_swap(v)) {
                                        lemma_end_swap_parts(data@, pos as int, v);
                                        assert(is_prefix_at(data@, pos as int, enc_u16(v.in_market_index)));
                                        assert(is_prefix_at(data@, pos1 as int, enc_u16(v.out_market_index)));
                                        assert(is_prefix_at(data@, pos2 as int, enc_opt_u64(v.limit_price)));
                                    }
                                }
                            }
                            None
                        }
                        Some((limit_price, pos3)) => {
                            match read_opt_swap_reduce_only(data, pos3) {
                                None => {
                                    proof {
                                        assert forall|v: EndSwap| !(is_prefix_at(data@, pos as int, enc_end_swap(v))) by {
                                            if is_prefix_at(data@, pos as int, enc_end_swap(v)) {
                                                lemma_end_swap_parts(data@, pos as int, v);
                                                assert(is_prefix_at(data@, pos as int, enc_u16(v.in_market_index)));
                                                assert(is_prefix_at(data@, pos1 as int, enc_u16(v.out_market_index)));
                                                assert(is_prefix_at(data@, pos2 as int, enc_opt_u64(v.limit_price)));
                                                assert(is_prefix_at(data@, pos3 as int, enc_opt_swap_reduce_only(v.reduce_only)));
                                            }
                                        }
                                    }
                                    None
                                }
                                Some((reduce_only, pos4)) => {
                                    let result = EndSwap { in_market_index, out_market_index, limit_price, reduce_only };
                                    proof {
                                        lemma_join_at(data@, pos as int, pos1 as int, pos2 as int);
                                        lemma_join_at(data@, pos as int, pos2 as int, pos3 as int);
                                        lemma_join_at(data@, pos as int, pos3 as int, pos4 as int);
                                        assert(data@.subrange(pos as int, pos4 as int) == enc_end_swap(result));
                                        assert forall|v: EndSwap| is_prefix_at(data@, pos as int, enc_end_swap(v))
                                            implies (result == v && pos4 == pos + enc_end_swap(v).len()) by {
                                            lemma_end_swap_parts(data@, pos as int, v);
                                            assert(is_prefix_at(data@, pos as int, enc_u16(v.in_market_index)));
                                            assert(is_prefix_at(data@, pos1 as int, enc_u16(v.out_market_index)));
                                            assert(is_prefix_at(data@, pos2 as int, enc_opt_u64(v.limit_price)));
                                            assert(is_prefix_at(data@, pos3 as int, enc_opt_swap_reduce_only(v.reduce_only)));
                                        }
                                    }
                                    Some((result, pos4))
                                    }
                                }
                            }
                        }
                    }
                }
            }
        }
}

pub fn write_end_swap(out: &mut Vec<u8>, p: &EndSwap)
    ensures
        final(out)@ == old(out)@ + enc_end_swap(*p),
{
    write_u16(out, p.in_market_index);
    write_u16(out, p.out_market_index);
    proof {
        lemma_add_assoc(old(out)@, enc_u16(p.in_market_index), enc_u16(p.out_market_index));
    }
    write_opt_u64(out, p.limit_price);
    proof {
        lemma_add_assoc(old(out)@, enc_u16(p.in_market_index) + enc_u16(p.out_market_index), enc_opt_u64(p.limit_price));
    }
    write_opt_swap_reduce_only(out, p.reduce_only);
    proof {
        lemma_add_assoc(old(out)@, enc_u16(p.in_market_index) + enc_u16(p.out_market_index) + enc_opt_u64(p.limit_price), enc_opt_swap_reduce_only(p.reduce_only));
    }
    proof {
        assert(out@ == old(out)@ + enc_end_swap(*p));
    }
}

#[derive(Clone, Debug, PartialEq)]
pub struct AddPerpLpShares {
    pub n_shares: u64,
    pub market_index: u16,
}

pub open spec fn enc_add_perp_lp_shares(p: AddPerpLpShares) -> Seq<u8> {
    enc_u64(p.n_shares) + enc_u16(p.market_index)
}

proof fn lemma_add_perp_lp_shares_parts(data: Seq<u8>, pos: int, v: AddPerpLpShares)
    requires
        is_prefix_at(data, pos, enc_add_perp_lp_shares(v)),
    ensures
        is_prefix_at(data, pos, enc_u64(v.n_shares)),
        is_prefix_at(data, pos + enc_u64(v.n_shares).len(), enc_u16(v.market_index)),
{
    lemma_enc_lens();
    lemma_split_prefix(data, pos, enc_u64(v.n_shares), enc_u16(v.market_index));
}

pub fn read_add_perp_lp_shares(data: &[u8], pos: usize) -> (r: Option<(AddPerpLpShares, usize)>)
    ensures
        r matches Some(p) ==> pos <= p.1 <= data@.len()
            && data@.subrange(pos as int, p.1 as int) == enc_add_perp_lp_shares(p.0)
            && p.1 == pos + enc_add_perp_lp_shares(p.0).len(),
        forall|v: AddPerpLpShares| is_prefix_at(data@, pos as int, enc_add_perp_lp_shares(v))
            ==> (r matches Some(p) && p.0 == v && p.1 == pos + enc_add_perp_lp_shares(v).len()),
{
    proof {
        lemma_enc_lens();
    }
    match read_u64(data, pos) {
        None => {
            proof {
                assert forall|v: AddPerpLpShares| !(is_prefix_at(data@, pos as int, enc_add_perp_lp_shares(v))) by {
                    if is_prefix_at(data@, pos as int, enc_add_perp_lp_shares(v)) {
                        lemma_add_perp_lp_shares_parts(data@, pos as int, v);
                        assert(is_prefix_at(data@, pos as int, enc_u64(v.n_shares)));
                    }
                }
            }
            None
        }
        Some((n_shares, pos1)) => {
            match read_u16(data, pos1) {
                None => {
                    proof {
                        assert forall|v: AddPerpLpShares| !(is_prefix_at(data@, pos as int, enc_add_perp_lp_shares(v))) by {
                            if is_prefix_at(data@, pos as int, enc_add_perp_lp_shares(v)) {
                                lemma_add_perp_lp_shares_parts(data@, pos as int, v);
                                assert(is_prefix_at(data@, pos as int, enc_u64(v.n_shares)));
                                assert(is_prefix_at(data@, pos1 as int, enc_u16(v.market_index)));
                            }
                        }
                    }
                    None
                }
                Some((market_index, pos2)) => {
                    let result = AddPerpLpShares { n_shares, market_index };
                    proof {
                        lemma_join_at(data@, pos as int, pos1 as int, pos2 as int);
                        assert(data@.subrange(pos as int, pos2 as int) == enc_add_perp_lp_shares(result));
                        assert forall|v: AddPerpLpShares| is_prefix_at(data@, pos as int, enc_add_perp_lp_shares(v))
                            implies (result == v && pos2 == pos + enc_add_perp_lp_shares(v).len()) by {
                            lemma_add_perp_lp_shares_parts(data@, pos as int, v);
                            assert(is_prefix_at(data@, pos as int, enc_u64(v.n_shares)));
                            assert(is_prefix_at(data@, pos1 as int, enc_u16(v.market_index)));
                        }
                    }
                    Some((result, pos2))
                    }
                }
            }
        }
}

pub fn write_add_perp_lp_shares(out: &mut Vec<u8>, p: &AddPerpLpShares)
    ensures
        final(out)@ == old(out)@ + enc_add_perp_lp_shares(*p),
{
    write_u64(out, p.n_shares);
    write_u16(out, p.market_index);
    proof {
        lemma_add_assoc(old(out)@, enc_u64(p.n_shares), enc_u16(p.market_index));
    }
    proof {
        assert(out@ == old(out)@ + enc_add_perp_lp_shares(*p));
    }
}

#[derive(Clone, Debug, PartialEq)]
pub struct RemovePerpLpShares {
    pub shares_to_burn: u64,
    pub market_index: u16,
}

pub open spec fn enc_remove_perp_lp_shares(p: RemovePerpLpShares) -> Seq<u8> {
    enc_u64(p.shares_to_burn) + enc_u16(p.market_index)
}

proof fn lemma_remove_perp_lp_shares_parts(data: Seq<u8>, pos: int, v: RemovePerpLpShares)
    requires
        is_prefix_at(data, pos, enc_remove_perp_lp_shares(v)),
    ensures
        is_prefix_at(data, pos, enc_u64(v.shares_to_burn)),
        is_prefix_at(data, pos + enc_u64(v.shares_to_burn).len(), enc_u16(v.market_index)),
{
    lemma_enc_lens();
    lemma_split_prefix(data, pos, enc_u64(v.shares_to_burn), enc_u16(v.market_index));
}

pub fn read_remove_perp_lp_shares(data: &[u8], pos: usize) -> (r: Option<(RemovePerpLpShares, usize)>)
    ensures
        r matches Some(p) ==> pos <= p.1 <= data@.len()
            && data@.subrange(pos as int, p.1 as int) == enc_remove_perp_lp_shares(p.0)
            && p.1 == pos + enc_remove_perp_lp_shares(p.0).len(),
        forall|v: RemovePerpLpShares| is_prefix_at(data@, pos as int, enc_remove_perp_lp_shares(v))
            ==> (r matches Some(p) && p.0 == v && p.1 == pos + enc_remove_perp_lp_shares(v).len()),
{
    proof {
        lemma_enc_lens();
    }
    match read_u64(data, pos) {
        None => {
            proof {
                assert forall|v: RemovePerpLpShares| !(is_prefix_at(data@, pos as int, enc_remove_perp_lp_shares(v))) by {
                    if is_prefix_at(data@, pos as int, enc_remove_perp_lp_shares(v)) {
                        lemma_remove_perp_lp_shares_parts(data@, pos as int, v);
                        assert(is_prefix_at(data@, pos as int, enc_u64(v.shares_to_burn)));
                    }
                }
            }
            None
        }
        Some((shares_to_burn, pos1)) => {
            match read_u16(data, pos1) {
                None => {
                    proof {
                        assert forall|v: RemovePerpLpShares| !(is_prefix_at(data@, pos as int, enc_remove_perp_lp_shares(v))) by {
                            if is_prefix_at(data@, pos as int, enc_remove_perp_lp_shares(v)) {
                                lemma_remove_perp_lp_shares_parts(data@, pos as int, v);
                                assert(is_prefix_at(data@, pos as int, enc_u64(v.shares_to_burn)));
                                assert(is_prefix_at(data@, pos1 as int, enc_u16(v.market_index)));
                            }
                        }
                    }
                    None
                }
                Some((market_index, pos2)) => {
                    let result = RemovePerpLpShares { shares_to_burn, market_index };
                    proof {
                        lemma_join_at(data@, pos as int, pos1 as int, pos2 as int);
                        assert(data@.subrange(pos as int, pos2 as int) == enc_remove_perp_lp_shares(result));
                        assert forall|v: RemovePerpLpShares| is_prefix_at(data@, pos as int, enc_remove_perp_lp_shares(v))
                            implies (result == v && pos2 == pos + enc_remove_perp_lp_shares(v).len()) by {
                            lemma_remove_perp_lp_shares_parts(data@, pos as int, v);
                            assert(is_prefix_at(data@, pos as int, enc_u64(v.shares_to_burn)));
                            assert(is_prefix_at(data@, pos1 as int, enc_u16(v.market_index)));
                        }
                    }
                    Some((result, pos2))
                    }
                }
            }
        }
}

pub fn write_remove_perp_lp_shares(out: &mut Vec<u8>, p: &RemovePerpLpShares)
    ensures
        final(out)@ == old(out)@ + enc_remove_perp_lp_shares(*p),
{
    write_u64(out, p.shares_to_burn);
    write_u16(out, p.market_index);
    proof {
        lemma_add_assoc(old(out)@, enc_u64(p.shares_to_burn), enc_u16(p.market_index));
    }
    proof {
        assert(out@ == old(out)@ + enc_remove_perp_lp_shares(*p));
    }
}

#[derive(Clone, Debug, PartialEq)]
pub struct UpdateUserCustomMarginRatio {
    pub sub_account_id: u16,
    pub margin_ratio: u32,
}

pub open spec fn enc_update_user_custom_margin_ratio(p: UpdateUserCustomMarginRatio) -> Seq<u8> {
    enc_u16(p.sub_account_id) + enc_u32(p.margin_ratio)
}

proof fn lemma_update_user_custom_margin_ratio_parts(data: Seq<u8>, pos: int, v: UpdateUserCustomMarginRatio)
    requires
        is_prefix_at(data, pos, enc_update_user_custom_margin_ratio(v)),
    ensures
        is_prefix_at(data, pos, enc_u16(v.sub_account_id)),
        is_prefix_at(data, pos + enc_u16(v.sub_account_id).len(), enc_u32(v.margin_ratio)),
{
    lemma_enc_lens();
    lemma_split_prefix(data, pos, enc_u16(v.sub_account_id), enc_u32(v.margin_ratio));
}

pub fn read_update_user_custom_margin_ratio(data: &[u8], pos: usize) -> (r: Option<(UpdateUserCustomMarginRatio, usize)>)
    ensures
        r matches Some(p) ==> pos <= p.1 <= data@.len()
            && data@.subrange(pos as int, p.1 as int) == enc_update_user_custom_margin_ratio(p.0)
            && p.1 == pos + enc_update_user_custom_margin_ratio(p.0).len(),
        forall|v: UpdateUserCustomMarginRatio| is_prefix_at(data@, pos as int, enc_update_user_custom_margin_ratio(v))
            ==> (r matches Some(p) && p.0 == v && p.1 == pos + enc_update_user_custom_margin_ratio(v).len()),
{
    proof {
        lemma_enc_lens();
    }
    match read_u16(data, pos) {
        None => {
            proof {
                assert forall|v: UpdateUserCustomMarginRatio| !(is_prefix_at(data@, pos as int, enc_update_user_custom_margin_ratio(v))) by {
                    if is_prefix_at(data@, pos as int, enc_update_user_custom_margin_ratio(v)) {
                        lemma_update_user_custom_margin_ratio_parts(data@, pos as int, v);
                        assert(is_prefix_at(data@, pos as int, enc_u16(v.sub_account_id)));
                    }
                }
            }
            None
        }
        Some((sub_account_id, pos1)) => {
            match read_u32(data, pos1) {
                None => {
                    proof {
                        assert forall|v: UpdateUserCustomMarginRatio| !(is_prefix_at(data@, pos as int, enc_update_user_custom_margin_ratio(v))) by {
                            if is_prefix_at(data@, pos as int, enc_update_user_custom_margin_ratio(v)) {
                                lemma_update_user_custom_margin_ratio_parts(data@, pos as int, v);
                                assert(is_prefix_at(data@, pos as int, enc_u16(v.sub_account_id)));
                                assert(is_prefix_at(data@, pos1 as int, enc_u32(v.margin_ratio)));
                            }
                        }
                    }
                    None
                }
                Some((margin_ratio, pos2)) => {
                    let result = UpdateUserCustomMarginRatio { sub_account_id, margin_ratio };
                    proof {
                        lemma_join_at(data@, pos as int, pos1 as int, pos2 as int);
                        assert(data@.subrange(pos as int, pos2 as int) == enc_update_user_custom_margin_ratio(result));
                        assert forall|v: UpdateUserCustomMarginRatio| is_prefix_at(data@, pos as int, enc_update_user_custom_margin_ratio(v))
                            implies (result == v && pos2 == pos + enc_update_user_custom_margin_ratio(v).len()) by {
                            lemma_update_user_custom_margin_ratio_parts(data@, pos as int, v);
                            assert(is_prefix_at(data@, pos as int, enc_u16(v.sub_account_id)));
                            assert(is_prefix_at(data@, pos1 as int, enc_u32(v.margin_ratio)));
                        }
                    }
                    Some((result, pos2))
                    }
                }
            }
        }
}

pub fn write_update_user_custom_margin_ratio(out: &mut Vec<u8>, p: &UpdateUserCustomMarginRatio)
    ensures
        final(out)@ == old(out)@ + enc_update_user_custom_margin_ratio(*p),
{
    write_u16(out, p.sub_account_id);
    write_u32(out, p.margin_ratio);
    proof {
        lemma_add_assoc(old(out)@, enc_u16(p.sub_account_id), enc_u32(p.margin_ratio));
    }
    proof {
        assert(out@ == old(out)@ + enc_update_user_custom_margin_ratio(*p));
    }
}

#[derive(Clone, Debug, PartialEq)]
pub struct UpdateUserMarginTradingEnabled {
    pub sub_account_id: u16,
    pub margin_trading_enabled: bool,
}

pub open spec fn enc_update_user_margin_trading_enabled(p: UpdateUserMarginTradingEnabled) -> Seq<u8> {
    enc_u16(p.sub_account_id) + enc_bool(p.margin_trading_enabled)
}

proof fn lemma_update_user_margin_trading_enabled_parts(data: Seq<u8>, pos: int, v: UpdateUserMarginTradingEnabled)
    requires
        is_prefix_at(data, pos, enc_update_user_margin_trading_enabled(v)),
    ensures
        is_prefix_at(data, pos, enc_u16(v.sub_account_id)),
        is_prefix_at(data, pos + enc_u16(v.sub_account_id).len(), enc_bool(v.margin_trading_enabled)),
{
    lemma_enc_lens();
    lemma_split_prefix(data, pos, enc_u16(v.sub_account_id), enc_bool(v.margin_trading_enabled));
}

pub fn read_update_user_margin_trading_enabled(data: &[u8], pos: usize) -> (r: Option<(UpdateUserMarginTradingEnabled, usize)>)
    ensures
        r matches Some(p) ==> pos <= p.1 <= data@.len()
            && data@.subrange(pos as int, p.1 as int) == enc_update_user_margin_trading_enabled(p.0)
            && p.1 == pos + enc_update_user_margin_trading_enabled(p.0).len(),
        forall|v: UpdateUserMarginTradingEnabled| is_prefix_at(data@, pos as int, enc_update_user_margin_trading_enabled(v))
            ==> (r matches Some(p) && p.0 == v && p.1 == pos + enc_update_user_margin_trading_enabled(v).len()),
{
    proof {
        lemma_enc_lens();
    }
    match read_u16(data, pos) {
        None => {
            proof {
                assert forall|v: UpdateUserMarginTradingEnabled| !(is_prefix_at(data@, pos as int, enc_update_user_margin_trading_enabled(v))) by {
                    if is_prefix_at(data@, pos as int, enc_update_user_margin_trading_enabled(v)) {
                        lemma_update_user_margin_trading_enabled_parts(data@, pos as int, v);
                        assert(is_prefix_at(data@, pos as int, enc_u16(v.sub_account_id)));
                    }
                }
            }
            None
        }
        Some((sub_account_id, pos1)) => {
            match read_bool(data, pos1) {
                None => {
                    proof {
                        assert forall|v: UpdateUserMarginTradingEnabled| !(is_prefix_at(data@, pos as int, enc_update_user_margin_trading_enabled(v))) by {
                            if is_prefix_at(data@, pos as int, enc_update_user_margin_trading_enabled(v)) {
                                lemma_update_user_margin_trading_enabled_parts(data@, pos as int, v);
                                assert(is_prefix_at(data@, pos as int, enc_u16(v.sub_account_id)));
                                assert(is_prefix_at(data@, pos1 as int, enc_bool(v.margin_trading_enabled)));
                            }
                        }
                    }
                    None
                }
                Some((margin_trading_enabled, pos2)) => {
                    let result = UpdateUserMarginTradingEnabled { sub_account_id, margin_trading_enabled };
                    proof {
                        lemma_join_at(data@, pos as int, pos1 as int, pos2 as int);
                        assert(data@.subrange(pos as int, pos2 as int) == enc_update_user_margin_trading_enabled(result));
                        assert forall|v: UpdateUserMarginTradingEnabled| is_prefix_at(data@, pos as int, enc_update_user_margin_trading_enabled(v))
                            implies (result == v && pos2 == pos + enc_update_user_margin_trading_enabled(v).len()) by {
                            lemma_update_user_margin_trading_enabled_parts(data@, pos as int, v);
                            assert(is_prefix_at(data@, pos as int, enc_u16(v.sub_account_id)));
                            assert(is_prefix_at(data@, pos1 as int, enc_bool(v.margin_trading_enabled)));
                        }
                    }
                    Some((result, pos2))
                    }
                }
            }
        }
}

pub fn write_update_user_margin_trading_enabled(out: &mut Vec<u8>, p: &UpdateUserMarginTradingEnabled)
    ensures
        final(out)@ == old(out)@ + enc_update_user_margin_trading_enabled(*p),
{
    write_u16(out, p.sub_account_id);
    write_bool(out, p.margin_trading_enabled);
    proof {
        lemma_add_assoc(old(out)@, enc_u16(p.sub_account_id), enc_bool(p.margin_trading_enabled));
    }
    proof {
        assert(out@ == old(out)@ + enc_update_user_margin_trading_enabled(*p));
    }
}

#[derive(Clone, Debug, PartialEq)]
pub struct DeleteUser {}

#[derive(Clone, Debug, PartialEq)]
pub struct ReclaimRent {}

#[derive(Clone, Debug, PartialEq)]
pub struct FillPerpOrder {
    pub order_id: Option<u32>,
    pub maker_order_id: Option<u32>,
}

pub open spec fn enc_fill_perp_order(p: FillPerpOrder) -> Seq<u8> {
    enc_opt_u32(p.order_id) + enc_opt_u32(p.maker_order_id)
}

proof fn lemma_fill_perp_order_parts(data: Seq<u8>, pos: int, v: FillPerpOrder)
    requires
        is_prefix_at(data, pos, enc_fill_perp_order(v)),
    ensures
        is_prefix_at(data, pos, enc_opt_u32(v.order_id)),
        is_prefix_at(data, pos + enc_opt_u32(v.order_id).len(), enc_opt_u32(v.maker_order_id)),
{
    lemma_enc_lens();
    lemma_split_prefix(data, pos, enc_opt_u32(v.order_id), enc_opt_u32(v.maker_order_id));
}

pub fn read_fill_perp_order(data: &[u8], pos: usize) -> (r: Option<(FillPerpOrder, usize)>)
    ensures
        r matches Some(p) ==> pos <= p.1 <= data@.len()
            && data@.subrange(pos as int, p.1 as int) == enc_fill_perp_order(p.0)
            && p.1 == pos + enc_fill_perp_order(p.0).len(),
        forall|v: FillPerpOrder| is_prefix_at(data@, pos as int, enc_fill_perp_order(v))
            ==> (r matches Some(p) && p.0 == v && p.1 == pos + enc_fill_perp_order(v).len()),
{
    proof {
        lemma_enc_lens();
    }
    match read_opt_u32(data, pos) {
        None => {
            proof {
                assert forall|v: FillPerpOrder| !(is_prefix_at(data@, pos as int, enc_fill_perp_order(v))) by {
                    if is_prefix_at(data@, pos as int, enc_fill_perp_order(v)) {
                        lemma_fill_perp_order_parts(data@, pos as int, v);
                        assert(is_prefix_at(data@, pos as int, enc_opt_u32(v.order_id)));
                    }
                }
            }
            None
        }
        Some((order_id, pos1)) => {
            match read_opt_u32(data, pos1) {
                None => {
                    proof {
                        assert forall|v: FillPerpOrder| !(is_prefix_at(data@, pos as int, enc_fill_perp_order(v))) by {
                            if is_prefix_at(data@, pos as int, enc_fill_perp_order(v)) {
                                lemma_fill_perp_order_parts(data@, pos as int, v);
                                assert(is_prefix_at(data@, pos as int, enc_opt_u32(v.order_id)));
                                assert(is_prefix_at(data@, pos1 as int, enc_opt_u32(v.maker_order_id)));
                            }
                        }
                    }
                    None
                }
                Some((maker_order_id, pos2)) => {
                    let result = FillPerpOrder { order_id, maker_order_id };
                    proof {
                        lemma_join_at(data@, pos as int, pos1 as int, pos2 as int);
                        assert(data@.subrange(pos as int, pos2 as int) == enc_fill_perp_order(result));
                        assert forall|v: FillPerpOrder| is_prefix_at(data@, pos as int, enc_fill_perp_order(v))
                            implies (result == v && pos2 == pos + enc_fill_perp_order(v).len()) by {
                            lemma_fill_perp_order_parts(data@, pos as int, v);
                            assert(is_prefix_at(data@, pos as int, enc_opt_u32(v.order_id)));
                            assert(is_prefix_at(data@, pos1 as int, enc_opt_u32(v.maker_order_id)));
                        }
                    }
                    Some((result, pos2))
                    }
                }
            }
        }
}

pub fn write_fill_perp_order(out: &mut Vec<u8>, p: &FillPerpOrder)
    ensures
        final(out)@ == old(out)@ + enc_fill_perp_order(*p),
{
    write_opt_u32(out, p.order_id);
    write_opt_u32(out, p.maker_order_id);
    proof {
        lemma_add_assoc(old(out)@, enc_opt_u32(p.order_id), enc_opt_u32(p.maker_order_id));
    }
    proof {
        assert(out@ == old(out)@ + enc_fill_perp_order(*p));
    }
}

#[derive(Clone, Debug, PartialEq)]
pub struct RevertFill {}

#[derive(Clone, Debug, PartialEq)]
pub struct FillSpotOrder {
    pub order_id: Option<u32>,
    pub fulfillment_type: Option<SpotFulfillmentType>,
    pub maker_order_id: Option<u32>,
}

pub open spec fn enc_fill_spot_order(p: FillSpotOrder) -> Seq<u8> {
    enc_opt_u32(p.order_id) + enc_opt_spot_fulfillment_type(p.fulfillment_type) + enc_opt_u32(p.maker_order_id)
}

proof fn lemma_fill_spot_order_parts(data: Seq<u8>, pos: int, v: FillSpotOrder)
    requires
        is_prefix_at(data, pos, enc_fill_spot_order(v)),
    ensures
        is_prefix_at(data, pos, enc_opt_u32(v.order_id)),
        is_prefix_at(data, pos + enc_opt_u32(v.order_id).len(), enc_opt_spot_fulfillment_type(v.fulfillment_type)),
        is_prefix_at(data, pos + enc_opt_u32(v.order_id).len() + enc_opt_spot_fulfillment_type(v.fulfillment_type).len(), enc_opt_u32(v.maker_order_id)),
{
    lemma_enc_lens();
    lemma_split_prefix(data, pos, enc_opt_u32(v.order_id) + enc_opt_spot_fulfillment_type(v.fulfillment_type), enc_opt_u32(v.maker_order_id));
    lemma_split_prefix(data, pos, enc_opt_u32(v.order_id), enc_opt_spot_fulfillment_type(v.fulfillment_type));
}

pub fn read_fill_spot_order(data: &[u8], pos: usize) -> (r: Option<(FillSpotOrder, usize)>)
    ensures
        r matches Some(p) ==> pos <= p.1 <= data@.len()
            && data@.subrange(pos as int, p.1 as int) == enc_fill_spot_order(p.0)
            && p.1 == pos + enc_fill_spot_order(p.0).len(),
        forall|v: FillSpotOrder| is_prefix_at(data@, pos as int, enc_fill_spot_order(v))
            ==> (r matches Some(p) && p.0 == v && p.1 == pos + enc_fill_spot_order(v).len()),
{
    proof {
        lemma_enc_lens();
    }
    match read_opt_u32(data, pos) {
        None => {
            proof {
                assert forall|v: FillSpotOrder| !(is_prefix_at(data@, pos as int, enc_fill_spot_order(v))) by {
                    if is_prefix_at(data@, pos as int, enc_fill_spot_order(v)) {
                        lemma_fill_spot_order_parts(data@, pos as int, v);
                        assert(is_prefix_at(data@, pos as int, enc_opt_u32(v.order_id)));
                    }
                }
            }
            None
        }
        Some((order_id, pos1)) => {
            match read_opt_spot_fulfillment_type(data, pos1) {
                None => {
                    proof {
                        assert forall|v: FillSpotOrder| !(is_prefix_at(data@, pos as int, enc_fill_spot_order(v))) by {
                            if is_prefix_at(data@, pos as int, enc_fill_spot_order(v)) {
                                lemma_fill_spot_order_parts(data@, pos as int, v);
                                assert(is_prefix_at(data@, pos as int, enc_opt_u32(v.order_id)));
                                assert(is_prefix_at(data@, pos1 as int, enc_opt_spot_fulfillment_type(v.fulfillment_type)));
                            }
                        }
                    }
                    None
                }
                Some((fulfillment_type, pos2)) => {
                    match read_opt_u32(data, pos2) {
                        None => {
                            proof {
                                assert forall|v: FillSpotOrder| !(is_prefix_at(data@, pos as int, enc_fill_spot_order(v))) by {
                                    if is_prefix_at(data@, pos as int, enc_fill_spot_order(v)) {
                                        lemma_fill_spot_order_parts(data@, pos as int, v);
                                        assert(is_prefix_at(data@, pos as int, enc_opt_u32(v.order_id)));
                                        assert(is_prefix_at(data@, pos1 as int, enc_opt_spot_fulfillment_type(v.fulfillment_type)));
                                        assert(is_prefix_at(data@, pos2 as int, enc_opt_u32(v.maker_order_id)));
                                    }
                                }
                            }
                            None
                        }
                        Some((maker_order_id, pos3)) => {
                            let result = FillSpotOrder { order_id, fulfillment_type, maker_order_id };
                            proof {
                                lemma_join_at(data@, pos as int, pos1 as int, pos2 as int);
                                lemma_join_at(data@, pos as int, pos2 as int, pos3 as int);
                                assert(data@.subrange(pos as int, pos3 as int) == enc_fill_spot_order(result));
                                assert forall|v: FillSpotOrder| is_prefix_at(data@, pos as int, enc_fill_spot_order(v))
                                    implies (result == v && pos3 == pos + enc_fill_spot_order(v).len()) by {
                                    lemma_fill_spot_order_parts(data@, pos as int, v);
                                    assert(is_prefix_at(data@, pos as int, enc_opt_u32(v.order_id)));
                                    assert(is_prefix_at(data@, pos1 as int, enc_opt_spot_fulfillment_type(v.fulfillment_type)));
                                    assert(is_prefix_at(data@, pos2 as int, enc_opt_u32(v.maker_order_id)));
                                }
                            }
                            Some((result, pos3))
                            }
                        }
                    }
                }
            }
        }
}

pub fn write_fill_spot_order(out: &mut Vec<u8>, p: &FillSpotOrder)
    ensures
        final(out)@ == old(out)@ + enc_fill_spot_order(*p),
{
    write_opt_u32(out, p.order_id);
    write_opt_spot_fulfillment_type(out, p.fulfillment_type);
    proof {
        lemma_add_assoc(old(out)@, enc_opt_u32(p.order_id), enc_opt_spot_fulfillment_type(p.fulfillment_type));
    }
    write_opt_u32(out, p.maker_order_id);
    proof {
        lemma_add_assoc(old(out)@, enc_opt_u32(p.order_id) + enc_opt_spot_fulfillment_type(p.fulfillment_type), enc_opt_u32(p.maker_order_id));
    }
    proof {
        assert(out@ == old(out)@ + enc_fill_spot_order(*p));
    }
}

#[derive(Clone, Debug, PartialEq)]
pub struct TriggerOrder {
    pub order_id: u32,
}

pub open spec fn enc_trigger_order(p: TriggerOrder) -> Seq<u8> {
    enc_u32(p.order_id)
}

pub fn read_trigger_order(data: &[u8], pos: usize) -> (r: Option<(TriggerOrder, usize)>)
    ensures
        r matches Some(p) ==> pos <= p.1 <= data@.len()
            && data@.subrange(pos as int, p.1 as int) == enc_trigger_order(p.0)
            && p.1 == pos + enc_trigger_order(p.0).len(),
        forall|v: TriggerOrder| is_prefix_at(data@, pos as int, enc_trigger_order(v))
            ==> (r matches Some(p) && p.0 == v && p.1 == pos + enc_trigger_order(v).len()),
{
    proof {
        lemma_enc_lens();
    }
    match read_u32(data, pos) {
        None => {
            proof {
                assert forall|v: TriggerOrder| !(is_prefix_at(data@, pos as int, enc_trigger_order(v))) by {
                    if is_prefix_at(data@, pos as int, enc_trigger_order(v)) {
                        assert(is_prefix_at(data@, pos as int, enc_u32(v.order_id)));
                    }
                }
            }
            None
        }
        Some((order_id, pos1)) => {
            let result = TriggerOrder { order_id };
            proof {
                assert(data@.subrange(pos as int, pos1 as int) == enc_trigger_order(result));
                assert forall|v: TriggerOrder| is_prefix_at(data@, pos as int, enc_trigger_order(v))
                    implies (result == v && pos1 == pos + enc_trigger_order(v).len()) by {
                    assert(is_prefix_at(data@, pos as int, enc_u32(v.order_id)));
                }
            }
            Some((result, pos1))
            }
        }
}

pub fn write_trigger_order(out: &mut Vec<u8>, p: &TriggerOrder)
    ensures
        final(out)@ == old(out)@ + enc_trigger_order(*p),
{
    write_u32(out, p.order_id);
    proof {
        assert(out@ == old(out)@ + enc_trigger_order(*p));
    }
}

#[derive(Clone, Debug, PartialEq)]
pub struct UpdateUserIdle {}

#[derive(Clone, Debug, PartialEq)]
pub struct SettlePnl {
    pub market_index: u16,
}

pub open spec fn enc_settle_pnl(p: SettlePnl) -> Seq<u8> {
    enc_u16(p.market_index)
}

pub fn read_settle_pnl(data: &[u8], pos: usize) -> (r: Option<(SettlePnl, usize)>)
    ensures
        r matches Some(p) ==> pos <= p.1 <= data@.len()
            && data@.subrange(pos as int, p.1 as int) == enc_settle_pnl(p.0)
            && p.1 == pos + enc_settle_pnl(p.0).len(),
        forall|v: SettlePnl| is_prefix_at(data@, pos as int, enc_settle_pnl(v))
            ==> (r matches Some(p) && p.0 == v && p.1 == pos + enc_settle_pnl(v).len()),
{
    proof {
        lemma_enc_lens();
    }
    match read_u16(data, pos) {
        None => {
            proof {
                assert forall|v: SettlePnl| !(is_prefix_at(data@, pos as int, enc_settle_pnl(v))) by {
                    if is_prefix_at(data@, pos as int, enc_settle_pnl(v)) {
                        assert(is_prefix_at(data@, pos as int, enc_u16(v.market_index)));
                    }
                }
            }
            None
        }
        Some((market_index, pos1)) => {
            let result = SettlePnl { market_index };
            proof {
                assert(data@.subrange(pos as int, pos1 as int) == enc_settle_pnl(result));
                assert forall|v: SettlePnl| is_prefix_at(data@, pos as int, enc_settle_pnl(v))
                    implies (result == v && pos1 == pos + enc_settle_pnl(v).len()) by {
                    assert(is_prefix_at(data@, pos as int, enc_u16(v.market_index)));
                }
            }
            Some((result, pos1))
            }
        }
}

pub fn write_settle_pnl(out: &mut Vec<u8>, p: &SettlePnl)
    ensures
        final(out)@ == old(out)@ + enc_settle_pnl(*p),
{
    write_u16(out, p.market_index);
    proof {
        assert(out@ == old(out)@ + enc_settle_pnl(*p));
    }
}

#[derive(Clone, Debug, PartialEq)]
pub struct SettleMultiplePnls {
    pub market_indexes: Vec<u16>,
    pub mode: SettlePnlMode,
}

pub open spec fn enc_settle_multiple_pnls(p: SettleMultiplePnls) -> Seq<u8> {
    enc_vec_u16(p.market_indexes@) + enc_settle_pnl_mode(p.mode)
}

proof fn lemma_settle_multiple_pnls_parts(data: Seq<u8>, pos: int, v: SettleMultiplePnls)
    requires
        is_prefix_at(data, pos, enc_settle_multiple_pnls(v)),
    ensures
        is_prefix_at(data, pos, enc_vec_u16(v.market_indexes@)),
        is_prefix_at(data, pos + enc_vec_u16(v.market_indexes@).len(), enc_settle_pnl_mode(v.mode)),
{
    lemma_enc_lens();
    lemma_split_prefix(data, pos, enc_vec_u16(v.market_indexes@), enc_settle_pnl_mode(v.mode));
}

pub fn read_settle_multiple_pnls(data: &[u8], pos: usize) -> (r: Option<(SettleMultiplePnls, usize)>)
    ensures
        r matches Some(p) ==> pos <= p.1 <= data@.len()
            && data@.subrange(pos as int, p.1 as int) == enc_settle_multiple_pnls(p.0)
            && p.1 == pos + enc_settle_multiple_pnls(p.0).len() && p.0.market_indexes@.len() <= u32::MAX,
        forall|v: SettleMultiplePnls| v.market_indexes@.len() <= u32::MAX && is_prefix_at(data@, pos as int, enc_settle_multiple_pnls(v))
            ==> (r matches Some(p) && p.0.market_indexes@ == v.market_indexes@ && p.0.mode == v.mode && p.1 == pos + enc_settle_multiple_pnls(v).len()),
{
    proof {
        lemma_enc_lens();
    }
    match read_vec_u16(data, pos) {
        None => {
            proof {
                assert forall|v: SettleMultiplePnls| !(v.market_indexes@.len() <= u32::MAX && is_prefix_at(data@, pos as int, enc_settle_multiple_pnls(v))) by {
                    if v.market_indexes@.len() <= u32::MAX && is_prefix_at(data@, pos as int, enc_settle_multiple_pnls(v)) {
                        lemma_settle_multiple_pnls_parts(data@, pos as int, v);
                        assert(is_prefix_at(data@, pos as int, enc_vec_u16(v.market_indexes@)));
                    }
                }
            }
            None
        }
        Some((market_indexes, pos1)) => {
            match read_settle_pnl_mode(data, pos1) {
                None => {
                    proof {
                        assert forall|v: SettleMultiplePnls| !(v.market_indexes@.len() <= u32::MAX && is_prefix_at(data@, pos as int, enc_settle_multiple_pnls(v))) by {
                            if v.market_indexes@.len() <= u32::MAX && is_prefix_at(data@, pos as int, enc_settle_multiple_pnls(v)) {
                                lemma_settle_multiple_pnls_parts(data@, pos as int, v);
                                assert(is_prefix_at(data@, pos as int, enc_vec_u16(v.market_indexes@)));
                                assert(is_prefix_at(data@, pos1 as int, enc_settle_pnl_mode(v.mode)));
                            }
                        }
                    }
                    None
                }
                Some((mode, pos2)) => {
                    let result = SettleMultiplePnls { market_indexes, mode };
                    proof {
                        lemma_join_at(data@, pos as int, pos1 as int, pos2 as int);
                        assert(data@.subrange(pos as int, pos2 as int) == enc_settle_multiple_pnls(result));
                        assert forall|v: SettleMultiplePnls| v.market_indexes@.len() <= u32::MAX && is_prefix_at(data@, pos as int, enc_settle_multiple_pnls(v))
                            implies (result.market_indexes@ == v.market_indexes@ && result.mode == v.mode && pos2 == pos + enc_settle_multiple_pnls(v).len()) by {
                            lemma_settle_multiple_pnls_parts(data@, pos as int, v);
                            assert(is_prefix_at(data@, pos as int, enc_vec_u16(v.market_indexes@)));
                            assert(is_prefix_at(data@, pos1 as int, enc_settle_pnl_mode(v.mode)));
                        }
                    }
                    Some((result, pos2))
                    }
                }
            }
        }
}

pub fn write_settle_multiple_pnls(out: &mut Vec<u8>, p: &SettleMultiplePnls)
    requires
        p.market_indexes@.len() <= u32::MAX,
    ensures
        final(out)@ == old(out)@ + enc_settle_multiple_pnls(*p),
{
    write_vec_u16(out, &p.market_indexes);
    write_settle_pnl_mode(out, p.mode);
    proof {
        lemma_add_assoc(old(out)@, enc_vec_u16(p.market_indexes@), enc_settle_pnl_mode(p.mode));
    }
    proof {
        assert(out@ == old(out)@ + enc_settle_multiple_pnls(*p));
    }
}

#[derive(Clone, Debug, PartialEq)]
pub struct SettleFundingPayment {}

#[derive(Clone, Debug, PartialEq)]
pub struct SettleLp {
    pub market_index: u16,
}

pub open spec fn enc_settle_lp(p: SettleLp) -> Seq<u8> {
    enc_u16(p.market_index)
}

pub fn read_settle_lp(data: &[u8], pos: usize) -> (r: Option<(SettleLp, usize)>)
    ensures
        r matches Some(p) ==> pos <= p.1 <= data@.len()
            && data@.subrange(pos as int, p.1 as int) == enc_settle_lp(p.0)
            && p.1 == pos + enc_settle_lp(p.0).len(),
        forall|v: SettleLp| is_prefix_at(data@, pos as int, enc_settle_lp(v))
            ==> (r matches Some(p) && p.0 == v && p.1 == pos + enc_settle_lp(v).len()),
{
    proof {
        lemma_enc_lens();
    }
    match read_u16(data, pos) {
        None => {
            proof {
                assert forall|v: SettleLp| !(is_prefix_at(data@, pos as int, enc_settle_lp(v))) by {
                    if is_prefix_at(data@, pos as int, enc_settle_lp(v)) {
                        assert(is_prefix_at(data@, pos as int, enc_u16(v.market_index)));
                    }
                }
            }
            None
        }
        Some((market_index, pos1)) => {
            let result = SettleLp { market_index };
            proof {
                assert(data@.subrange(pos as int, pos1 as int) == enc_settle_lp(result));
                assert forall|v: SettleLp| is_prefix_at(data@, pos as int, enc_settle_lp(v))
                    implies (result == v && pos1 == pos + enc_settle_lp(v).len()) by {
                    assert(is_prefix_at(data@, pos as int, enc_u16(v.market_index)));
                }
            }
            Some((result, pos1))
            }
        }
}

pub fn write_settle_lp(out: &mut Vec<u8>, p: &SettleLp)
    ensures
        final(out)@ == old(out)@ + enc_settle_lp(*p),
{
    write_u16(out, p.market_index);
    proof {
        assert(out@ == old(out)@ + enc_settle_lp(*p));
    }
}

#[derive(Clone, Debug, PartialEq)]
pub struct LiquidatePerp {
    pub market_index: u16,
    pub liquidator_max_base_asset_amount: u64,
    pub limit_price: Option<u64>,
}

pub open spec fn enc_liquidate_perp(p: LiquidatePerp) -> Seq<u8> {
    enc_u16(p.market_index) + enc_u64(p.liquidator_max_base_asset_amount) + enc_opt_u64(p.limit_price)
}

proof fn lemma_liquidate_perp_parts(data: Seq<u8>, pos: int, v: LiquidatePerp)
    requires
        is_prefix_at(data, pos, enc_liquidate_perp(v)),
    ensures
        is_prefix_at(data, pos, enc_u16(v.market_index)),
        is_prefix_at(data, pos + enc_u16(v.market_index).len(), enc_u64(v.liquidator_max_base_asset_amount)),
        is_prefix_at(data, pos + enc_u16(v.market_index).len() + enc_u64(v.liquidator_max_base_asset_amount).len(), enc_opt_u64(v.limit_price)),
{
    lemma_enc_lens();
    lemma_split_prefix(data, pos, enc_u16(v.market_index) + enc_u64(v.liquidator_max_base_asset_amount), enc_opt_u64(v.limit_price));
    lemma_split_prefix(data, pos, enc_u16(v.market_index), enc_u64(v.liquidator_max_base_asset_amount));
}

pub fn read_liquidate_perp(data: &[u8], pos: usize) -> (r: Option<(LiquidatePerp, usize)>)
    ensures
        r matches Some(p) ==> pos <= p.1 <= data@.len()
            && data@.subrange(pos as int, p.1 as int) == enc_liquidate_perp(p.0)
            && p.1 == pos + enc_liquidate_perp(p.0).len(),
        forall|v: LiquidatePerp| is_prefix_at(data@, pos as int, enc_liquidate_perp(v))
            ==> (r matches Some(p) && p.0 == v && p.1 == pos + enc_liquidate_perp(v).len()),
{
    proof {
        lemma_enc_lens();
    }
    match read_u16(data, pos) {
        None => {
            proof {
                assert forall|v: LiquidatePerp| !(is_prefix_at(data@, pos as int, enc_liquidate_perp(v))) by {
                    if is_prefix_at(data@, pos as int, enc_liquidate_perp(v)) {
                        lemma_liquidate_perp_parts(data@, pos as int, v);
                        assert(is_prefix_at(data@, pos as int, enc_u16(v.market_index)));
                    }
                }
            }
            None
        }
        Some((market_index, pos1)) => {
            match read_u64(data, pos1) {
                None => {
                    proof {
                        assert forall|v: LiquidatePerp| !(is_prefix_at(data@, pos as int, enc_liquidate_perp(v))) by {
                            if is_prefix_at(data@, pos as int, enc_liquidate_perp(v)) {
                                lemma_liquidate_perp_parts(data@, pos as int, v);
                                assert(is_prefix_at(data@, pos as int, enc_u16(v.market_index)));
                                assert(is_prefix_at(data@, pos1 as int, enc_u64(v.liquidator_max_base_asset_amount)));
                            }
                        }
                    }
                    None
                }
                Some((liquidator_max_base_asset_amount, pos2)) => {
                    match read_opt_u64(data, pos2) {
                        None => {
                            proof {
                                assert forall|v: LiquidatePerp| !(is_prefix_at(data@, pos as int, enc_liquidate_perp(v))) by {
                                    if is_prefix_at(data@, pos as int, enc_liquidate_perp(v)) {
                                        lemma_liquidate_perp_parts(data@, pos as int, v);
                                        assert(is_prefix_at(data@, pos as int, enc_u16(v.market_index)));
                                        assert(is_prefix_at(data@, pos1 as int, enc_u64(v.liquidator_max_base_asset_amount)));
                                        assert(is_prefix_at(data@, pos2 as int, enc_opt_u64(v.limit_price)));
                                    }
                                }
                            }
                            None
                        }
                        Some((limit_price, pos3)) => {
                            let result = LiquidatePerp { market_index, liquidator_max_base_asset_amount, limit_price };
                            proof {
                                lemma_join_at(data@, pos as int, pos1 as int, pos2 as int);
                                lemma_join_at(data@, pos as int, pos2 as int, pos3 as int);
                                assert(data@.subrange(pos as int, pos3 as int) == enc_liquidate_perp(result));
                                assert forall|v: LiquidatePerp| is_prefix_at(data@, pos as int, enc_liquidate_perp(v))
                                    implies (result == v && pos3 == pos + enc_liquidate_perp(v).len()) by {
                                    lemma_liquidate_perp_parts(data@, pos as int, v);
                                    assert(is_prefix_at(data@, pos as int, enc_u16(v.market_index)));
                                    assert(is_prefix_at(data@, pos1 as int, enc_u64(v.liquidator_max_base_asset_amount)));
                                    assert(is_prefix_at(data@, pos2 as int, enc_opt_u64(v.limit_price)));
                                }
                            }
                            Some((result, pos3))
                            }
                        }
                    }
                }
            }
        }
}

pub fn write_liquidate_perp(out: &mut Vec<u8>, p: &LiquidatePerp)
    ensures
        final(out)@ == old(out)@ + enc_liquidate_perp(*p),
{
    write_u16(out, p.market_index);
    write_u64(out, p.liquidator_max_base_asset_amount);
    proof {
        lemma_add_assoc(old(out)@, enc_u16(p.market_index), enc_u64(p.liquidator_max_base_asset_amount));
    }
    write_opt_u64(out, p.limit_price);
    proof {
        lemma_add_assoc(old(out)@, enc_u16(p.market_index) + enc_u64(p.liquidator_max_base_asset_amount), enc_opt_u64(p.limit_price));
    }
    proof {
        assert(out@ == old(out)@ + enc_liquidate_perp(*p));
    }
}

#[derive(Clone, Debug, PartialEq)]
pub struct SettleRevenueToInsuranceFund {
    pub spot_market_index: u16,
}

pub open spec fn enc_settle_revenue_to_insurance_fund(p: SettleRevenueToInsuranceFund) -> Seq<u8> {
    enc_u16(p.spot_market_index)
}

pub fn read_settle_revenue_to_insurance_fund(data: &[u8], pos: usize) -> (r: Option<(SettleRevenueToInsuranceFund, usize)>)
    ensures
        r matches Some(p) ==> pos <= p.1 <= data@.len()
            && data@.subrange(pos as int, p.1 as int) == enc_settle_revenue_to_insurance_fund(p.0)
            && p.1 == pos + enc_settle_revenue_to_insurance_fund(p.0).len(),
        forall|v: SettleRevenueToInsuranceFund| is_prefix_at(data@, pos as int, enc_settle_revenue_to_insurance_fund(v))
            ==> (r matches Some(p) && p.0 == v && p.1 == pos + enc_settle_revenue_to_insurance_fund(v).len()),
{
    proof {
        lemma_enc_lens();
    }
    match read_u16(data, pos) {
        None => {
            proof {
                assert forall|v: SettleRevenueToInsuranceFund| !(is_prefix_at(data@, pos as int, enc_settle_revenue_to_insurance_fund(v))) by {
                    if is_prefix_at(data@, pos as int, enc_settle_revenue_to_insurance_fund(v)) {
                        assert(is_prefix_at(data@, pos as int, enc_u16(v.spot_market_index)));
                    }
                }
            }
            None
        }
        Some((spot_market_index, pos1)) => {
            let result = SettleRevenueToInsuranceFund { spot_market_index };
            proof {
                assert(data@.subrange(pos as int, pos1 as int) == enc_settle_revenue_to_insurance_fund(result));
                assert forall|v: SettleRevenueToInsuranceFund| is_prefix_at(data@, pos as int, enc_settle_revenue_to_insurance_fund(v))
                    implies (result == v && pos1 == pos + enc_settle_revenue_to_insurance_fund(v).len()) by {
                    assert(is_prefix_at(data@, pos as int, enc_u16(v.spot_market_index)));
                }
            }
            Some((result, pos1))
            }
        }
}

pub fn write_settle_revenue_to_insurance_fund(out: &mut Vec<u8>, p: &SettleRevenueToInsuranceFund)
    ensures
        final(out)@ == old(out)@ + enc_settle_revenue_to_insurance_fund(*p),
{
    write_u16(out, p.spot_market_index);
    proof {
        assert(out@ == old(out)@ + enc_settle_revenue_to_insurance_fund(*p));
    }
}

#[derive(Clone, Debug, PartialEq)]
pub struct UpdateFundingRate {
    pub market_index: u16,
}

pub open spec fn enc_update_funding_rate(p: UpdateFundingRate) -> Seq<u8> {
    enc_u16(p.market_index)
}

pub fn read_update_funding_rate(data: &[u8], pos: usize) -> (r: Option<(UpdateFundingRate, usize)>)
    ensures
        r matches Some(p) ==> pos <= p.1 <= data@.len()
            && data@.subrange(pos as int, p.1 as int) == enc_update_funding_rate(p.0)
            && p.1 == pos + enc_update_funding_rate(p.0).len(),
        forall|v: UpdateFundingRate| is_prefix_at(data@, pos as int, enc_update_funding_rate(v))
            ==> (r matches Some(p) && p.0 == v && p.1 == pos + enc_update_funding_rate(v).len()),
{
    proof {
        lemma_enc_lens();
    }
    match read_u16(data, pos) {
        None => {
            proof {
                assert forall|v: UpdateFundingRate| !(is_prefix_at(data@, pos as int, enc_update_funding_rate(v))) by {
                    if is_prefix_at(data@, pos as int, enc_update_funding_rate(v)) {
                        assert(is_prefix_at(data@, pos as int, enc_u16(v.market_index)));
                    }
                }
            }
            None
        }
        Some((market_index, pos1)) => {
            let result = UpdateFundingRate { market_index };
            proof {
                assert(data@.subrange(pos as int, pos1 as int) == enc_update_funding_rate(result));
                assert forall|v: UpdateFundingRate| is_prefix_at(data@, pos as int, enc_update_funding_rate(v))
                    implies (result == v && pos1 == pos + enc_update_funding_rate(v).len()) by {
                    assert(is_prefix_at(data@, pos as int, enc_u16(v.market_index)));
                }
            }
            Some((result, pos1))
            }
        }
}

pub fn write_update_funding_rate(out: &mut Vec<u8>, p: &UpdateFundingRate)
    ensures
        final(out)@ == old(out)@ + enc_update_funding_rate(*p),
{
    write_u16(out, p.market_index);
    proof {
        assert(out@ == old(out)@ + enc_update_funding_rate(*p));
    }
}

#[derive(Clone, Debug, PartialEq)]
pub struct UpdatePrelaunchOracle {}

#[derive(Clone, Debug, PartialEq)]
pub struct UpdatePerpBidAskTwap {}

#[derive(Clone, Debug, PartialEq)]
pub struct UpdateAmms {
    pub market_indexes: [u16; 5],
}

pub open spec fn enc_update_amms(p: UpdateAmms) -> Seq<u8> {
    enc_u16x5(p.market_indexes)
}

pub fn read_update_amms(data: &[u8], pos: usize) -> (r: Option<(UpdateAmms, usize)>)
    ensures
        r matches Some(p) ==> pos <= p.1 <= data@.len()
            && data@.subrange(pos as int, p.1 as int) == enc_update_amms(p.0)
            && p.1 == pos + enc_update_amms(p.0).len(),
        forall|v: UpdateAmms| is_prefix_at(data@, pos as int, enc_update_amms(v))
            ==> (r matches Some(p) && p.0 == v && p.1 == pos + enc_update_amms(v).len()),
{
    proof {
        lemma_enc_lens();
    }
    match read_u16x5(data, pos) {
        None => {
            proof {
                assert forall|v: UpdateAmms| !(is_prefix_at(data@, pos as int, enc_update_amms(v))) by {
                    if is_prefix_at(data@, pos as int, enc_update_amms(v)) {
                        assert(is_prefix_at(data@, pos as int, enc_u16x5(v.market_indexes)));
                    }
                }
            }
            None
        }
        Some((market_indexes, pos1)) => {
            let result = UpdateAmms { market_indexes };
            proof {
                assert(data@.subrange(pos as int, pos1 as int) == enc_update_amms(result));
                assert forall|v: UpdateAmms| is_prefix_at(data@, pos as int, enc_update_amms(v))
                    implies (result == v && pos1 == pos + enc_update_amms(v).len()) by {
                    assert(is_prefix_at(data@, pos as int, enc_u16x5(v.market_indexes)));
                }
            }
            Some((result, pos1))
            }
        }
}

pub fn write_update_amms(out: &mut Vec<u8>, p: &UpdateAmms)
    ensures
        final(out)@ == old(out)@ + enc_update_amms(*p),
{
    write_u16x5(out, &p.market_indexes);
    proof {
        assert(out@ == old(out)@ + enc_update_amms(*p));
    }
}

#[derive(Clone, Debug, PartialEq)]
pub struct InitializeInsuranceFundStake {
    pub market_index: u16,
}

pub open spec fn enc_initialize_insurance_fund_stake(p: InitializeInsuranceFundStake) -> Seq<u8> {
    enc_u16(p.market_index)
}

pub fn read_initialize_insurance_fund_stake(data: &[u8], pos: usize) -> (r: Option<(InitializeInsuranceFundStake, usize)>)
    ensures
        r matches Some(p) ==> pos <= p.1 <= data@.len()
            && data@.subrange(pos as int, p.1 as int) == enc_initialize_insurance_fund_stake(p.0)
            && p.1 == pos + enc_initialize_insurance_fund_stake(p.0).len(),
        forall|v: InitializeInsuranceFundStake| is_prefix_at(data@, pos as int, enc_initialize_insurance_fund_stake(v))
            ==> (r matches Some(p) && p.0 == v && p.1 == pos + enc_initialize_insurance_fund_stake(v).len()),
{
    proof {
        lemma_enc_lens();
    }
    match read_u16(data, pos) {
        None => {
            proof {
                assert forall|v: InitializeInsuranceFundStake| !(is_prefix_at(data@, pos as int, enc_initialize_insurance_fund_stake(v))) by {
                    if is_prefix_at(data@, pos as int, enc_initialize_insurance_fund_stake(v)) {
                        assert(is_prefix_at(data@, pos as int, enc_u16(v.market_index)));
                    }
                }
            }
            None
        }
        Some((market_index, pos1)) => {
            let result = InitializeInsuranceFundStake { market_index };
            proof {
                assert(data@.subrange(pos as int, pos1 as int) == enc_initialize_insurance_fund_stake(result));
                assert forall|v: InitializeInsuranceFundStake| is_prefix_at(data@, pos as int, enc_initialize_insurance_fund_stake(v))
                    implies (result == v && pos1 == pos + enc_initialize_insurance_fund_stake(v).len()) by {
                    assert(is_prefix_at(data@, pos as int, enc_u16(v.market_index)));
                }
            }
            Some((result, pos1))
            }
        }
}

pub fn write_initialize_insurance_fund_stake(out: &mut Vec<u8>, p: &InitializeInsuranceFundStake)
    ensures
        final(out)@ == old(out)@ + enc_initialize_insurance_fund_stake(*p),
{
    write_u16(out, p.market_index);
    proof {
        assert(out@ == old(out)@ + enc_initialize_insurance_fund_stake(*p));
    }
}

#[derive(Clone, Debug, PartialEq)]
pub struct AddInsuranceFundStake {
    pub market_index: u16,
    pub amount: u64,
}

pub open spec fn enc_add_insurance_fund_stake(p: AddInsuranceFundStake) -> Seq<u8> {
    enc_u16(p.market_index) + enc_u64(p.amount)
}

proof fn lemma_add_insurance_fund_stake_parts(data: Seq<u8>, pos: int, v: AddInsuranceFundStake)
    requires
        is_prefix_at(data, pos, enc_add_insurance_fund_stake(v)),
    ensures
        is_prefix_at(data, pos, enc_u16(v.market_index)),
        is_prefix_at(data, pos + enc_u16(v.market_index).len(), enc_u64(v.amount)),
{
    lemma_enc_lens();
    lemma_split_prefix(data, pos, enc_u16(v.market_index), enc_u64(v.amount));
}

pub fn read_add_insurance_fund_stake(data: &[u8], pos: usize) -> (r: Option<(AddInsuranceFundStake, usize)>)
    ensures
        r matches Some(p) ==> pos <= p.1 <= data@.len()
            && data@.subrange(pos as int, p.1 as int) == enc_add_insurance_fund_stake(p.0)
            && p.1 == pos + enc_add_insurance_fund_stake(p.0).len(),
        forall|v: AddInsuranceFundStake| is_prefix_at(data@, pos as int, enc_add_insurance_fund_stake(v))
            ==> (r matches Some(p) && p.0 == v && p.1 == pos + enc_add_insurance_fund_stake(v).len()),
{
    proof {
        lemma_enc_lens();
    }
    match read_u16(data, pos) {
        None => {
            proof {
                assert forall|v: AddInsuranceFundStake| !(is_prefix_at(data@, pos as int, enc_add_insurance_fund_stake(v))) by {
                    if is_prefix_at(data@, pos as int, enc_add_insurance_fund_stake(v)) {
                        lemma_add_insurance_fund_stake_parts(data@, pos as int, v);
                        assert(is_prefix_at(data@, pos as int, enc_u16(v.market_index)));
                    }
                }
            }
            None
        }
        Some((market_index, pos1)) => {
            match read_u64(data, pos1) {
                None => {
                    proof {
                        assert forall|v: AddInsuranceFundStake| !(is_prefix_at(data@, pos as int, enc_add_insurance_fund_stake(v))) by {
                            if is_prefix_at(data@, pos as int, enc_add_insurance_fund_stake(v)) {
                                lemma_add_insurance_fund_stake_parts(data@, pos as int, v);
                                assert(is_prefix_at(data@, pos as int, enc_u16(v.market_index)));
                                assert(is_prefix_at(data@, pos1 as int, enc_u64(v.amount)));
                            }
                        }
                    }
                    None
                }
                Some((amount, pos2)) => {
                    let result = AddInsuranceFundStake { market_index, amount };
                    proof {
                        lemma_join_at(data@, pos as int, pos1 as int, pos2 as int);
                        assert(data@.subrange(pos as int, pos2 as int) == enc_add_insurance_fund_stake(result));
                        assert forall|v: AddInsuranceFundStake| is_prefix_at(data@, pos as int, enc_add_insurance_fund_stake(v))
                            implies (result == v && pos2 == pos + enc_add_insurance_fund_stake(v).len()) by {
                            lemma_add_insurance_fund_stake_parts(data@, pos as int, v);
                            assert(is_prefix_at(data@, pos as int, enc_u16(v.market_index)));
                            assert(is_prefix_at(data@, pos1 as int, enc_u64(v.amount)));
                        }
                    }
                    Some((result, pos2))
                    }
                }
            }
        }
}

pub fn write_add_insurance_fund_stake(out: &mut Vec<u8>, p: &AddInsuranceFundStake)
    ensures
        final(out)@ == old(out)@ + enc_add_insurance_fund_stake(*p),
{
    write_u16(out, p.market_index);
    write_u64(out, p.amount);
    proof {
        lemma_add_assoc(old(out)@, enc_u16(p.market_index), enc_u64(p.amount));
    }
    proof {
        assert(out@ == old(out)@ + enc_add_insurance_fund_stake(*p));
    }
}

#[derive(Clone, Debug, PartialEq)]
pub struct RequestRemoveInsuranceFundStake {
    pub market_index: u16,
    pub amount: u64,
}

pub open spec fn enc_request_remove_insurance_fund_stake(p: RequestRemoveInsuranceFundStake) -> Seq<u8> {
    enc_u16(p.market_index) + enc_u64(p.amount)
}

proof fn lemma_request_remove_insurance_fund_stake_parts(data: Seq<u8>, pos: int, v: RequestRemoveInsuranceFundStake)
    requires
        is_prefix_at(data, pos, enc_request_remove_insurance_fund_stake(v)),
    ensures
        is_prefix_at(data, pos, enc_u16(v.market_index)),
        is_prefix_at(data, pos + enc_u16(v.market_index).len(), enc_u64(v.amount)),
{
    lemma_enc_lens();
    lemma_split_prefix(data, pos, enc_u16(v.market_index), enc_u64(v.amount));
}

pub fn read_request_remove_insurance_fund_stake(data: &[u8], pos: usize) -> (r: Option<(RequestRemoveInsuranceFundStake, usize)>)
    ensures
        r matches Some(p) ==> pos <= p.1 <= data@.len()
            && data@.subrange(pos as int, p.1 as int) == enc_request_remove_insurance_fund_stake(p.0)
            && p.1 == pos + enc_request_remove_insurance_fund_stake(p.0).len(),
        forall|v: RequestRemoveInsuranceFundStake| is_prefix_at(data@, pos as int, enc_request_remove_insurance_fund_stake(v))
            ==> (r matches Some(p) && p.0 == v && p.1 == pos + enc_request_remove_insurance_fund_stake(v).len()),
{
    proof {
        lemma_enc_lens();
    }
    match read_u16(data, pos) {
        None => {
            proof {
                assert forall|v: RequestRemoveInsuranceFundStake| !(is_prefix_at(data@, pos as int, enc_request_remove_insurance_fund_stake(v))) by {
                    if is_prefix_at(data@, pos as int, enc_request_remove_insurance_fund_stake(v)) {
                        lemma_request_remove_insurance_fund_stake_parts(data@, pos as int, v);
                        assert(is_prefix_at(data@, pos as int, enc_u16(v.market_index)));
                    }
                }
            }
            None
        }
        Some((market_index, pos1)) => {
            match read_u64(data, pos1) {
                None => {
                    proof {
                        assert forall|v: RequestRemoveInsuranceFundStake| !(is_prefix_at(data@, pos as int, enc_request_remove_insurance_fund_stake(v))) by {
                            if is_prefix_at(data@, pos as int, enc_request_remove_insurance_fund_stake(v)) {
                                lemma_request_remove_insurance_fund_stake_parts(data@, pos as int, v);
                                assert(is_prefix_at(data@, pos as int, enc_u16(v.market_index)));
                                assert(is_prefix_at(data@, pos1 as int, enc_u64(v.amount)));
                            }
                        }
                    }
                    None
                }
                Some((amount, pos2)) => {
                    let result = RequestRemoveInsuranceFundStake { market_index, amount };
                    proof {
                        lemma_join_at(data@, pos as int, pos1 as int, pos2 as int);
                        assert(data@.subrange(pos as int, pos2 as int) == enc_request_remove_insurance_fund_stake(result));
                        assert forall|v: RequestRemoveInsuranceFundStake| is_prefix_at(data@, pos as int, enc_request_remove_insurance_fund_stake(v))
                            implies (result == v && pos2 == pos + enc_request_remove_insurance_fund_stake(v).len()) by {
                            lemma_request_remove_insurance_fund_stake_parts(data@, pos as int, v);
                            assert(is_prefix_at(data@, pos as int, enc_u16(v.market_index)));
                            assert(is_prefix_at(data@, pos1 as int, enc_u64(v.amount)));
                        }
                    }
                    Some((result, pos2))
                    }
                }
            }
        }
}

pub fn write_request_remove_insurance_fund_stake(out: &mut Vec<u8>, p: &RequestRemoveInsuranceFundStake)
    ensures
        final(out)@ == old(out)@ + enc_request_remove_insurance_fund_stake(*p),
{
    write_u16(out, p.market_index);
    write_u64(out, p.amount);
    proof {
        lemma_add_assoc(old(out)@, enc_u16(p.market_index), enc_u64(p.amount));
    }
    proof {
        assert(out@ == old(out)@ + enc_request_remove_insurance_fund_stake(*p));
    }
}

#[derive(Clone, Debug, PartialEq)]
pub struct CancelRequestRemoveInsuranceFundStake {
    pub market_index: u16,
}

pub open spec fn enc_cancel_request_remove_insurance_fund_stake(p: CancelRequestRemoveInsuranceFundStake) -> Seq<u8> {
    enc_u16(p.market_index)
}

pub fn read_cancel_request_remove_insurance_fund_stake(data: &[u8], pos: usize) -> (r: Option<(CancelRequestRemoveInsuranceFundStake, usize)>)
    ensures
        r matches Some(p) ==> pos <= p.1 <= data@.len()
            && data@.subrange(pos as int, p.1 as int) == enc_cancel_request_remove_insurance_fund_stake(p.0)
            && p.1 == pos + enc_cancel_request_remove_insurance_fund_stake(p.0).len(),
        forall|v: CancelRequestRemoveInsuranceFundStake| is_prefix_at(data@, pos as int, enc_cancel_request_remove_insurance_fund_stake(v))
            ==> (r matches Some(p) && p.0 == v && p.1 == pos + enc_cancel_request_remove_insurance_fund_stake(v).len()),
{
    proof {
        lemma_enc_lens();
    }
    match read_u16(data, pos) {
        None => {
            proof {
                assert forall|v: CancelRequestRemoveInsuranceFundStake| !(is_prefix_at(data@, pos as int, enc_cancel_request_remove_insurance_fund_stake(v))) by {
                    if is_prefix_at(data@, pos as int, enc_cancel_request_remove_insurance_fund_stake(v)) {
                        assert(is_prefix_at(data@, pos as int, enc_u16(v.market_index)));
                    }
                }
            }
            None
        }
        Some((market_index, pos1)) => {
            let result = CancelRequestRemoveInsuranceFundStake { market_index };
            proof {
                assert(data@.subrange(pos as int, pos1 as int) == enc_cancel_request_remove_insurance_fund_stake(result));
                assert forall|v: CancelRequestRemoveInsuranceFundStake| is_prefix_at(data@, pos as int, enc_cancel_request_remove_insurance_fund_stake(v))
                    implies (result == v && pos1 == pos + enc_cancel_request_remove_insurance_fund_stake(v).len()) by {
                    assert(is_prefix_at(data@, pos as int, enc_u16(v.market_index)));
                }
            }
            Some((result, pos1))
            }
        }
}

pub fn write_cancel_request_remove_insurance_fund_stake(out: &mut Vec<u8>, p: &CancelRequestRemoveInsuranceFundStake)
    ensures
        final(out)@ == old(out)@ + enc_cancel_request_remove_insurance_fund_stake(*p),
{
    write_u16(out, p.market_index);
    proof {
        assert(out@ == old(out)@ + enc_cancel_request_remove_insurance_fund_stake(*p));
    }
}

#[derive(Clone, Debug, PartialEq)]
pub struct RemoveInsuranceFundStake {
    pub market_index: u16,
}

pub open spec fn enc_remove_insurance_fund_stake(p: RemoveInsuranceFundStake) -> Seq<u8> {
    enc_u16(p.market_index)
}

pub fn read_remove_insurance_fund_stake(data: &[u8], pos: usize) -> (r: Option<(RemoveInsuranceFundStake, usize)>)
    ensures
        r matches Some(p) ==> pos <= p.1 <= data@.len()
            && data@.subrange(pos as int, p.1 as int) == enc_remove_insurance_fund_stake(p.0)
            && p.1 == pos + enc_remove_insurance_fund_stake(p.0).len(),
        forall|v: RemoveInsuranceFundStake| is_prefix_at(data@, pos as int, enc_remove_insurance_fund_stake(v))
            ==> (r matches Some(p) && p.0 == v && p.1 == pos + enc_remove_insurance_fund_stake(v).len()),
{
    proof {
        lemma_enc_lens();
    }
    match read_u16(data, pos) {
        None => {
            proof {
                assert forall|v: RemoveInsuranceFundStake| !(is_prefix_at(data@, pos as int, enc_remove_insurance_fund_stake(v))) by {
                    if is_prefix_at(data@, pos as int, enc_remove_insurance_fund_stake(v)) {
                        assert(is_prefix_at(data@, pos as int, enc_u16(v.market_index)));
                    }
                }
            }
            None
        }
        Some((market_index, pos1)) => {
            let result = RemoveInsuranceFundStake { market_index };
            proof {
                assert(data@.subrange(pos as int, pos1 as int) == enc_remove_insurance_fund_stake(result));
                assert forall|v: RemoveInsuranceFundStake| is_prefix_at(data@, pos as int, enc_remove_insurance_fund_stake(v))
                    implies (result == v && pos1 == pos + enc_remove_insurance_fund_stake(v).len()) by {
                    assert(is_prefix_at(data@, pos as int, enc_u16(v.market_index)));
                }
            }
            Some((result, pos1))
            }
        }
}

pub fn write_remove_insurance_fund_stake(out: &mut Vec<u8>, p: &RemoveInsuranceFundStake)
    ensures
        final(out)@ == old(out)@ + enc_remove_insurance_fund_stake(*p),
{
    write_u16(out, p.market_index);
    proof {
        assert(out@ == old(out)@ + enc_remove_insurance_fund_stake(*p));
    }
}

#[derive(Clone, Debug, PartialEq)]
pub struct DepositIntoSpotMarketRevenuePool {
    pub amount: u64,
}

pub open spec fn enc_deposit_into_spot_market_revenue_pool(p: DepositIntoSpotMarketRevenuePool) -> Seq<u8> {
    enc_u64(p.amount)
}

pub fn read_deposit_into_spot_market_revenue_pool(data: &[u8], pos: usize) -> (r: Option<(DepositIntoSpotMarketRevenuePool, usize)>)
    ensures
        r matches Some(p) ==> pos <= p.1 <= data@.len()
            && data@.subrange(pos as int, p.1 as int) == enc_deposit_into_spot_market_revenue_pool(p.0)
            && p.1 == pos + enc_deposit_into_spot_market_revenue_pool(p.0).len(),
        forall|v: DepositIntoSpotMarketRevenuePool| is_prefix_at(data@, pos as int, enc_deposit_into_spot_market_revenue_pool(v))
            ==> (r matches Some(p) && p.0 == v && p.1 == pos + enc_deposit_into_spot_market_revenue_pool(v).len()),
{
    proof {
        lemma_enc_lens();
    }
    match read_u64(data, pos) {
        None => {
            proof {
                assert forall|v: DepositIntoSpotMarketRevenuePool| !(is_prefix_at(data@, pos as int, enc_deposit_into_spot_market_revenue_pool(v))) by {
                    if is_prefix_at(data@, pos as int, enc_deposit_into_spot_market_revenue_pool(v)) {
                        assert(is_prefix_at(data@, pos as int, enc_u64(v.amount)));
                    }
                }
            }
            None
        }
        Some((amount, pos1)) => {
            let result = DepositIntoSpotMarketRevenuePool { amount };
            proof {
                assert(data@.subrange(pos as int, pos1 as int) == enc_deposit_into_spot_market_revenue_pool(result));
                assert forall|v: DepositIntoSpotMarketRevenuePool| is_prefix_at(data@, pos as int, enc_deposit_into_spot_market_revenue_pool(v))
                    implies (result == v && pos1 == pos + enc_deposit_into_spot_market_revenue_pool(v).len()) by {
                    assert(is_prefix_at(data@, pos as int, enc_u64(v.amount)));
                }
            }
            Some((result, pos1))
            }
        }
}

pub fn write_deposit_into_spot_market_revenue_pool(out: &mut Vec<u8>, p: &DepositIntoSpotMarketRevenuePool)
    ensures
        final(out)@ == old(out)@ + enc_deposit_into_spot_market_revenue_pool(*p),
{
    write_u64(out, p.amount);
    proof {
        assert(out@ == old(out)@ + enc_deposit_into_spot_market_revenue_pool(*p));
    }
}

} // verus!
