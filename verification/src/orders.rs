//! The order-placement parameter types of the catalog: the small
//! enumerations whose declaration order is part of the wire contract,
//! and the two composite parameter records.

use vstd::prelude::*;
use crate::wire::{
    enc_bool, enc_i32, enc_i64, enc_u16, enc_u32, enc_u64, enc_u8, is_prefix_at,
    lemma_add_assoc, lemma_enc_lens, lemma_join_at, lemma_split_prefix, read_bool, read_i32, read_i64,
    read_u16, read_u32, read_u64, read_u8, write_bool, write_i32, write_i64, write_u16,
    write_u32, write_u64, write_u8,
};
use crate::fields::{
    enc_opt_bool, enc_opt_i32, enc_opt_i64, enc_opt_u64, enc_opt_u8, read_opt_bool,
    read_opt_i32, read_opt_i64, read_opt_u64, read_opt_u8, write_opt_bool, write_opt_i32,
    write_opt_i64, write_opt_u64, write_opt_u8,
};

verus! {

#[derive(Clone, Copy, Debug, PartialEq, Eq)]
pub enum OrderType {
    Market,
    Limit,
    TriggerMarket,
    TriggerLimit,
    Oracle,
}

pub open spec fn order_type_tag(v: OrderType) -> u8 {
    match v {
        OrderType::Market => 0,
        OrderType::Limit => 1,
        OrderType::TriggerMarket => 2,
        OrderType::TriggerLimit => 3,
        OrderType::Oracle => 4,
    }
}

pub open spec fn enc_order_type(v: OrderType) -> Seq<u8> {
    seq![order_type_tag(v)]
}

pub fn read_order_type(data: &[u8], pos: usize) -> (r: Option<(OrderType, usize)>)
    ensures
        r matches Some(p) ==> pos + 1 <= data@.len() && p.1 == pos + 1
            && data@.subrange(pos as int, p.1 as int) == enc_order_type(p.0),
        forall|v: OrderType| is_prefix_at(data@, pos as int, enc_order_type(v))
            ==> (r matches Some(p) && p.0 == v && p.1 == pos + enc_order_type(v).len()),
{
    if pos < data.len() {
        let b = data[pos];
        if b < 5 {
            let v = if b == 0 {
                OrderType::Market
            } else if b == 1 {
                OrderType::Limit
            } else if b == 2 {
                OrderType::TriggerMarket
            } else if b == 3 {
                OrderType::TriggerLimit
            } else {
                OrderType::Oracle
            };
            proof {
                assert(data@.subrange(pos as int, pos as int + 1) =~= enc_order_type(v));
                assert forall|w: OrderType| is_prefix_at(data@, pos as int, enc_order_type(w)) implies w == v by {
                    assert(data@.subrange(pos as int, pos as int + 1)[0] == order_type_tag(w));
                }
            }
            Some((v, pos + 1))
        } else {
            proof {
                assert forall|w: OrderType| !is_prefix_at(data@, pos as int, enc_order_type(w)) by {
                    if is_prefix_at(data@, pos as int, enc_order_type(w)) {
                        assert(data@.subrange(pos as int, pos as int + 1)[0] == order_type_tag(w));
                    }
                }
            }
            None
        }
    } else {
        None
    }
}

pub fn write_order_type(out: &mut Vec<u8>, v: OrderType)
    ensures
        final(out)@ == old(out)@ + enc_order_type(v),
{
    let b: u8 = match v {
        OrderType::Market => 0,
        OrderType::Limit => 1,
        OrderType::TriggerMarket => 2,
        OrderType::TriggerLimit => 3,
        OrderType::Oracle => 4,
    };
    out.push(b);
    proof {
        assert(out@ =~= old(out)@ + enc_order_type(v));
    }
}

#[derive(Clone, Copy, Debug, PartialEq, Eq)]
pub enum MarketType {
    Spot,
    Perp,
}

pub open spec fn market_type_tag(v: MarketType) -> u8 {
    match v {
        MarketType::Spot => 0,
        MarketType::Perp => 1,
    }
}

pub open spec fn enc_market_type(v: MarketType) -> Seq<u8> {
    seq![market_type_tag(v)]
}

pub fn read_market_type(data: &[u8], pos: usize) -> (r: Option<(MarketType, usize)>)
    ensures
        r matches Some(p) ==> pos + 1 <= data@.len() && p.1 == pos + 1
            && data@.subrange(pos as int, p.1 as int) == enc_market_type(p.0),
        forall|v: MarketType| is_prefix_at(data@, pos as int, enc_market_type(v))
            ==> (r matches Some(p) && p.0 == v && p.1 == pos + enc_market_type(v).len()),
{
    if pos < data.len() {
        let b = data[pos];
        if b < 2 {
            let v = if b == 0 {
                MarketType::Spot
            } else {
                MarketType::Perp
            };
            proof {
                assert(data@.subrange(pos as int, pos as int + 1) =~= enc_market_type(v));
                assert forall|w: MarketType| is_prefix_at(data@, pos as int, enc_market_type(w)) implies w == v by {
                    assert(data@.subrange(pos as int, pos as int + 1)[0] == market_type_tag(w));
                }
            }
            Some((v, pos + 1))
        } else {
            proof {
                assert forall|w: MarketType| !is_prefix_at(data@, pos as int, enc_market_type(w)) by {
                    if is_prefix_at(data@, pos as int, enc_market_type(w)) {
                        assert(data@.subrange(pos as int, pos as int + 1)[0] == market_type_tag(w));
                    }
                }
            }
            None
        }
    } else {
        None
    }
}

pub fn write_market_type(out: &mut Vec<u8>, v: MarketType)
    ensures
        final(out)@ == old(out)@ + enc_market_type(v),
{
    let b: u8 = match v {
        MarketType::Spot => 0,
        MarketType::Perp => 1,
    };
    out.push(b);
    proof {
        assert(out@ =~= old(out)@ + enc_market_type(v));
    }
}

#[derive(Clone, Copy, Debug, PartialEq, Eq)]
pub enum PositionDirection {
    Long,
    Short,
}

pub open spec fn position_direction_tag(v: PositionDirection) -> u8 {
    match v {
        PositionDirection::Long => 0,
        PositionDirection::Short => 1,
    }
}

pub open spec fn enc_position_direction(v: PositionDirection) -> Seq<u8> {
    seq![position_direction_tag(v)]
}

pub fn read_position_direction(data: &[u8], pos: usize) -> (r: Option<(PositionDirection, usize)>)
    ensures
        r matches Some(p) ==> pos + 1 <= data@.len() && p.1 == pos + 1
            && data@.subrange(pos as int, p.1 as int) == enc_position_direction(p.0),
        forall|v: PositionDirection| is_prefix_at(data@, pos as int, enc_position_direction(v))
            ==> (r matches Some(p) && p.0 == v && p.1 == pos + enc_position_direction(v).len()),
{
    if pos < data.len() {
        let b = data[pos];
        if b < 2 {
            let v = if b == 0 {
                PositionDirection::Long
            } else {
                PositionDirection::Short
            };
            proof {
                assert(data@.subrange(pos as int, pos as int + 1) =~= enc_position_direction(v));
                assert forall|w: PositionDirection| is_prefix_at(data@, pos as int, enc_position_direction(w)) implies w == v by {
                    assert(data@.subrange(pos as int, pos as int + 1)[0] == position_direction_tag(w));
                }
            }
            Some((v, pos + 1))
        } else {
            proof {
                assert forall|w: PositionDirection| !is_prefix_at(data@, pos as int, enc_position_direction(w)) by {
                    if is_prefix_at(data@, pos as int, enc_position_direction(w)) {
                        assert(data@.subrange(pos as int, pos as int + 1)[0] == position_direction_tag(w));
                    }
                }
            }
            None
        }
    } else {
        None
    }
}

pub fn write_position_direction(out: &mut Vec<u8>, v: PositionDirection)
    ensures
        final(out)@ == old(out)@ + enc_position_direction(v),
{
    let b: u8 = match v {
        PositionDirection::Long => 0,
        PositionDirection::Short => 1,
    };
    out.push(b);
    proof {
        assert(out@ =~= old(out)@ + enc_position_direction(v));
    }
}

#[derive(Clone, Copy, Debug, PartialEq, Eq)]
pub enum SpotFulfillmentType {
    SerumV3,
    Match,
    PhoenixV1,
}

pub open spec fn spot_fulfillment_type_tag(v: SpotFulfillmentType) -> u8 {
    match v {
        SpotFulfillmentType::SerumV3 => 0,
        SpotFulfillmentType::Match => 1,
        SpotFulfillmentType::PhoenixV1 => 2,
    }
}

pub open spec fn enc_spot_fulfillment_type(v: SpotFulfillmentType) -> Seq<u8> {
    seq![spot_fulfillment_type_tag(v)]
}

pub fn read_spot_fulfillment_type(data: &[u8], pos: usize) -> (r: Option<(SpotFulfillmentType, usize)>)
    ensures
        r matches Some(p) ==> pos + 1 <= data@.len() && p.1 == pos + 1
            && data@.subrange(pos as int, p.1 as int) == enc_spot_fulfillment_type(p.0),
        forall|v: SpotFulfillmentType| is_prefix_at(data@, pos as int, enc_spot_fulfillment_type(v))
            ==> (r matches Some(p) && p.0 == v && p.1 == pos + enc_spot_fulfillment_type(v).len()),
{
    if pos < data.len() {
        let b = data[pos];
        if b < 3 {
            let v = if b == 0 {
                SpotFulfillmentType::SerumV3
            } else if b == 1 {
                SpotFulfillmentType::Match
            } else {
                SpotFulfillmentType::PhoenixV1
            };
            proof {
                assert(data@.subrange(pos as int, pos as int + 1) =~= enc_spot_fulfillment_type(v));
                assert forall|w: SpotFulfillmentType| is_prefix_at(data@, pos as int, enc_spot_fulfillment_type(w)) implies w == v by {
                    assert(data@.subrange(pos as int, pos as int + 1)[0] == spot_fulfillment_type_tag(w));
                }
            }
            Some((v, pos + 1))
        } else {
            proof {
                assert forall|w: SpotFulfillmentType| !is_prefix_at(data@, pos as int, enc_spot_fulfillment_type(w)) by {
                    if is_prefix_at(data@, pos as int, enc_spot_fulfillment_type(w)) {
                        assert(data@.subrange(pos as int, pos as int + 1)[0] == spot_fulfillment_type_tag(w));
                    }
                }
            }
            None
        }
    } else {
        None
    }
}

pub fn write_spot_fulfillment_type(out: &mut Vec<u8>, v: SpotFulfillmentType)
    ensures
        final(out)@ == old(out)@ + enc_spot_fulfillment_type(v),
{
    let b: u8 = match v {
        SpotFulfillmentType::SerumV3 => 0,
        SpotFulfillmentType::Match => 1,
        SpotFulfillmentType::PhoenixV1 => 2,
    };
    out.push(b);
    proof {
        assert(out@ =~= old(out)@ + enc_spot_fulfillment_type(v));
    }
}

#[derive(Clone, Copy, Debug, PartialEq, Eq)]
pub enum SwapReduceOnly {
    In,
    Out,
}

pub open spec fn swap_reduce_only_tag(v: SwapReduceOnly) -> u8 {
    match v {
        SwapReduceOnly::In => 0,
        SwapReduceOnly::Out => 1,
    }
}

pub open spec fn enc_swap_reduce_only(v: SwapReduceOnly) -> Seq<u8> {
    seq![swap_reduce_only_tag(v)]
}

pub fn read_swap_reduce_only(data: &[u8], pos: usize) -> (r: Option<(SwapReduceOnly, usize)>)
    ensures
        r matches Some(p) ==> pos + 1 <= data@.len() && p.1 == pos + 1
            && data@.subrange(pos as int, p.1 as int) == enc_swap_reduce_only(p.0),
        forall|v: SwapReduceOnly| is_prefix_at(data@, pos as int, enc_swap_reduce_only(v))
            ==> (r matches Some(p) && p.0 == v && p.1 == pos + enc_swap_reduce_only(v).len()),
{
    if pos < data.len() {
        let b = data[pos];
        if b < 2 {
            let v = if b == 0 {
                SwapReduceOnly::In
            } else {
                SwapReduceOnly::Out
            };
            proof {
                assert(data@.subrange(pos as int, pos as int + 1) =~= enc_swap_reduce_only(v));
                assert forall|w: SwapReduceOnly| is_prefix_at(data@, pos as int, enc_swap_reduce_only(w)) implies w == v by {
                    assert(data@.subrange(pos as int, pos as int + 1)[0] == swap_reduce_only_tag(w));
                }
            }
            Some((v, pos + 1))
        } else {
            proof {
                assert forall|w: SwapReduceOnly| !is_prefix_at(data@, pos as int, enc_swap_reduce_only(w)) by {
                    if is_prefix_at(data@, pos as int, enc_swap_reduce_only(w)) {
                        assert(data@.subrange(pos as int, pos as int + 1)[0] == swap_reduce_only_tag(w));
                    }
                }
            }
            None
        }
    } else {
        None
    }
}

pub fn write_swap_reduce_only(out: &mut Vec<u8>, v: SwapReduceOnly)
    ensures
        final(out)@ == old(out)@ + enc_swap_reduce_only(v),
{
    let b: u8 = match v {
        SwapReduceOnly::In => 0,
        SwapReduceOnly::Out => 1,
    };
    out.push(b);
    proof {
        assert(out@ =~= old(out)@ + enc_swap_reduce_only(v));
    }
}

#[derive(Clone, Copy, Debug, PartialEq, Eq)]
pub enum PostOnlyParam {
    NoPostOnly,
    MustPostOnly,
    TryPostOnly,
    Slide,
}

pub open spec fn post_only_param_tag(v: PostOnlyParam) -> u8 {
    match v {
        PostOnlyParam::NoPostOnly => 0,
        PostOnlyParam::MustPostOnly => 1,
        PostOnlyParam::TryPostOnly => 2,
        PostOnlyParam::Slide => 3,
    }
}

pub open spec fn enc_post_only_param(v: PostOnlyParam) -> Seq<u8> {
    seq![post_only_param_tag(v)]
}

pub fn read_post_only_param(data: &[u8], pos: usize) -> (r: Option<(PostOnlyParam, usize)>)
    ensures
        r matches Some(p) ==> pos + 1 <= data@.len() && p.1 == pos + 1
            && data@.subrange(pos as int, p.1 as int) == enc_post_only_param(p.0),
        forall|v: PostOnlyParam| is_prefix_at(data@, pos as int, enc_post_only_param(v))
            ==> (r matches Some(p) && p.0 == v && p.1 == pos + enc_post_only_param(v).len()),
{
    if pos < data.len() {
        let b = data[pos];
        if b < 4 {
            let v = if b == 0 {
                PostOnlyParam::NoPostOnly
            } else if b == 1 {
                PostOnlyParam::MustPostOnly
            } else if b == 2 {
                PostOnlyParam::TryPostOnly
            } else {
                PostOnlyParam::Slide
            };
            proof {
                assert(data@.subrange(pos as int, pos as int + 1) =~= enc_post_only_param(v));
                assert forall|w: PostOnlyParam| is_prefix_at(data@, pos as int, enc_post_only_param(w)) implies w == v by {
                    assert(data@.subrange(pos as int, pos as int + 1)[0] == post_only_param_tag(w));
                }
            }
            Some((v, pos + 1))
        } else {
            proof {
                assert forall|w: PostOnlyParam| !is_prefix_at(data@, pos as int, enc_post_only_param(w)) by {
                    if is_prefix_at(data@, pos as int, enc_post_only_param(w)) {
                        assert(data@.subrange(pos as int, pos as int + 1)[0] == post_only_param_tag(w));
                    }
                }
            }
            None
        }
    } else {
        None
    }
}

pub fn write_post_only_param(out: &mut Vec<u8>, v: PostOnlyParam)
    ensures
        final(out)@ == old(out)@ + enc_post_only_param(v),
{
    let b: u8 = match v {
        PostOnlyParam::NoPostOnly => 0,
        PostOnlyParam::MustPostOnly => 1,
        PostOnlyParam::TryPostOnly => 2,
        PostOnlyParam::Slide => 3,
    };
    out.push(b);
    proof {
        assert(out@ =~= old(out)@ + enc_post_only_param(v));
    }
}

#[derive(Clone, Copy, Debug, PartialEq, Eq)]
pub enum OrderTriggerCondition {
    Above,
    Below,
    TriggeredAbove,
    TriggeredBelow,
}

pub open spec fn order_trigger_condition_tag(v: OrderTriggerCondition) -> u8 {
    match v {
        OrderTriggerCondition::Above => 0,
        OrderTriggerCondition::Below => 1,
        OrderTriggerCondition::TriggeredAbove => 2,
        OrderTriggerCondition::TriggeredBelow => 3,
    }
}

pub open spec fn enc_order_trigger_condition(v: OrderTriggerCondition) -> Seq<u8> {
    seq![order_trigger_condition_tag(v)]
}

pub fn read_order_trigger_condition(data: &[u8], pos: usize) -> (r: Option<(OrderTriggerCondition, usize)>)
    ensures
        r matches Some(p) ==> pos + 1 <= data@.len() && p.1 == pos + 1
            && data@.subrange(pos as int, p.1 as int) == enc_order_trigger_condition(p.0),
        forall|v: OrderTriggerCondition| is_prefix_at(data@, pos as int, enc_order_trigger_condition(v))
            ==> (r matches Some(p) && p.0 == v && p.1 == pos + enc_order_trigger_condition(v).len()),
{
    if pos < data.len() {
        let b = data[pos];
        if b < 4 {
            let v = if b == 0 {
                OrderTriggerCondition::Above
            } else if b == 1 {
                OrderTriggerCondition::Below
            } else if b == 2 {
                OrderTriggerCondition::TriggeredAbove
            } else {
                OrderTriggerCondition::TriggeredBelow
            };
            proof {
                assert(data@.subrange(pos as int, pos as int + 1) =~= enc_order_trigger_condition(v));
                assert forall|w: OrderTriggerCondition| is_prefix_at(data@, pos as int, enc_order_trigger_condition(w)) implies w == v by {
                    assert(data@.subrange(pos as int, pos as int + 1)[0] == order_trigger_condition_tag(w));
                }
            }
            Some((v, pos + 1))
        } else {
            proof {
                assert forall|w: OrderTriggerCondition| !is_prefix_at(data@, pos as int, enc_order_trigger_condition(w)) by {
                    if is_prefix_at(data@, pos as int, enc_order_trigger_condition(w)) {
                        assert(data@.subrange(pos as int, pos as int + 1)[0] == order_trigger_condition_tag(w));
                    }
                }
            }
            None
        }
    } else {
        None
    }
}

pub fn write_order_trigger_condition(out: &mut Vec<u8>, v: OrderTriggerCondition)
    ensures
        final(out)@ == old(out)@ + enc_order_trigger_condition(v),
{
    let b: u8 = match v {
        OrderTriggerCondition::Above => 0,
        OrderTriggerCondition::Below => 1,
        OrderTriggerCondition::TriggeredAbove => 2,
        OrderTriggerCondition::TriggeredBelow => 3,
    };
    out.push(b);
    proof {
        assert(out@ =~= old(out)@ + enc_order_trigger_condition(v));
    }
}

#[derive(Clone, Copy, Debug, PartialEq, Eq)]
pub enum ModifyOrderPolicy {
    TryModify,
    MustModify,
}

pub open spec fn modify_order_policy_tag(v: ModifyOrderPolicy) -> u8 {
    match v {
        ModifyOrderPolicy::TryModify => 0,
        ModifyOrderPolicy::MustModify => 1,
    }
}

pub open spec fn enc_modify_order_policy(v: ModifyOrderPolicy) -> Seq<u8> {
    seq![modify_order_policy_tag(v)]
}

pub fn read_modify_order_policy(data: &[u8], pos: usize) -> (r: Option<(ModifyOrderPolicy, usize)>)
    ensures
        r matches Some(p) ==> pos + 1 <= data@.len() && p.1 == pos + 1
            && data@.subrange(pos as int, p.1 as int) == enc_modify_order_policy(p.0),
        forall|v: ModifyOrderPolicy| is_prefix_at(data@, pos as int, enc_modify_order_policy(v))
            ==> (r matches Some(p) && p.0 == v && p.1 == pos + enc_modify_order_policy(v).len()),
{
    if pos < data.len() {
        let b = data[pos];
        if b < 2 {
            let v = if b == 0 {
                ModifyOrderPolicy::TryModify
            } else {
                ModifyOrderPolicy::MustModify
            };
            proof {
                assert(data@.subrange(pos as int, pos as int + 1) =~= enc_modify_order_policy(v));
                assert forall|w: ModifyOrderPolicy| is_prefix_at(data@, pos as int, enc_modify_order_policy(w)) implies w == v by {
                    assert(data@.subrange(pos as int, pos as int + 1)[0] == modify_order_policy_tag(w));
                }
            }
            Some((v, pos + 1))
        } else {
            proof {
                assert forall|w: ModifyOrderPolicy| !is_prefix_at(data@, pos as int, enc_modify_order_policy(w)) by {
                    if is_prefix_at(data@, pos as int, enc_modify_order_policy(w)) {
                        assert(data@.subrange(pos as int, pos as int + 1)[0] == modify_order_policy_tag(w));
                    }
                }
            }
            None
        }
    } else {
        None
    }
}

pub fn write_modify_order_policy(out: &mut Vec<u8>, v: ModifyOrderPolicy)
    ensures
        final(out)@ == old(out)@ + enc_modify_order_policy(v),
{
    let b: u8 = match v {
        ModifyOrderPolicy::TryModify => 0,
        ModifyOrderPolicy::MustModify => 1,
    };
    out.push(b);
    proof {
        assert(out@ =~= old(out)@ + enc_modify_order_policy(v));
    }
}

#[derive(Clone, Copy, Debug, PartialEq, Eq)]
pub enum SettlePnlMode {
    MustSettle,
    TrySettle,
}

pub open spec fn settle_pnl_mode_tag(v: SettlePnlMode) -> u8 {
    match v {
        SettlePnlMode::MustSettle => 0,
        SettlePnlMode::TrySettle => 1,
    }
}

pub open spec fn enc_settle_pnl_mode(v: SettlePnlMode) -> Seq<u8> {
    seq![settle_pnl_mode_tag(v)]
}

pub fn read_settle_pnl_mode(data: &[u8], pos: usize) -> (r: Option<(SettlePnlMode, usize)>)
    ensures
        r matches Some(p) ==> pos + 1 <= data@.len() && p.1 == pos + 1
            && data@.subrange(pos as int, p.1 as int) == enc_settle_pnl_mode(p.0),
        forall|v: SettlePnlMode| is_prefix_at(data@, pos as int, enc_settle_pnl_mode(v))
            ==> (r matches Some(p) && p.0 == v && p.1 == pos + enc_settle_pnl_mode(v).len()),
{
    if pos < data.len() {
        let b = data[pos];
        if b < 2 {
            let v = if b == 0 {
                SettlePnlMode::MustSettle
            } else {
                SettlePnlMode::TrySettle
            };
            proof {
                assert(data@.subrange(pos as int, pos as int + 1) =~= enc_settle_pnl_mode(v));
                assert forall|w: SettlePnlMode| is_prefix_at(data@, pos as int, enc_settle_pnl_mode(w)) implies w == v by {
                    assert(data@.subrange(pos as int, pos as int + 1)[0] == settle_pnl_mode_tag(w));
                }
            }
            Some((v, pos + 1))
        } else {
            proof {
                assert forall|w: SettlePnlMode| !is_prefix_at(data@, pos as int, enc_settle_pnl_mode(w)) by {
                    if is_prefix_at(data@, pos as int, enc_settle_pnl_mode(w)) {
                        assert(data@.subrange(pos as int, pos as int + 1)[0] == settle_pnl_mode_tag(w));
                    }
                }
            }
            None
        }
    } else {
        None
    }
}

pub fn write_settle_pnl_mode(out: &mut Vec<u8>, v: SettlePnlMode)
    ensures
        final(out)@ == old(out)@ + enc_settle_pnl_mode(v),
{
    let b: u8 = match v {
        SettlePnlMode::MustSettle => 0,
        SettlePnlMode::TrySettle => 1,
    };
    out.push(b);
    proof {
        assert(out@ =~= old(out)@ + enc_settle_pnl_mode(v));
    }
}

pub open spec fn enc_opt_market_type(o: Option<MarketType>) -> Seq<u8> {
    match o {
        Option::None => seq![0u8],
        Option::Some(v) => seq![1u8] + enc_market_type(v),
    }
}

pub fn read_opt_market_type(data: &[u8], pos: usize) -> (r: Option<(Option<MarketType>, usize)>)
    ensures
        r matches Some(p) ==> pos <= p.1 <= data@.len()
            && data@.subrange(pos as int, p.1 as int) == enc_opt_market_type(p.0)
            && p.1 == pos + enc_opt_market_type(p.0).len(),
        forall|v: Option<MarketType>| is_prefix_at(data@, pos as int, enc_opt_market_type(v))
            ==> (r matches Some(p) && p.0 == v && p.1 == pos + enc_opt_market_type(v).len()),
{
    if pos < data.len() {
        let tag = data[pos];
        if tag == 0 {
            proof {
                assert(data@.subrange(pos as int, pos as int + 1) =~= enc_opt_market_type(Option::None));
                assert forall|v: Option<MarketType>| is_prefix_at(data@, pos as int, enc_opt_market_type(v))
                    implies v is None by {
                    if v matches Some(w) {
                        assert(data@.subrange(
                            pos as int,
                            pos as int + enc_opt_market_type(v).len() as int,
                        )[0] == enc_opt_market_type(v)[0]);
                    }
                }
            }
            Some((None, pos + 1))
        } else if tag == 1 {
            match read_market_type(data, pos + 1) {
                Some((x, end)) => {
                    proof {
                        lemma_join_at(data@, pos as int, pos as int + 1, end as int);
                        assert(data@.subrange(pos as int, pos as int + 1) =~= seq![1u8]);
                        assert forall|v: Option<MarketType>| is_prefix_at(data@, pos as int, enc_opt_market_type(v))
                            implies v == Some(x) by {
                            match v {
                                Option::None => {
                                    assert(data@.subrange(pos as int, pos as int + 1)[0]
                                        == enc_opt_market_type(v)[0]);
                                }
                                Option::Some(w) => {
                                    lemma_split_prefix(data@, pos as int, seq![1u8], enc_market_type(w));
                                    assert(is_prefix_at(data@, pos as int + 1, enc_market_type(w)));
                                }
                            }
                        }
                    }
                    Some((Some(x), end))
                }
                None => {
                    proof {
                        assert forall|v: Option<MarketType>| !is_prefix_at(
                            data@,
                            pos as int,
                            enc_opt_market_type(v),
                        ) by {
                            if is_prefix_at(data@, pos as int, enc_opt_market_type(v)) {
                                match v {
                                    Option::None => {
                                        assert(data@.subrange(pos as int, pos as int + 1)[0]
                                            == enc_opt_market_type(v)[0]);
                                    }
                                    Option::Some(w) => {
                                        lemma_split_prefix(data@, pos as int, seq![1u8], enc_market_type(w));
                                        assert(is_prefix_at(data@, pos as int + 1, enc_market_type(w)));
                                    }
                                }
                            }
                        }
                    }
                    None
                }
            }
        } else {
            proof {
                assert forall|v: Option<MarketType>| !is_prefix_at(data@, pos as int, enc_opt_market_type(v)) by {
                    if is_prefix_at(data@, pos as int, enc_opt_market_type(v)) {
                        assert(data@.subrange(
                            pos as int,
                            pos as int + enc_opt_market_type(v).len() as int,
                        )[0] == enc_opt_market_type(v)[0]);
                    }
                }
            }
            None
        }
    } else {
        proof {
            assert forall|v: Option<MarketType>| !is_prefix_at(data@, pos as int, enc_opt_market_type(v)) by {
                if is_prefix_at(data@, pos as int, enc_opt_market_type(v)) {
                    match v {
                        Option::None => {}
                        Option::Some(w) => {}
                    }
                }
            }
        }
        None
    }
}

pub fn write_opt_market_type(out: &mut Vec<u8>, v: Option<MarketType>)
    ensures
        final(out)@ == old(out)@ + enc_opt_market_type(v),
{
    match v {
        Option::None => {
            out.push(0);
        }
        Option::Some(x) => {
            out.push(1);
            write_market_type(out, x);
        }
    }
    proof {
        assert(out@ =~= old(out)@ + enc_opt_market_type(v));
    }
}

pub open spec fn enc_opt_position_direction(o: Option<PositionDirection>) -> Seq<u8> {
    match o {
        Option::None => seq![0u8],
        Option::Some(v) => seq![1u8] + enc_position_direction(v),
    }
}

pub fn read_opt_position_direction(data: &[u8], pos: usize) -> (r: Option<(Option<PositionDirection>, usize)>)
    ensures
        r matches Some(p) ==> pos <= p.1 <= data@.len()
            && data@.subrange(pos as int, p.1 as int) == enc_opt_position_direction(p.0)
            && p.1 == pos + enc_opt_position_direction(p.0).len(),
        forall|v: Option<PositionDirection>| is_prefix_at(data@, pos as int, enc_opt_position_direction(v))
            ==> (r matches Some(p) && p.0 == v && p.1 == pos + enc_opt_position_direction(v).len()),
{
    if pos < data.len() {
        let tag = data[pos];
        if tag == 0 {
            proof {
                assert(data@.subrange(pos as int, pos as int + 1) =~= enc_opt_position_direction(Option::None));
                assert forall|v: Option<PositionDirection>| is_prefix_at(data@, pos as int, enc_opt_position_direction(v))
                    implies v is None by {
                    if v matches Some(w) {
                        assert(data@.subrange(
                            pos as int,
                            pos as int + enc_opt_position_direction(v).len() as int,
                        )[0] == enc_opt_position_direction(v)[0]);
                    }
                }
            }
            Some((None, pos + 1))
        } else if tag == 1 {
            match read_position_direction(data, pos + 1) {
                Some((x, end)) => {
                    proof {
                        lemma_join_at(data@, pos as int, pos as int + 1, end as int);
                        assert(data@.subrange(pos as int, pos as int + 1) =~= seq![1u8]);
                        assert forall|v: Option<PositionDirection>| is_prefix_at(data@, pos as int, enc_opt_position_direction(v))
                            implies v == Some(x) by {
                            match v {
                                Option::None => {
                                    assert(data@.subrange(pos as int, pos as int + 1)[0]
                                        == enc_opt_position_direction(v)[0]);
                                }
                                Option::Some(w) => {
                                    lemma_split_prefix(data@, pos as int, seq![1u8], enc_position_direction(w));
                                    assert(is_prefix_at(data@, pos as int + 1, enc_position_direction(w)));
                                }
                            }
                        }
                    }
                    Some((Some(x), end))
                }
                None => {
                    proof {
                        assert forall|v: Option<PositionDirection>| !is_prefix_at(
                            data@,
                            pos as int,
                            enc_opt_position_direction(v),
                        ) by {
                            if is_prefix_at(data@, pos as int, enc_opt_position_direction(v)) {
                                match v {
                                    Option::None => {
                                        assert(data@.subrange(pos as int, pos as int + 1)[0]
                                            == enc_opt_position_direction(v)[0]);
                                    }
                                    Option::Some(w) => {
                                        lemma_split_prefix(data@, pos as int, seq![1u8], enc_position_direction(w));
                                        assert(is_prefix_at(data@, pos as int + 1, enc_position_direction(w)));
                                    }
                                }
                            }
                        }
                    }
                    None
                }
            }
        } else {
            proof {
                assert forall|v: Option<PositionDirection>| !is_prefix_at(data@, pos as int, enc_opt_position_direction(v)) by {
                    if is_prefix_at(data@, pos as int, enc_opt_position_direction(v)) {
                        assert(data@.subrange(
                            pos as int,
                            pos as int + enc_opt_position_direction(v).len() as int,
                        )[0] == enc_opt_position_direction(v)[0]);
                    }
                }
            }
            None
        }
    } else {
        proof {
            assert forall|v: Option<PositionDirection>| !is_prefix_at(data@, pos as int, enc_opt_position_direction(v)) by {
                if is_prefix_at(data@, pos as int, enc_opt_position_direction(v)) {
                    match v {
                        Option::None => {}
                        Option::Some(w) => {}
                    }
                }
            }
        }
        None
    }
}

pub fn write_opt_position_direction(out: &mut Vec<u8>, v: Option<PositionDirection>)
    ensures
        final(out)@ == old(out)@ + enc_opt_position_direction(v),
{
    match v {
        Option::None => {
            out.push(0);
        }
        Option::Some(x) => {
            out.push(1);
            write_position_direction(out, x);
        }
    }
    proof {
        assert(out@ =~= old(out)@ + enc_opt_position_direction(v));
    }
}

pub open spec fn enc_opt_spot_fulfillment_type(o: Option<SpotFulfillmentType>) -> Seq<u8> {
    match o {
        Option::None => seq![0u8],
        Option::Some(v) => seq![1u8] + enc_spot_fulfillment_type(v),
    }
}

pub fn read_opt_spot_fulfillment_type(data: &[u8], pos: usize) -> (r: Option<(Option<SpotFulfillmentType>, usize)>)
    ensures
        r matches Some(p) ==> pos <= p.1 <= data@.len()
            && data@.subrange(pos as int, p.1 as int) == enc_opt_spot_fulfillment_type(p.0)
            && p.1 == pos + enc_opt_spot_fulfillment_type(p.0).len(),
        forall|v: Option<SpotFulfillmentType>| is_prefix_at(data@, pos as int, enc_opt_spot_fulfillment_type(v))
            ==> (r matches Some(p) && p.0 == v && p.1 == pos + enc_opt_spot_fulfillment_type(v).len()),
{
    if pos < data.len() {
        let tag = data[pos];
        if tag == 0 {
            proof {
                assert(data@.subrange(pos as int, pos as int + 1) =~= enc_opt_spot_fulfillment_type(Option::None));
                assert forall|v: Option<SpotFulfillmentType>| is_prefix_at(data@, pos as int, enc_opt_spot_fulfillment_type(v))
                    implies v is None by {
                    if v matches Some(w) {
                        assert(data@.subrange(
                            pos as int,
                            pos as int + enc_opt_spot_fulfillment_type(v).len() as int,
                        )[0] == enc_opt_spot_fulfillment_type(v)[0]);
                    }
                }
            }
            Some((None, pos + 1))
        } else if tag == 1 {
            match read_spot_fulfillment_type(data, pos + 1) {
                Some((x, end)) => {
                    proof {
                        lemma_join_at(data@, pos as int, pos as int + 1, end as int);
                        assert(data@.subrange(pos as int, pos as int + 1) =~= seq![1u8]);
                        assert forall|v: Option<SpotFulfillmentType>| is_prefix_at(data@, pos as int, enc_opt_spot_fulfillment_type(v))
                            implies v == Some(x) by {
                            match v {
                                Option::None => {
                                    assert(data@.subrange(pos as int, pos as int + 1)[0]
                                        == enc_opt_spot_fulfillment_type(v)[0]);
                                }
                                Option::Some(w) => {
                                    lemma_split_prefix(data@, pos as int, seq![1u8], enc_spot_fulfillment_type(w));
                                    assert(is_prefix_at(data@, pos as int + 1, enc_spot_fulfillment_type(w)));
                                }
                            }
                        }
                    }
                    Some((Some(x), end))
                }
                None => {
                    proof {
                        assert forall|v: Option<SpotFulfillmentType>| !is_prefix_at(
                            data@,
                            pos as int,
                            enc_opt_spot_fulfillment_type(v),
                        ) by {
                            if is_prefix_at(data@, pos as int, enc_opt_spot_fulfillment_type(v)) {
                                match v {
                                    Option::None => {
                                        assert(data@.subrange(pos as int, pos as int + 1)[0]
                                            == enc_opt_spot_fulfillment_type(v)[0]);
                                    }
                                    Option::Some(w) => {
                                        lemma_split_prefix(data@, pos as int, seq![1u8], enc_spot_fulfillment_type(w));
                                        assert(is_prefix_at(data@, pos as int + 1, enc_spot_fulfillment_type(w)));
                                    }
                                }
                            }
                        }
                    }
                    None
                }
            }
        } else {
            proof {
                assert forall|v: Option<SpotFulfillmentType>| !is_prefix_at(data@, pos as int, enc_opt_spot_fulfillment_type(v)) by {
                    if is_prefix_at(data@, pos as int, enc_opt_spot_fulfillment_type(v)) {
                        assert(data@.subrange(
                            pos as int,
                            pos as int + enc_opt_spot_fulfillment_type(v).len() as int,
                        )[0] == enc_opt_spot_fulfillment_type(v)[0]);
                    }
                }
            }
            None
        }
    } else {
        proof {
            assert forall|v: Option<SpotFulfillmentType>| !is_prefix_at(data@, pos as int, enc_opt_spot_fulfillment_type(v)) by {
                if is_prefix_at(data@, pos as int, enc_opt_spot_fulfillment_type(v)) {
                    match v {
                        Option::None => {}
                        Option::Some(w) => {}
                    }
                }
            }
        }
        None
    }
}

pub fn write_opt_spot_fulfillment_type(out: &mut Vec<u8>, v: Option<SpotFulfillmentType>)
    ensures
        final(out)@ == old(out)@ + enc_opt_spot_fulfillment_type(v),
{
    match v {
        Option::None => {
            out.push(0);
        }
        Option::Some(x) => {
            out.push(1);
            write_spot_fulfillment_type(out, x);
        }
    }
    proof {
        assert(out@ =~= old(out)@ + enc_opt_spot_fulfillment_type(v));
    }
}

pub open spec fn enc_opt_swap_reduce_only(o: Option<SwapReduceOnly>) -> Seq<u8> {
    match o {
        Option::None => seq![0u8],
        Option::Some(v) => seq![1u8] + enc_swap_reduce_only(v),
    }
}

pub fn read_opt_swap_reduce_only(data: &[u8], pos: usize) -> (r: Option<(Option<SwapReduceOnly>, usize)>)
    ensures
        r matches Some(p) ==> pos <= p.1 <= data@.len()
            && data@.subrange(pos as int, p.1 as int) == enc_opt_swap_reduce_only(p.0)
            && p.1 == pos + enc_opt_swap_reduce_only(p.0).len(),
        forall|v: Option<SwapReduceOnly>| is_prefix_at(data@, pos as int, enc_opt_swap_reduce_only(v))
            ==> (r matches Some(p) && p.0 == v && p.1 == pos + enc_opt_swap_reduce_only(v).len()),
{
    if pos < data.len() {
        let tag = data[pos];
        if tag == 0 {
            proof {
                assert(data@.subrange(pos as int, pos as int + 1) =~= enc_opt_swap_reduce_only(Option::None));
                assert forall|v: Option<SwapReduceOnly>| is_prefix_at(data@, pos as int, enc_opt_swap_reduce_only(v))
                    implies v is None by {
                    if v matches Some(w) {
                        assert(data@.subrange(
                            pos as int,
                            pos as int + enc_opt_swap_reduce_only(v).len() as int,
                        )[0] == enc_opt_swap_reduce_only(v)[0]);
                    }
                }
            }
            Some((None, pos + 1))
        } else if tag == 1 {
            match read_swap_reduce_only(data, pos + 1) {
                Some((x, end)) => {
                    proof {
                        lemma_join_at(data@, pos as int, pos as int + 1, end as int);
                        assert(data@.subrange(pos as int, pos as int + 1) =~= seq![1u8]);
                        assert forall|v: Option<SwapReduceOnly>| is_prefix_at(data@, pos as int, enc_opt_swap_reduce_only(v))
                            implies v == Some(x) by {
                            match v {
                                Option::None => {
                                    assert(data@.subrange(pos as int, pos as int + 1)[0]
                                        == enc_opt_swap_reduce_only(v)[0]);
                                }
                                Option::Some(w) => {
                                    lemma_split_prefix(data@, pos as int, seq![1u8], enc_swap_reduce_only(w));
                                    assert(is_prefix_at(data@, pos as int + 1, enc_swap_reduce_only(w)));
                                }
                            }
                        }
                    }
                    Some((Some(x), end))
                }
                None => {
                    proof {
                        assert forall|v: Option<SwapReduceOnly>| !is_prefix_at(
                            data@,
                            pos as int,
                            enc_opt_swap_reduce_only(v),
                        ) by {
                            if is_prefix_at(data@, pos as int, enc_opt_swap_reduce_only(v)) {
                                match v {
                                    Option::None => {
                                        assert(data@.subrange(pos as int, pos as int + 1)[0]
                                            == enc_opt_swap_reduce_only(v)[0]);
                                    }
                                    Option::Some(w) => {
                                        lemma_split_prefix(data@, pos as int, seq![1u8], enc_swap_reduce_only(w));
                                        assert(is_prefix_at(data@, pos as int + 1, enc_swap_reduce_only(w)));
                                    }
                                }
                            }
                        }
                    }
                    None
                }
            }
        } else {
            proof {
                assert forall|v: Option<SwapReduceOnly>| !is_prefix_at(data@, pos as int, enc_opt_swap_reduce_only(v)) by {
                    if is_prefix_at(data@, pos as int, enc_opt_swap_reduce_only(v)) {
                        assert(data@.subrange(
                            pos as int,
                            pos as int + enc_opt_swap_reduce_only(v).len() as int,
                        )[0] == enc_opt_swap_reduce_only(v)[0]);
                    }
                }
            }
            None
        }
    } else {
        proof {
            assert forall|v: Option<SwapReduceOnly>| !is_prefix_at(data@, pos as int, enc_opt_swap_reduce_only(v)) by {
                if is_prefix_at(data@, pos as int, enc_opt_swap_reduce_only(v)) {
                    match v {
                        Option::None => {}
                        Option::Some(w) => {}
                    }
                }
            }
        }
        None
    }
}

pub fn write_opt_swap_reduce_only(out: &mut Vec<u8>, v: Option<SwapReduceOnly>)
    ensures
        final(out)@ == old(out)@ + enc_opt_swap_reduce_only(v),
{
    match v {
        Option::None => {
            out.push(0);
        }
        Option::Some(x) => {
            out.push(1);
            write_swap_reduce_only(out, x);
        }
    }
    proof {
        assert(out@ =~= old(out)@ + enc_opt_swap_reduce_only(v));
    }
}

pub open spec fn enc_opt_post_only_param(o: Option<PostOnlyParam>) -> Seq<u8> {
    match o {
        Option::None => seq![0u8],
        Option::Some(v) => seq![1u8] + enc_post_only_param(v),
    }
}

pub fn read_opt_post_only_param(data: &[u8], pos: usize) -> (r: Option<(Option<PostOnlyParam>, usize)>)
    ensures
        r matches Some(p) ==> pos <= p.1 <= data@.len()
            && data@.subrange(pos as int, p.1 as int) == enc_opt_post_only_param(p.0)
            && p.1 == pos + enc_opt_post_only_param(p.0).len(),
        forall|v: Option<PostOnlyParam>| is_prefix_at(data@, pos as int, enc_opt_post_only_param(v))
            ==> (r matches Some(p) && p.0 == v && p.1 == pos + enc_opt_post_only_param(v).len()),
{
    if pos < data.len() {
        let tag = data[pos];
        if tag == 0 {
            proof {
                assert(data@.subrange(pos as int, pos as int + 1) =~= enc_opt_post_only_param(Option::None));
                assert forall|v: Option<PostOnlyParam>| is_prefix_at(data@, pos as int, enc_opt_post_only_param(v))
                    implies v is None by {
                    if v matches Some(w) {
                        assert(data@.subrange(
                            pos as int,
                            pos as int + enc_opt_post_only_param(v).len() as int,
                        )[0] == enc_opt_post_only_param(v)[0]);
                    }
                }
            }
            Some((None, pos + 1))
        } else if tag == 1 {
            match read_post_only_param(data, pos + 1) {
                Some((x, end)) => {
                    proof {
                        lemma_join_at(data@, pos as int, pos as int + 1, end as int);
                        assert(data@.subrange(pos as int, pos as int + 1) =~= seq![1u8]);
                        assert forall|v: Option<PostOnlyParam>| is_prefix_at(data@, pos as int, enc_opt_post_only_param(v))
                            implies v == Some(x) by {
                            match v {
                                Option::None => {
                                    assert(data@.subrange(pos as int, pos as int + 1)[0]
                                        == enc_opt_post_only_param(v)[0]);
                                }
                                Option::Some(w) => {
                                    lemma_split_prefix(data@, pos as int, seq![1u8], enc_post_only_param(w));
                                    assert(is_prefix_at(data@, pos as int + 1, enc_post_only_param(w)));
                                }
                            }
                        }
                    }
                    Some((Some(x), end))
                }
                None => {
                    proof {
                        assert forall|v: Option<PostOnlyParam>| !is_prefix_at(
                            data@,
                            pos as int,
                            enc_opt_post_only_param(v),
                        ) by {
                            if is_prefix_at(data@, pos as int, enc_opt_post_only_param(v)) {
                                match v {
                                    Option::None => {
                                        assert(data@.subrange(pos as int, pos as int + 1)[0]
                                            == enc_opt_post_only_param(v)[0]);
                                    }
                                    Option::Some(w) => {
                                        lemma_split_prefix(data@, pos as int, seq![1u8], enc_post_only_param(w));
                                        assert(is_prefix_at(data@, pos as int + 1, enc_post_only_param(w)));
                                    }
                                }
                            }
                        }
                    }
                    None
                }
            }
        } else {
            proof {
                assert forall|v: Option<PostOnlyParam>| !is_prefix_at(data@, pos as int, enc_opt_post_only_param(v)) by {
                    if is_prefix_at(data@, pos as int, enc_opt_post_only_param(v)) {
                        assert(data@.subrange(
                            pos as int,
                            pos as int + enc_opt_post_only_param(v).len() as int,
                        )[0] == enc_opt_post_only_param(v)[0]);
                    }
                }
            }
            None
        }
    } else {
        proof {
            assert forall|v: Option<PostOnlyParam>| !is_prefix_at(data@, pos as int, enc_opt_post_only_param(v)) by {
                if is_prefix_at(data@, pos as int, enc_opt_post_only_param(v)) {
                    match v {
                        Option::None => {}
                        Option::Some(w) => {}
                    }
                }
            }
        }
        None
    }
}

pub fn write_opt_post_only_param(out: &mut Vec<u8>, v: Option<PostOnlyParam>)
    ensures
        final(out)@ == old(out)@ + enc_opt_post_only_param(v),
{
    match v {
        Option::None => {
            out.push(0);
        }
        Option::Some(x) => {
            out.push(1);
            write_post_only_param(out, x);
        }
    }
    proof {
        assert(out@ =~= old(out)@ + enc_opt_post_only_param(v));
    }
}

pub open spec fn enc_opt_order_trigger_condition(o: Option<OrderTriggerCondition>) -> Seq<u8> {
    match o {
        Option::None => seq![0u8],
        Option::Some(v) => seq![1u8] + enc_order_trigger_condition(v),
    }
}

pub fn read_opt_order_trigger_condition(data: &[u8], pos: usize) -> (r: Option<(Option<OrderTriggerCondition>, usize)>)
    ensures
        r matches Some(p) ==> pos <= p.1 <= data@.len()
            && data@.subrange(pos as int, p.1 as int) == enc_opt_order_trigger_condition(p.0)
            && p.1 == pos + enc_opt_order_trigger_condition(p.0).len(),
        forall|v: Option<OrderTriggerCondition>| is_prefix_at(data@, pos as int, enc_opt_order_trigger_condition(v))
            ==> (r matches Some(p) && p.0 == v && p.1 == pos + enc_opt_order_trigger_condition(v).len()),
{
    if pos < data.len() {
        let tag = data[pos];
        if tag == 0 {
            proof {
                assert(data@.subrange(pos as int, pos as int + 1) =~= enc_opt_order_trigger_condition(Option::None));
                assert forall|v: Option<OrderTriggerCondition>| is_prefix_at(data@, pos as int, enc_opt_order_trigger_condition(v))
                    implies v is None by {
                    if v matches Some(w) {
                        assert(data@.subrange(
                            pos as int,
                            pos as int + enc_opt_order_trigger_condition(v).len() as int,
                        )[0] == enc_opt_order_trigger_condition(v)[0]);
                    }
                }
            }
            Some((None, pos + 1))
        } else if tag == 1 {
            match read_order_trigger_condition(data, pos + 1) {
                Some((x, end)) => {
                    proof {
                        lemma_join_at(data@, pos as int, pos as int + 1, end as int);
                        assert(data@.subrange(pos as int, pos as int + 1) =~= seq![1u8]);
                        assert forall|v: Option<OrderTriggerCondition>| is_prefix_at(data@, pos as int, enc_opt_order_trigger_condition(v))
                            implies v == Some(x) by {
                            match v {
                                Option::None => {
                                    assert(data@.subrange(pos as int, pos as int + 1)[0]
                                        == enc_opt_order_trigger_condition(v)[0]);
                                }
                                Option::Some(w) => {
                                    lemma_split_prefix(data@, pos as int, seq![1u8], enc_order_trigger_condition(w));
                                    assert(is_prefix_at(data@, pos as int + 1, enc_order_trigger_condition(w)));
                                }
                            }
                        }
                    }
                    Some((Some(x), end))
                }
                None => {
                    proof {
                        assert forall|v: Option<OrderTriggerCondition>| !is_prefix_at(
                            data@,
                            pos as int,
                            enc_opt_order_trigger_condition(v),
                        ) by {
                            if is_prefix_at(data@, pos as int, enc_opt_order_trigger_condition(v)) {
                                match v {
                                    Option::None => {
                                        assert(data@.subrange(pos as int, pos as int + 1)[0]
                                            == enc_opt_order_trigger_condition(v)[0]);
                                    }
                                    Option::Some(w) => {
                                        lemma_split_prefix(data@, pos as int, seq![1u8], enc_order_trigger_condition(w));
                                        assert(is_prefix_at(data@, pos as int + 1, enc_order_trigger_condition(w)));
                                    }
                                }
                            }
                        }
                    }
                    None
                }
            }
        } else {
            proof {
                assert forall|v: Option<OrderTriggerCondition>| !is_prefix_at(data@, pos as int, enc_opt_order_trigger_condition(v)) by {
                    if is_prefix_at(data@, pos as int, enc_opt_order_trigger_condition(v)) {
                        assert(data@.subrange(
                            pos as int,
                            pos as int + enc_opt_order_trigger_condition(v).len() as int,
                        )[0] == enc_opt_order_trigger_condition(v)[0]);
                    }
                }
            }
            None
        }
    } else {
        proof {
            assert forall|v: Option<OrderTriggerCondition>| !is_prefix_at(data@, pos as int, enc_opt_order_trigger_condition(v)) by {
                if is_prefix_at(data@, pos as int, enc_opt_order_trigger_condition(v)) {
                    match v {
                        Option::None => {}
                        Option::Some(w) => {}
                    }
                }
            }
        }
        None
    }
}

pub fn write_opt_order_trigger_condition(out: &mut Vec<u8>, v: Option<OrderTriggerCondition>)
    ensures
        final(out)@ == old(out)@ + enc_opt_order_trigger_condition(v),
{
    match v {
        Option::None => {
            out.push(0);
        }
        Option::Some(x) => {
            out.push(1);
            write_order_trigger_condition(out, x);
        }
    }
    proof {
        assert(out@ =~= old(out)@ + enc_opt_order_trigger_condition(v));
    }
}

pub open spec fn enc_opt_modify_order_policy(o: Option<ModifyOrderPolicy>) -> Seq<u8> {
    match o {
        Option::None => seq![0u8],
        Option::Some(v) => seq![1u8] + enc_modify_order_policy(v),
    }
}

pub fn read_opt_modify_order_policy(data: &[u8], pos: usize) -> (r: Option<(Option<ModifyOrderPolicy>, usize)>)
    ensures
        r matches Some(p) ==> pos <= p.1 <= data@.len()
            && data@.subrange(pos as int, p.1 as int) == enc_opt_modify_order_policy(p.0)
            && p.1 == pos + enc_opt_modify_order_policy(p.0).len(),
        forall|v: Option<ModifyOrderPolicy>| is_prefix_at(data@, pos as int, enc_opt_modify_order_policy(v))
            ==> (r matches Some(p) && p.0 == v && p.1 == pos + enc_opt_modify_order_policy(v).len()),
{
    if pos < data.len() {
        let tag = data[pos];
        if tag == 0 {
            proof {
                assert(data@.subrange(pos as int, pos as int + 1) =~= enc_opt_modify_order_policy(Option::None));
                assert forall|v: Option<ModifyOrderPolicy>| is_prefix_at(data@, pos as int, enc_opt_modify_order_policy(v))
                    implies v is None by {
                    if v matches Some(w) {
                        assert(data@.subrange(
                            pos as int,
                            pos as int + enc_opt_modify_order_policy(v).len() as int,
                        )[0] == enc_opt_modify_order_policy(v)[0]);
                    }
                }
            }
            Some((None, pos + 1))
        } else if tag == 1 {
            match read_modify_order_policy(data, pos + 1) {
                Some((x, end)) => {
                    proof {
                        lemma_join_at(data@, pos as int, pos as int + 1, end as int);
                        assert(data@.subrange(pos as int, pos as int + 1) =~= seq![1u8]);
                        assert forall|v: Option<ModifyOrderPolicy>| is_prefix_at(data@, pos as int, enc_opt_modify_order_policy(v))
                            implies v == Some(x) by {
                            match v {
                                Option::None => {
                                    assert(data@.subrange(pos as int, pos as int + 1)[0]
                                        == enc_opt_modify_order_policy(v)[0]);
                                }
                                Option::Some(w) => {
                                    lemma_split_prefix(data@, pos as int, seq![1u8], enc_modify_order_policy(w));
                                    assert(is_prefix_at(data@, pos as int + 1, enc_modify_order_policy(w)));
                                }
                            }
                        }
                    }
                    Some((Some(x), end))
                }
                None => {
                    proof {
                        assert forall|v: Option<ModifyOrderPolicy>| !is_prefix_at(
                            data@,
                            pos as int,
                            enc_opt_modify_order_policy(v),
                        ) by {
                            if is_prefix_at(data@, pos as int, enc_opt_modify_order_policy(v)) {
                                match v {
                                    Option::None => {
                                        assert(data@.subrange(pos as int, pos as int + 1)[0]
                                            == enc_opt_modify_order_policy(v)[0]);
                                    }
                                    Option::Some(w) => {
                                        lemma_split_prefix(data@, pos as int, seq![1u8], enc_modify_order_policy(w));
                                        assert(is_prefix_at(data@, pos as int + 1, enc_modify_order_policy(w)));
                                    }
                                }
                            }
                        }
                    }
                    None
                }
            }
        } else {
            proof {
                assert forall|v: Option<ModifyOrderPolicy>| !is_prefix_at(data@, pos as int, enc_opt_modify_order_policy(v)) by {
                    if is_prefix_at(data@, pos as int, enc_opt_modify_order_policy(v)) {
                        assert(data@.subrange(
                            pos as int,
                            pos as int + enc_opt_modify_order_policy(v).len() as int,
                        )[0] == enc_opt_modify_order_policy(v)[0]);
                    }
                }
            }
            None
        }
    } else {
        proof {
            assert forall|v: Option<ModifyOrderPolicy>| !is_prefix_at(data@, pos as int, enc_opt_modify_order_policy(v)) by {
                if is_prefix_at(data@, pos as int, enc_opt_modify_order_policy(v)) {
                    match v {
                        Option::None => {}
                        Option::Some(w) => {}
                    }
                }
            }
        }
        None
    }
}

pub fn write_opt_modify_order_policy(out: &mut Vec<u8>, v: Option<ModifyOrderPolicy>)
    ensures
        final(out)@ == old(out)@ + enc_opt_modify_order_policy(v),
{
    match v {
        Option::None => {
            out.push(0);
        }
        Option::Some(x) => {
            out.push(1);
            write_modify_order_policy(out, x);
        }
    }
    proof {
        assert(out@ =~= old(out)@ + enc_opt_modify_order_policy(v));
    }
}

/// Parameters of one placed order.
#[derive(Clone, Debug, PartialEq)]
pub struct OrderParams {
    pub order_type: OrderType,
    pub market_type: MarketType,
    pub direction: PositionDirection,
    pub user_order_id: u8,
    pub base_asset_amount: u64,
    pub price: u64,
    pub market_index: u16,
    pub reduce_only: bool,
    pub post_only: PostOnlyParam,
    pub immediate_or_cancel: bool,
    pub max_ts: Option<i64>,
    pub trigger_price: Option<u64>,
    pub trigger_condition: OrderTriggerCondition,
    pub oracle_price_offset: Option<i32>,
    pub auction_duration: Option<u8>,
    pub auction_start_price: Option<i64>,
    pub auction_end_price: Option<i64>,
}

pub open spec fn enc_order_params(p: OrderParams) -> Seq<u8> {
    enc_order_type(p.order_type) + enc_market_type(p.market_type) + enc_position_direction(p.direction) + enc_u8(p.user_order_id) + enc_u64(p.base_asset_amount) + enc_u64(p.price) + enc_u16(p.market_index) + enc_bool(p.reduce_only) + enc_post_only_param(p.post_only) + enc_bool(p.immediate_or_cancel) + enc_opt_i64(p.max_ts) + enc_opt_u64(p.trigger_price) + enc_order_trigger_condition(p.trigger_condition) + enc_opt_i32(p.oracle_price_offset) + enc_opt_u8(p.auction_duration) + enc_opt_i64(p.auction_start_price) + enc_opt_i64(p.auction_end_price)
}

pub open spec fn enc_order_params_g0(t: (OrderType, MarketType, PositionDirection, u8, u64, u64)) -> Seq<u8> {
    enc_order_type(t.0) + enc_market_type(t.1) + enc_position_direction(t.2) + enc_u8(t.3) + enc_u64(t.4) + enc_u64(t.5)
}

proof fn lemma_order_params_g0_parts(data: Seq<u8>, pos: int, t: (OrderType, MarketType, PositionDirection, u8, u64, u64))
    requires
        is_prefix_at(data, pos, enc_order_params_g0(t)),
    ensures
        is_prefix_at(data, pos, enc_order_type(t.0)),
        is_prefix_at(data, pos + enc_order_type(t.0).len(), enc_market_type(t.1)),
        is_prefix_at(data, pos + enc_order_type(t.0).len() + enc_market_type(t.1).len(), enc_position_direction(t.2)),
        is_prefix_at(data, pos + enc_order_type(t.0).len() + enc_market_type(t.1).len() + enc_position_direction(t.2).len(), enc_u8(t.3)),
        is_prefix_at(data, pos + enc_order_type(t.0).len() + enc_market_type(t.1).len() + enc_position_direction(t.2).len() + enc_u8(t.3).len(), enc_u64(t.4)),
        is_prefix_at(data, pos + enc_order_type(t.0).len() + enc_market_type(t.1).len() + enc_position_direction(t.2).len() + enc_u8(t.3).len() + enc_u64(t.4).len(), enc_u64(t.5)),
{
    lemma_enc_lens();
    lemma_split_prefix(data, pos, enc_order_type(t.0) + enc_market_type(t.1) + enc_position_direction(t.2) + enc_u8(t.3) + enc_u64(t.4), enc_u64(t.5));
    lemma_split_prefix(data, pos, enc_order_type(t.0) + enc_market_type(t.1) + enc_position_direction(t.2) + enc_u8(t.3), enc_u64(t.4));
    lemma_split_prefix(data, pos, enc_order_type(t.0) + enc_market_type(t.1) + enc_position_direction(t.2), enc_u8(t.3));
    lemma_split_prefix(data, pos, enc_order_type(t.0) + enc_market_type(t.1), enc_position_direction(t.2));
    lemma_split_prefix(data, pos, enc_order_type(t.0), enc_market_type(t.1));
}

fn read_order_params_g0(data: &[u8], pos: usize) -> (r: Option<((OrderType, MarketType, PositionDirection, u8, u64, u64), usize)>)
    ensures
        r matches Some(p) ==> pos <= p.1 <= data@.len()
            && data@.subrange(pos as int, p.1 as int) == enc_order_params_g0(p.0)
            && p.1 == pos + enc_order_params_g0(p.0).len(),
        forall|t: (OrderType, MarketType, PositionDirection, u8, u64, u64)| is_prefix_at(data@, pos as int, enc_order_params_g0(t))
            ==> (r matches Some(p) && p.0 == t && p.1 == pos + enc_order_params_g0(t).len()),
{
    proof {
        lemma_enc_lens();
    }
    match read_order_type(data, pos) {
        None => {
            proof {
                assert forall|t: (OrderType, MarketType, PositionDirection, u8, u64, u64)| !(is_prefix_at(data@, pos as int, enc_order_params_g0(t))) by {
                    if is_prefix_at(data@, pos as int, enc_order_params_g0(t)) {
                        lemma_order_params_g0_parts(data@, pos as int, t);
                        assert(is_prefix_at(data@, pos as int, enc_order_type(t.0)));
                    }
                }
            }
            None
        }
        Some((x0, pos1)) => {
            match read_market_type(data, pos1) {
                None => {
                    proof {
                        assert forall|t: (OrderType, MarketType, PositionDirection, u8, u64, u64)| !(is_prefix_at(data@, pos as int, enc_order_params_g0(t))) by {
                            if is_prefix_at(data@, pos as int, enc_order_params_g0(t)) {
                                lemma_order_params_g0_parts(data@, pos as int, t);
                                assert(is_prefix_at(data@, pos as int, enc_order_type(t.0)));
                                assert(is_prefix_at(data@, pos1 as int, enc_market_type(t.1)));
                            }
                        }
                    }
                    None
                }
                Some((x1, pos2)) => {
                    match read_position_direction(data, pos2) {
                        None => {
                            proof {
                                assert forall|t: (OrderType, MarketType, PositionDirection, u8, u64, u64)| !(is_prefix_at(data@, pos as int, enc_order_params_g0(t))) by {
                                    if is_prefix_at(data@, pos as int, enc_order_params_g0(t)) {
                                        lemma_order_params_g0_parts(data@, pos as int, t);
                                        assert(is_prefix_at(data@, pos as int, enc_order_type(t.0)));
                                        assert(is_prefix_at(data@, pos1 as int, enc_market_type(t.1)));
                                        assert(is_prefix_at(data@, pos2 as int, enc_position_direction(t.2)));
                                    }
                                }
                            }
                            None
                        }
                        Some((x2, pos3)) => {
                            match read_u8(data, pos3) {
                                None => {
                                    proof {
                                        assert forall|t: (OrderType, MarketType, PositionDirection, u8, u64, u64)| !(is_prefix_at(data@, pos as int, enc_order_params_g0(t))) by {
                                            if is_prefix_at(data@, pos as int, enc_order_params_g0(t)) {
                                                lemma_order_params_g0_parts(data@, pos as int, t);
                                                assert(is_prefix_at(data@, pos as int, enc_order_type(t.0)));
                                                assert(is_prefix_at(data@, pos1 as int, enc_market_type(t.1)));
                                                assert(is_prefix_at(data@, pos2 as int, enc_position_direction(t.2)));
                                                assert(is_prefix_at(data@, pos3 as int, enc_u8(t.3)));
                                            }
                                        }
                                    }
                                    None
                                }
                                Some((x3, pos4)) => {
                                    match read_u64(data, pos4) {
                                        None => {
                                            proof {
                                                assert forall|t: (OrderType, MarketType, PositionDirection, u8, u64, u64)| !(is_prefix_at(data@, pos as int, enc_order_params_g0(t))) by {
                                                    if is_prefix_at(data@, pos as int, enc_order_params_g0(t)) {
                                                        lemma_order_params_g0_parts(data@, pos as int, t);
                                                        assert(is_prefix_at(data@, pos as int, enc_order_type(t.0)));
                                                        assert(is_prefix_at(data@, pos1 as int, enc_market_type(t.1)));
                                                        assert(is_prefix_at(data@, pos2 as int, enc_position_direction(t.2)));
                                                        assert(is_prefix_at(data@, pos3 as int, enc_u8(t.3)));
                                                        assert(is_prefix_at(data@, pos4 as int, enc_u64(t.4)));
                                                    }
                                                }
                                            }
                                            None
                                        }
                                        Some((x4, pos5)) => {
                                            match read_u64(data, pos5) {
                                                None => {
                                                    proof {
                                                        assert forall|t: (OrderType, MarketType, PositionDirection, u8, u64, u64)| !(is_prefix_at(data@, pos as int, enc_order_params_g0(t))) by {
                                                            if is_prefix_at(data@, pos as int, enc_order_params_g0(t)) {
                                                                lemma_order_params_g0_parts(data@, pos as int, t);
                                                                assert(is_prefix_at(data@, pos as int, enc_order_type(t.0)));
                                                                assert(is_prefix_at(data@, pos1 as int, enc_market_type(t.1)));
                                                                assert(is_prefix_at(data@, pos2 as int, enc_position_direction(t.2)));
                                                                assert(is_prefix_at(data@, pos3 as int, enc_u8(t.3)));
                                                                assert(is_prefix_at(data@, pos4 as int, enc_u64(t.4)));
                                                                assert(is_prefix_at(data@, pos5 as int, enc_u64(t.5)));
                                                            }
                                                        }
                                                    }
                                                    None
                                                }
                                                Some((x5, pos6)) => {
                                                    let result = (x0, x1, x2, x3, x4, x5);
                                                    proof {
                                                        lemma_join_at(data@, pos as int, pos1 as int, pos2 as int);
                                                        lemma_join_at(data@, pos as int, pos2 as int, pos3 as int);
                                                        lemma_join_at(data@, pos as int, pos3 as int, pos4 as int);
                                                        lemma_join_at(data@, pos as int, pos4 as int, pos5 as int);
                                                        lemma_join_at(data@, pos as int, pos5 as int, pos6 as int);
                                                        assert(data@.subrange(pos as int, pos6 as int) == enc_order_params_g0(result));
                                                        assert forall|t: (OrderType, MarketType, PositionDirection, u8, u64, u64)| is_prefix_at(data@, pos as int, enc_order_params_g0(t))
                                                            implies (result == t && pos6 == pos + enc_order_params_g0(t).len()) by {
                                                            lemma_order_params_g0_parts(data@, pos as int, t);
                                                            assert(is_prefix_at(data@, pos as int, enc_order_type(t.0)));
                                                            assert(is_prefix_at(data@, pos1 as int, enc_market_type(t.1)));
                                                            assert(is_prefix_at(data@, pos2 as int, enc_position_direction(t.2)));
                                                            assert(is_prefix_at(data@, pos3 as int, enc_u8(t.3)));
                                                            assert(is_prefix_at(data@, pos4 as int, enc_u64(t.4)));
                                                            assert(is_prefix_at(data@, pos5 as int, enc_u64(t.5)));
                                                        }
                                                    }
                                                    Some((result, pos6))
                                                    }
                                                }
                                            }
                                        }
                                    }
                                }
                            }
                        }
                    }
                }
            }
        }
}

pub open spec fn enc_order_params_g1(t: (u16, bool, PostOnlyParam, bool, Option<i64>, Option<u64>)) -> Seq<u8> {
    enc_u16(t.0) + enc_bool(t.1) + enc_post_only_param(t.2) + enc_bool(t.3) + enc_opt_i64(t.4) + enc_opt_u64(t.5)
}

proof fn lemma_order_params_g1_parts(data: Seq<u8>, pos: int, t: (u16, bool, PostOnlyParam, bool, Option<i64>, Option<u64>))
    requires
        is_prefix_at(data, pos, enc_order_params_g1(t)),
    ensures
        is_prefix_at(data, pos, enc_u16(t.0)),
        is_prefix_at(data, pos + enc_u16(t.0).len(), enc_bool(t.1)),
        is_prefix_at(data, pos + enc_u16(t.0).len() + enc_bool(t.1).len(), enc_post_only_param(t.2)),
        is_prefix_at(data, pos + enc_u16(t.0).len() + enc_bool(t.1).len() + enc_post_only_param(t.2).len(), enc_bool(t.3)),
        is_prefix_at(data, pos + enc_u16(t.0).len() + enc_bool(t.1).len() + enc_post_only_param(t.2).len() + enc_bool(t.3).len(), enc_opt_i64(t.4)),
        is_prefix_at(data, pos + enc_u16(t.0).len() + enc_bool(t.1).len() + enc_post_only_param(t.2).len() + enc_bool(t.3).len() + enc_opt_i64(t.4).len(), enc_opt_u64(t.5)),
{
    lemma_enc_lens();
    lemma_split_prefix(data, pos, enc_u16(t.0) + enc_bool(t.1) + enc_post_only_param(t.2) + enc_bool(t.3) + enc_opt_i64(t.4), enc_opt_u64(t.5));
    lemma_split_prefix(data, pos, enc_u16(t.0) + enc_bool(t.1) + enc_post_only_param(t.2) + enc_bool(t.3), enc_opt_i64(t.4));
    lemma_split_prefix(data, pos, enc_u16(t.0) + enc_bool(t.1) + enc_post_only_param(t.2), enc_bool(t.3));
    lemma_split_prefix(data, pos, enc_u16(t.0) + enc_bool(t.1), enc_post_only_param(t.2));
    lemma_split_prefix(data, pos, enc_u16(t.0), enc_bool(t.1));
}

fn read_order_params_g1(data: &[u8], pos: usize) -> (r: Option<((u16, bool, PostOnlyParam, bool, Option<i64>, Option<u64>), usize)>)
    ensures
        r matches Some(p) ==> pos <= p.1 <= data@.len()
            && data@.subrange(pos as int, p.1 as int) == enc_order_params_g1(p.0)
            && p.1 == pos + enc_order_params_g1(p.0).len(),
        forall|t: (u16, bool, PostOnlyParam, bool, Option<i64>, Option<u64>)| is_prefix_at(data@, pos as int, enc_order_params_g1(t))
            ==> (r matches Some(p) && p.0 == t && p.1 == pos + enc_order_params_g1(t).len()),
{
    proof {
        lemma_enc_lens();
    }
    match read_u16(data, pos) {
        None => {
            proof {
                assert forall|t: (u16, bool, PostOnlyParam, bool, Option<i64>, Option<u64>)| !(is_prefix_at(data@, pos as int, enc_order_params_g1(t))) by {
                    if is_prefix_at(data@, pos as int, enc_order_params_g1(t)) {
                        lemma_order_params_g1_parts(data@, pos as int, t);
                        assert(is_prefix_at(data@, pos as int, enc_u16(t.0)));
                    }
                }
            }
            None
        }
        Some((x0, pos1)) => {
            match read_bool(data, pos1) {
                None => {
                    proof {
                        assert forall|t: (u16, bool, PostOnlyParam, bool, Option<i64>, Option<u64>)| !(is_prefix_at(data@, pos as int, enc_order_params_g1(t))) by {
                            if is_prefix_at(data@, pos as int, enc_order_params_g1(t)) {
                                lemma_order_params_g1_parts(data@, pos as int, t);
                                assert(is_prefix_at(data@, pos as int, enc_u16(t.0)));
                                assert(is_prefix_at(data@, pos1 as int, enc_bool(t.1)));
                            }
                        }
                    }
                    None
                }
                Some((x1, pos2)) => {
                    match read_post_only_param(data, pos2) {
                        None => {
                            proof {
                                assert forall|t: (u16, bool, PostOnlyParam, bool, Option<i64>, Option<u64>)| !(is_prefix_at(data@, pos as int, enc_order_params_g1(t))) by {
                                    if is_prefix_at(data@, pos as int, enc_order_params_g1(t)) {
                                        lemma_order_params_g1_parts(data@, pos as int, t);
                                        assert(is_prefix_at(data@, pos as int, enc_u16(t.0)));
                                        assert(is_prefix_at(data@, pos1 as int, enc_bool(t.1)));
                                        assert(is_prefix_at(data@, pos2 as int, enc_post_only_param(t.2)));
                                    }
                                }
                            }
                            None
                        }
                        Some((x2, pos3)) => {
                            match read_bool(data, pos3) {
                                None => {
                                    proof {
                                        assert forall|t: (u16, bool, PostOnlyParam, bool, Option<i64>, Option<u64>)| !(is_prefix_at(data@, pos as int, enc_order_params_g1(t))) by {
                                            if is_prefix_at(data@, pos as int, enc_order_params_g1(t)) {
                                                lemma_order_params_g1_parts(data@, pos as int, t);
                                                assert(is_prefix_at(data@, pos as int, enc_u16(t.0)));
                                                assert(is_prefix_at(data@, pos1 as int, enc_bool(t.1)));
                                                assert(is_prefix_at(data@, pos2 as int, enc_post_only_param(t.2)));
                                                assert(is_prefix_at(data@, pos3 as int, enc_bool(t.3)));
                                            }
                                        }
                                    }
                                    None
                                }
                                Some((x3, pos4)) => {
                                    match read_opt_i64(data, pos4) {
                                        None => {
                                            proof {
                                                assert forall|t: (u16, bool, PostOnlyParam, bool, Option<i64>, Option<u64>)| !(is_prefix_at(data@, pos as int, enc_order_params_g1(t))) by {
                                                    if is_prefix_at(data@, pos as int, enc_order_params_g1(t)) {
                                                        lemma_order_params_g1_parts(data@, pos as int, t);
                                                        assert(is_prefix_at(data@, pos as int, enc_u16(t.0)));
                                                        assert(is_prefix_at(data@, pos1 as int, enc_bool(t.1)));
                                                        assert(is_prefix_at(data@, pos2 as int, enc_post_only_param(t.2)));
                                                        assert(is_prefix_at(data@, pos3 as int, enc_bool(t.3)));
                                                        assert(is_prefix_at(data@, pos4 as int, enc_opt_i64(t.4)));
                                                    }
                                                }
                                            }
                                            None
                                        }
                                        Some((x4, pos5)) => {
                                            match read_opt_u64(data, pos5) {
                                                None => {
                                                    proof {
                                                        assert forall|t: (u16, bool, PostOnlyParam, bool, Option<i64>, Option<u64>)| !(is_prefix_at(data@, pos as int, enc_order_params_g1(t))) by {
                                                            if is_prefix_at(data@, pos as int, enc_order_params_g1(t)) {
                                                                lemma_order_params_g1_parts(data@, pos as int, t);
                                                                assert(is_prefix_at(data@, pos as int, enc_u16(t.0)));
                                                                assert(is_prefix_at(data@, pos1 as int, enc_bool(t.1)));
                                                                assert(is_prefix_at(data@, pos2 as int, enc_post_only_param(t.2)));
                                                                assert(is_prefix_at(data@, pos3 as int, enc_bool(t.3)));
                                                                assert(is_prefix_at(data@, pos4 as int, enc_opt_i64(t.4)));
                                                                assert(is_prefix_at(data@, pos5 as int, enc_opt_u64(t.5)));
                                                            }
                                                        }
                                                    }
                                                    None
                                                }
                                                Some((x5, pos6)) => {
                                                    let result = (x0, x1, x2, x3, x4, x5);
                                                    proof {
                                                        lemma_join_at(data@, pos as int, pos1 as int, pos2 as int);
                                                        lemma_join_at(data@, pos as int, pos2 as int, pos3 as int);
                                                        lemma_join_at(data@, pos as int, pos3 as int, pos4 as int);
                                                        lemma_join_at(data@, pos as int, pos4 as int, pos5 as int);
                                                        lemma_join_at(data@, pos as int, pos5 as int, pos6 as int);
                                                        assert(data@.subrange(pos as int, pos6 as int) == enc_order_params_g1(result));
                                                        assert forall|t: (u16, bool, PostOnlyParam, bool, Option<i64>, Option<u64>)| is_prefix_at(data@, pos as int, enc_order_params_g1(t))
                                                            implies (result == t && pos6 == pos + enc_order_params_g1(t).len()) by {
                                                            lemma_order_params_g1_parts(data@, pos as int, t);
                                                            assert(is_prefix_at(data@, pos as int, enc_u16(t.0)));
                                                            assert(is_prefix_at(data@, pos1 as int, enc_bool(t.1)));
                                                            assert(is_prefix_at(data@, pos2 as int, enc_post_only_param(t.2)));
                                                            assert(is_prefix_at(data@, pos3 as int, enc_bool(t.3)));
                                                            assert(is_prefix_at(data@, pos4 as int, enc_opt_i64(t.4)));
                                                            assert(is_prefix_at(data@, pos5 as int, enc_opt_u64(t.5)));
                                                        }
                                                    }
                                                    Some((result, pos6))
                                                    }
                                                }
                                            }
                                        }
                                    }
                                }
                            }
                        }
                    }
                }
            }
        }
}

pub open spec fn enc_order_params_g2(t: (OrderTriggerCondition, Option<i32>, Option<u8>, Option<i64>, Option<i64>)) -> Seq<u8> {
    enc_order_trigger_condition(t.0) + enc_opt_i32(t.1) + enc_opt_u8(t.2) + enc_opt_i64(t.3) + enc_opt_i64(t.4)
}

proof fn lemma_order_params_g2_parts(data: Seq<u8>, pos: int, t: (OrderTriggerCondition, Option<i32>, Option<u8>, Option<i64>, Option<i64>))
    requires
        is_prefix_at(data, pos, enc_order_params_g2(t)),
    ensures
        is_prefix_at(data, pos, enc_order_trigger_condition(t.0)),
        is_prefix_at(data, pos + enc_order_trigger_condition(t.0).len(), enc_opt_i32(t.1)),
        is_prefix_at(data, pos + enc_order_trigger_condition(t.0).len() + enc_opt_i32(t.1).len(), enc_opt_u8(t.2)),
        is_prefix_at(data, pos + enc_order_trigger_condition(t.0).len() + enc_opt_i32(t.1).len() + enc_opt_u8(t.2).len(), enc_opt_i64(t.3)),
        is_prefix_at(data, pos + enc_order_trigger_condition(t.0).len() + enc_opt_i32(t.1).len() + enc_opt_u8(t.2).len() + enc_opt_i64(t.3).len(), enc_opt_i64(t.4)),
{
    lemma_enc_lens();
    lemma_split_prefix(data, pos, enc_order_trigger_condition(t.0) + enc_opt_i32(t.1) + enc_opt_u8(t.2) + enc_opt_i64(t.3), enc_opt_i64(t.4));
    lemma_split_prefix(data, pos, enc_order_trigger_condition(t.0) + enc_opt_i32(t.1) + enc_opt_u8(t.2), enc_opt_i64(t.3));
    lemma_split_prefix(data, pos, enc_order_trigger_condition(t.0) + enc_opt_i32(t.1), enc_opt_u8(t.2));
    lemma_split_prefix(data, pos, enc_order_trigger_condition(t.0), enc_opt_i32(t.1));
}

fn read_order_params_g2(data: &[u8], pos: usize) -> (r: Option<((OrderTriggerCondition, Option<i32>, Option<u8>, Option<i64>, Option<i64>), usize)>)
    ensures
        r matches Some(p) ==> pos <= p.1 <= data@.len()
            && data@.subrange(pos as int, p.1 as int) == enc_order_params_g2(p.0)
            && p.1 == pos + enc_order_params_g2(p.0).len(),
        forall|t: (OrderTriggerCondition, Option<i32>, Option<u8>, Option<i64>, Option<i64>)| is_prefix_at(data@, pos as int, enc_order_params_g2(t))
            ==> (r matches Some(p) && p.0 == t && p.1 == pos + enc_order_params_g2(t).len()),
{
    proof {
        lemma_enc_lens();
    }
    match read_order_trigger_condition(data, pos) {
        None => {
            proof {
                assert forall|t: (OrderTriggerCondition, Option<i32>, Option<u8>, Option<i64>, Option<i64>)| !(is_prefix_at(data@, pos as int, enc_order_params_g2(t))) by {
                    if is_prefix_at(data@, pos as int, enc_order_params_g2(t)) {
                        lemma_order_params_g2_parts(data@, pos as int, t);
                        assert(is_prefix_at(data@, pos as int, enc_order_trigger_condition(t.0)));
                    }
                }
            }
            None
        }
        Some((x0, pos1)) => {
            match read_opt_i32(data, pos1) {
                None => {
                    proof {
                        assert forall|t: (OrderTriggerCondition, Option<i32>, Option<u8>, Option<i64>, Option<i64>)| !(is_prefix_at(data@, pos as int, enc_order_params_g2(t))) by {
                            if is_prefix_at(data@, pos as int, enc_order_params_g2(t)) {
                                lemma_order_params_g2_parts(data@, pos as int, t);
                                assert(is_prefix_at(data@, pos as int, enc_order_trigger_condition(t.0)));
                                assert(is_prefix_at(data@, pos1 as int, enc_opt_i32(t.1)));
                            }
                        }
                    }
                    None
                }
                Some((x1, pos2)) => {
                    match read_opt_u8(data, pos2) {
                        None => {
                            proof {
                                assert forall|t: (OrderTriggerCondition, Option<i32>, Option<u8>, Option<i64>, Option<i64>)| !(is_prefix_at(data@, pos as int, enc_order_params_g2(t))) by {
                                    if is_prefix_at(data@, pos as int, enc_order_params_g2(t)) {
                                        lemma_order_params_g2_parts(data@, pos as int, t);
                                        assert(is_prefix_at(data@, pos as int, enc_order_trigger_condition(t.0)));
                                        assert(is_prefix_at(data@, pos1 as int, enc_opt_i32(t.1)));
                                        assert(is_prefix_at(data@, pos2 as int, enc_opt_u8(t.2)));
                                    }
                                }
                            }
                            None
                        }
                        Some((x2, pos3)) => {
                            match read_opt_i64(data, pos3) {
                                None => {
                                    proof {
                                        assert forall|t: (OrderTriggerCondition, Option<i32>, Option<u8>, Option<i64>, Option<i64>)| !(is_prefix_at(data@, pos as int, enc_order_params_g2(t))) by {
                                            if is_prefix_at(data@, pos as int, enc_order_params_g2(t)) {
                                                lemma_order_params_g2_parts(data@, pos as int, t);
                                                assert(is_prefix_at(data@, pos as int, enc_order_trigger_condition(t.0)));
                                                assert(is_prefix_at(data@, pos1 as int, enc_opt_i32(t.1)));
                                                assert(is_prefix_at(data@, pos2 as int, enc_opt_u8(t.2)));
                                                assert(is_prefix_at(data@, pos3 as int, enc_opt_i64(t.3)));
                                            }
                                        }
                                    }
                                    None
                                }
                                Some((x3, pos4)) => {
                                    match read_opt_i64(data, pos4) {
                                        None => {
                                            proof {
                                                assert forall|t: (OrderTriggerCondition, Option<i32>, Option<u8>, Option<i64>, Option<i64>)| !(is_prefix_at(data@, pos as int, enc_order_params_g2(t))) by {
                                                    if is_prefix_at(data@, pos as int, enc_order_params_g2(t)) {
                                                        lemma_order_params_g2_parts(data@, pos as int, t);
                                                        assert(is_prefix_at(data@, pos as int, enc_order_trigger_condition(t.0)));
                                                        assert(is_prefix_at(data@, pos1 as int, enc_opt_i32(t.1)));
                                                        assert(is_prefix_at(data@, pos2 as int, enc_opt_u8(t.2)));
                                                        assert(is_prefix_at(data@, pos3 as int, enc_opt_i64(t.3)));
                                                        assert(is_prefix_at(data@, pos4 as int, enc_opt_i64(t.4)));
                                                    }
                                                }
                                            }
                                            None
                                        }
                                        Some((x4, pos5)) => {
                                            let result = (x0, x1, x2, x3, x4);
                                            proof {
                                                lemma_join_at(data@, pos as int, pos1 as int, pos2 as int);
                                                lemma_join_at(data@, pos as int, pos2 as int, pos3 as int);
                                                lemma_join_at(data@, pos as int, pos3 as int, pos4 as int);
                                                lemma_join_at(data@, pos as int, pos4 as int, pos5 as int);
                                                assert(data@.subrange(pos as int, pos5 as int) == enc_order_params_g2(result));
                                                assert forall|t: (OrderTriggerCondition, Option<i32>, Option<u8>, Option<i64>, Option<i64>)| is_prefix_at(data@, pos as int, enc_order_params_g2(t))
                                                    implies (result == t && pos5 == pos + enc_order_params_g2(t).len()) by {
                                                    lemma_order_params_g2_parts(data@, pos as int, t);
                                                    assert(is_prefix_at(data@, pos as int, enc_order_trigger_condition(t.0)));
                                                    assert(is_prefix_at(data@, pos1 as int, enc_opt_i32(t.1)));
                                                    assert(is_prefix_at(data@, pos2 as int, enc_opt_u8(t.2)));
                                                    assert(is_prefix_at(data@, pos3 as int, enc_opt_i64(t.3)));
                                                    assert(is_prefix_at(data@, pos4 as int, enc_opt_i64(t.4)));
                                                }
                                            }
                                            Some((result, pos5))
                                            }
                                        }
                                    }
                                }
                            }
                        }
                    }
                }
            }
        }
}

proof fn lemma_order_params_grouped(v: OrderParams)
    ensures
        enc_order_params(v) == enc_order_params_g0((v.order_type, v.market_type, v.direction, v.user_order_id, v.base_asset_amount, v.price)) + enc_order_params_g1((v.market_index, v.reduce_only, v.post_only, v.immediate_or_cancel, v.max_ts, v.trigger_price)) + enc_order_params_g2((v.trigger_condition, v.oracle_price_offset, v.auction_duration, v.auction_start_price, v.auction_end_price)),
{
    lemma_add_assoc(enc_order_params_g0((v.order_type, v.market_type, v.direction, v.user_order_id, v.base_asset_amount, v.price)), enc_u16(v.market_index), enc_bool(v.reduce_only));
    lemma_add_assoc(enc_order_params_g0((v.order_type, v.market_type, v.direction, v.user_order_id, v.base_asset_amount, v.price)), enc_u16(v.market_index) + enc_bool(v.reduce_only), enc_post_only_param(v.post_only));
    lemma_add_assoc(enc_order_params_g0((v.order_type, v.market_type, v.direction, v.user_order_id, v.base_asset_amount, v.price)), enc_u16(v.market_index) + enc_bool(v.reduce_only) + enc_post_only_param(v.post_only), enc_bool(v.immediate_or_cancel));
    lemma_add_assoc(enc_order_params_g0((v.order_type, v.market_type, v.direction, v.user_order_id, v.base_asset_amount, v.price)), enc_u16(v.market_index) + enc_bool(v.reduce_only) + enc_post_only_param(v.post_only) + enc_bool(v.immediate_or_cancel), enc_opt_i64(v.max_ts));
    lemma_add_assoc(enc_order_params_g0((v.order_type, v.market_type, v.direction, v.user_order_id, v.base_asset_amount, v.price)), enc_u16(v.market_index) + enc_bool(v.reduce_only) + enc_post_only_param(v.post_only) + enc_bool(v.immediate_or_cancel) + enc_opt_i64(v.max_ts), enc_opt_u64(v.trigger_price));
    lemma_add_assoc(enc_order_params_g0((v.order_type, v.market_type, v.direction, v.user_order_id, v.base_asset_amount, v.price)) + enc_order_params_g1((v.market_index, v.reduce_only, v.post_only, v.immediate_or_cancel, v.max_ts, v.trigger_price)), enc_order_trigger_condition(v.trigger_condition), enc_opt_i32(v.oracle_price_offset));
    lemma_add_assoc(enc_order_params_g0((v.order_type, v.market_type, v.direction, v.user_order_id, v.base_asset_amount, v.price)) + enc_order_params_g1((v.market_index, v.reduce_only, v.post_only, v.immediate_or_cancel, v.max_ts, v.trigger_price)), enc_order_trigger_condition(v.trigger_condition) + enc_opt_i32(v.oracle_price_offset), enc_opt_u8(v.auction_duration));
    lemma_add_assoc(enc_order_params_g0((v.order_type, v.market_type, v.direction, v.user_order_id, v.base_asset_amount, v.price)) + enc_order_params_g1((v.market_index, v.reduce_only, v.post_only, v.immediate_or_cancel, v.max_ts, v.trigger_price)), enc_order_trigger_condition(v.trigger_condition) + enc_opt_i32(v.oracle_price_offset) + enc_opt_u8(v.auction_duration), enc_opt_i64(v.auction_start_price));
    lemma_add_assoc(enc_order_params_g0((v.order_type, v.market_type, v.direction, v.user_order_id, v.base_asset_amount, v.price)) + enc_order_params_g1((v.market_index, v.reduce_only, v.post_only, v.immediate_or_cancel, v.max_ts, v.trigger_price)), enc_order_trigger_condition(v.trigger_condition) + enc_opt_i32(v.oracle_price_offset) + enc_opt_u8(v.auction_duration) + enc_opt_i64(v.auction_start_price), enc_opt_i64(v.auction_end_price));
}

#[verifier::rlimit(100)]
#[verifier::spinoff_prover]
pub fn read_order_params(data: &[u8], pos: usize) -> (r: Option<(OrderParams, usize)>)
    ensures
        r matches Some(p) ==> pos <= p.1 <= data@.len()
            && data@.subrange(pos as int, p.1 as int) == enc_order_params(p.0)
            && p.1 == pos + enc_order_params(p.0).len(),
        forall|v: OrderParams| is_prefix_at(data@, pos as int, enc_order_params(v))
            ==> (r matches Some(p) && p.0 == v && p.1 == pos + enc_order_params(v).len()),
{
    match read_order_params_g0(data, pos) {
        None => {
            proof {
                assert forall|v: OrderParams| !(is_prefix_at(data@, pos as int, enc_order_params(v))) by {
                    if is_prefix_at(data@, pos as int, enc_order_params(v)) {
                        lemma_order_params_grouped(v);
                        lemma_split_prefix(data@, pos as int, enc_order_params_g0((v.order_type, v.market_type, v.direction, v.user_order_id, v.base_asset_amount, v.price)) + enc_order_params_g1((v.market_index, v.reduce_only, v.post_only, v.immediate_or_cancel, v.max_ts, v.trigger_price)), enc_order_params_g2((v.trigger_condition, v.oracle_price_offset, v.auction_duration, v.auction_start_price, v.auction_end_price)));
                        lemma_split_prefix(data@, pos as int, enc_order_params_g0((v.order_type, v.market_type, v.direction, v.user_order_id, v.base_asset_amount, v.price)), enc_order_params_g1((v.market_index, v.reduce_only, v.post_only, v.immediate_or_cancel, v.max_ts, v.trigger_price)));
                        assert(is_prefix_at(data@, pos as int, enc_order_params_g0((v.order_type, v.market_type, v.direction, v.user_order_id, v.base_asset_amount, v.price))));
                    }
                }
            }
            None
        }
        Some((g0, pos1)) => {
            match read_order_params_g1(data, pos1) {
                None => {
                    proof {
                        assert forall|v: OrderParams| !(is_prefix_at(data@, pos as int, enc_order_params(v))) by {
                            if is_prefix_at(data@, pos as int, enc_order_params(v)) {
                                lemma_order_params_grouped(v);
                                lemma_split_prefix(data@, pos as int, enc_order_params_g0((v.order_type, v.market_type, v.direction, v.user_order_id, v.base_asset_amount, v.price)) + enc_order_params_g1((v.market_index, v.reduce_only, v.post_only, v.immediate_or_cancel, v.max_ts, v.trigger_price)), enc_order_params_g2((v.trigger_condition, v.oracle_price_offset, v.auction_duration, v.auction_start_price, v.auction_end_price)));
                                lemma_split_prefix(data@, pos as int, enc_order_params_g0((v.order_type, v.market_type, v.direction, v.user_order_id, v.base_asset_amount, v.price)), enc_order_params_g1((v.market_index, v.reduce_only, v.post_only, v.immediate_or_cancel, v.max_ts, v.trigger_price)));
                                assert(is_prefix_at(data@, pos as int, enc_order_params_g0((v.order_type, v.market_type, v.direction, v.user_order_id, v.base_asset_amount, v.price))));
                                assert(is_prefix_at(data@, pos1 as int, enc_order_params_g1((v.market_index, v.reduce_only, v.post_only, v.immediate_or_cancel, v.max_ts, v.trigger_price))));
                            }
                        }
                    }
                    None
                }
                Some((g1, pos2)) => {
                    match read_order_params_g2(data, pos2) {
                        None => {
                            proof {
                                assert forall|v: OrderParams| !(is_prefix_at(data@, pos as int, enc_order_params(v))) by {
                                    if is_prefix_at(data@, pos as int, enc_order_params(v)) {
                                        lemma_order_params_grouped(v);
                                        lemma_split_prefix(data@, pos as int, enc_order_params_g0((v.order_type, v.market_type, v.direction, v.user_order_id, v.base_asset_amount, v.price)) + enc_order_params_g1((v.market_index, v.reduce_only, v.post_only, v.immediate_or_cancel, v.max_ts, v.trigger_price)), enc_order_params_g2((v.trigger_condition, v.oracle_price_offset, v.auction_duration, v.auction_start_price, v.auction_end_price)));
                                        lemma_split_prefix(data@, pos as int, enc_order_params_g0((v.order_type, v.market_type, v.direction, v.user_order_id, v.base_asset_amount, v.price)), enc_order_params_g1((v.market_index, v.reduce_only, v.post_only, v.immediate_or_cancel, v.max_ts, v.trigger_price)));
                                        assert(is_prefix_at(data@, pos as int, enc_order_params_g0((v.order_type, v.market_type, v.direction, v.user_order_id, v.base_asset_amount, v.price))));
                                        assert(is_prefix_at(data@, pos1 as int, enc_order_params_g1((v.market_index, v.reduce_only, v.post_only, v.immediate_or_cancel, v.max_ts, v.trigger_price))));
                                        assert(is_prefix_at(data@, pos2 as int, enc_order_params_g2((v.trigger_condition, v.oracle_price_offset, v.auction_duration, v.auction_start_price, v.auction_end_price))));
                                    }
                                }
                            }
                            None
                        }
                        Some((g2, pos3)) => {
                            let result = OrderParams { order_type: g0.0, market_type: g0.1, direction: g0.2, user_order_id: g0.3, base_asset_amount: g0.4, price: g0.5, market_index: g1.0, reduce_only: g1.1, post_only: g1.2, immediate_or_cancel: g1.3, max_ts: g1.4, trigger_price: g1.5, trigger_condition: g2.0, oracle_price_offset: g2.1, auction_duration: g2.2, auction_start_price: g2.3, auction_end_price: g2.4 };
                            proof {
                                lemma_join_at(data@, pos as int, pos1 as int, pos2 as int);
                                lemma_join_at(data@, pos as int, pos2 as int, pos3 as int);
                                lemma_order_params_grouped(result);
                                assert((result.order_type, result.market_type, result.direction, result.user_order_id, result.base_asset_amount, result.price) == g0);
                                assert((result.market_index, result.reduce_only, result.post_only, result.immediate_or_cancel, result.max_ts, result.trigger_price) == g1);
                                assert((result.trigger_condition, result.oracle_price_offset, result.auction_duration, result.auction_start_price, result.auction_end_price) == g2);
                                assert(data@.subrange(pos as int, pos3 as int) == enc_order_params(result));
                                assert forall|v: OrderParams| is_prefix_at(data@, pos as int, enc_order_params(v))
                                    implies (result == v && pos3 == pos + enc_order_params(v).len()) by {
                                    lemma_order_params_grouped(v);
                                    lemma_split_prefix(data@, pos as int, enc_order_params_g0((v.order_type, v.market_type, v.direction, v.user_order_id, v.base_asset_amount, v.price)) + enc_order_params_g1((v.market_index, v.reduce_only, v.post_only, v.immediate_or_cancel, v.max_ts, v.trigger_price)), enc_order_params_g2((v.trigger_condition, v.oracle_price_offset, v.auction_duration, v.auction_start_price, v.auction_end_price)));
                                    lemma_split_prefix(data@, pos as int, enc_order_params_g0((v.order_type, v.market_type, v.direction, v.user_order_id, v.base_asset_amount, v.price)), enc_order_params_g1((v.market_index, v.reduce_only, v.post_only, v.immediate_or_cancel, v.max_ts, v.trigger_price)));
                                    assert(is_prefix_at(data@, pos as int, enc_order_params_g0((v.order_type, v.market_type, v.direction, v.user_order_id, v.base_asset_amount, v.price))));
                                    assert(is_prefix_at(data@, pos1 as int, enc_order_params_g1((v.market_index, v.reduce_only, v.post_only, v.immediate_or_cancel, v.max_ts, v.trigger_price))));
                                    assert(is_prefix_at(data@, pos2 as int, enc_order_params_g2((v.trigger_condition, v.oracle_price_offset, v.auction_duration, v.auction_start_price, v.auction_end_price))));
                                }
                            }
                            Some((result, pos3))
                            }
                        }
                    }
                }
            }
        }
}

#[verifier::rlimit(100)]
#[verifier::spinoff_prover]
pub fn write_order_params(out: &mut Vec<u8>, p: &OrderParams)
    ensures
        final(out)@ == old(out)@ + enc_order_params(*p),
{
    write_order_type(out, p.order_type);
    write_market_type(out, p.market_type);
    proof {
        lemma_add_assoc(old(out)@, enc_order_type(p.order_type), enc_market_type(p.market_type));
    }
    write_position_direction(out, p.direction);
    proof {
        lemma_add_assoc(old(out)@, enc_order_type(p.order_type) + enc_market_type(p.market_type), enc_position_direction(p.direction));
    }
    write_u8(out, p.user_order_id);
    proof {
        lemma_add_assoc(old(out)@, enc_order_type(p.order_type) + enc_market_type(p.market_type) + enc_position_direction(p.direction), enc_u8(p.user_order_id));
    }
    write_u64(out, p.base_asset_amount);
    proof {
        lemma_add_assoc(old(out)@, enc_order_type(p.order_type) + enc_market_type(p.market_type) + enc_position_direction(p.direction) + enc_u8(p.user_order_id), enc_u64(p.base_asset_amount));
    }
    write_u64(out, p.price);
    proof {
        lemma_add_assoc(old(out)@, enc_order_type(p.order_type) + enc_market_type(p.market_type) + enc_position_direction(p.direction) + enc_u8(p.user_order_id) + enc_u64(p.base_asset_amount), enc_u64(p.price));
    }
    write_u16(out, p.market_index);
    proof {
        lemma_add_assoc(old(out)@, enc_order_type(p.order_type) + enc_market_type(p.market_type) + enc_position_direction(p.direction) + enc_u8(p.user_order_id) + enc_u64(p.base_asset_amount) + enc_u64(p.price), enc_u16(p.market_index));
    }
    write_bool(out, p.reduce_only);
    proof {
        lemma_add_assoc(old(out)@, enc_order_type(p.order_type) + enc_market_type(p.market_type) + enc_position_direction(p.direction) + enc_u8(p.user_order_id) + enc_u64(p.base_asset_amount) + enc_u64(p.price) + enc_u16(p.market_index), enc_bool(p.reduce_only));
    }
    write_post_only_param(out, p.post_only);
    proof {
        lemma_add_assoc(old(out)@, enc_order_type(p.order_type) + enc_market_type(p.market_type) + enc_position_direction(p.direction) + enc_u8(p.user_order_id) + enc_u64(p.base_asset_amount) + enc_u64(p.price) + enc_u16(p.market_index) + enc_bool(p.reduce_only), enc_post_only_param(p.post_only));
    }
    write_bool(out, p.immediate_or_cancel);
    proof {
        lemma_add_assoc(old(out)@, enc_order_type(p.order_type) + enc_market_type(p.market_type) + enc_position_direction(p.direction) + enc_u8(p.user_order_id) + enc_u64(p.base_asset_amount) + enc_u64(p.price) + enc_u16(p.market_index) + enc_bool(p.reduce_only) + enc_post_only_param(p.post_only), enc_bool(p.immediate_or_cancel));
    }
    write_opt_i64(out, p.max_ts);
    proof {
        lemma_add_assoc(old(out)@, enc_order_type(p.order_type) + enc_market_type(p.market_type) + enc_position_direction(p.direction) + enc_u8(p.user_order_id) + enc_u64(p.base_asset_amount) + enc_u64(p.price) + enc_u16(p.market_index) + enc_bool(p.reduce_only) + enc_post_only_param(p.post_only) + enc_bool(p.immediate_or_cancel), enc_opt_i64(p.max_ts));
    }
    write_opt_u64(out, p.trigger_price);
    proof {
        lemma_add_assoc(old(out)@, enc_order_type(p.order_type) + enc_market_type(p.market_type) + enc_position_direction(p.direction) + enc_u8(p.user_order_id) + enc_u64(p.base_asset_amount) + enc_u64(p.price) + enc_u16(p.market_index) + enc_bool(p.reduce_only) + enc_post_only_param(p.post_only) + enc_bool(p.immediate_or_cancel) + enc_opt_i64(p.max_ts), enc_opt_u64(p.trigger_price));
    }
    write_order_trigger_condition(out, p.trigger_condition);
    proof {
        lemma_add_assoc(old(out)@, enc_order_type(p.order_type) + enc_market_type(p.market_type) + enc_position_direction(p.direction) + enc_u8(p.user_order_id) + enc_u64(p.base_asset_amount) + enc_u64(p.price) + enc_u16(p.market_index) + enc_bool(p.reduce_only) + enc_post_only_param(p.post_only) + enc_bool(p.immediate_or_cancel) + enc_opt_i64(p.max_ts) + enc_opt_u64(p.trigger_price), enc_order_trigger_condition(p.trigger_condition));
    }
    write_opt_i32(out, p.oracle_price_offset);
    proof {
        lemma_add_assoc(old(out)@, enc_order_type(p.order_type) + enc_market_type(p.market_type) + enc_position_direction(p.direction) + enc_u8(p.user_order_id) + enc_u64(p.base_asset_amount) + enc_u64(p.price) + enc_u16(p.market_index) + enc_bool(p.reduce_only) + enc_post_only_param(p.post_only) + enc_bool(p.immediate_or_cancel) + enc_opt_i64(p.max_ts) + enc_opt_u64(p.trigger_price) + enc_order_trigger_condition(p.trigger_condition), enc_opt_i32(p.oracle_price_offset));
    }
    write_opt_u8(out, p.auction_duration);
    proof {
        lemma_add_assoc(old(out)@, enc_order_type(p.order_type) + enc_market_type(p.market_type) + enc_position_direction(p.direction) + enc_u8(p.user_order_id) + enc_u64(p.base_asset_amount) + enc_u64(p.price) + enc_u16(p.market_index) + enc_bool(p.reduce_only) + enc_post_only_param(p.post_only) + enc_bool(p.immediate_or_cancel) + enc_opt_i64(p.max_ts) + enc_opt_u64(p.trigger_price) + enc_order_trigger_condition(p.trigger_condition) + enc_opt_i32(p.oracle_price_offset), enc_opt_u8(p.auction_duration));
    }
    write_opt_i64(out, p.auction_start_price);
    proof {
        lemma_add_assoc(old(out)@, enc_order_type(p.order_type) + enc_market_type(p.market_type) + enc_position_direction(p.direction) + enc_u8(p.user_order_id) + enc_u64(p.base_asset_amount) + enc_u64(p.price) + enc_u16(p.market_index) + enc_bool(p.reduce_only) + enc_post_only_param(p.post_only) + enc_bool(p.immediate_or_cancel) + enc_opt_i64(p.max_ts) + enc_opt_u64(p.trigger_price) + enc_order_trigger_condition(p.trigger_condition) + enc_opt_i32(p.oracle_price_offset) + enc_opt_u8(p.auction_duration), enc_opt_i64(p.auction_start_price));
    }
    write_opt_i64(out, p.auction_end_price);
    proof {
        lemma_add_assoc(old(out)@, enc_order_type(p.order_type) + enc_market_type(p.market_type) + enc_position_direction(p.direction) + enc_u8(p.user_order_id) + enc_u64(p.base_asset_amount) + enc_u64(p.price) + enc_u16(p.market_index) + enc_bool(p.reduce_only) + enc_post_only_param(p.post_only) + enc_bool(p.immediate_or_cancel) + enc_opt_i64(p.max_ts) + enc_opt_u64(p.trigger_price) + enc_order_trigger_condition(p.trigger_condition) + enc_opt_i32(p.oracle_price_offset) + enc_opt_u8(p.auction_duration) + enc_opt_i64(p.auction_start_price), enc_opt_i64(p.auction_end_price));
    }
    proof {
        assert(out@ == old(out)@ + enc_order_params(*p));
    }
}

/// A partial update of one resting order: every field is optional.
#[derive(Clone, Debug, PartialEq)]
pub struct ModifyOrderParams {
    pub direction: Option<PositionDirection>,
    pub base_asset_amount: Option<u64>,
    pub price: Option<u64>,
    pub reduce_only: Option<bool>,
    pub post_only: Option<PostOnlyParam>,
    pub immediate_or_cancel: Option<bool>,
    pub max_ts: Option<i64>,
    pub trigger_price: Option<u64>,
    pub trigger_condition: Option<OrderTriggerCondition>,
    pub oracle_price_offset: Option<i32>,
    pub auction_duration: Option<u8>,
    pub auction_start_price: Option<i64>,
    pub auction_end_price: Option<i64>,
    pub policy: Option<ModifyOrderPolicy>,
}

pub open spec fn enc_modify_order_params(p: ModifyOrderParams) -> Seq<u8> {
    enc_opt_position_direction(p.direction) + enc_opt_u64(p.base_asset_amount) + enc_opt_u64(p.price) + enc_opt_bool(p.reduce_only) + enc_opt_post_only_param(p.post_only) + enc_opt_bool(p.immediate_or_cancel) + enc_opt_i64(p.max_ts) + enc_opt_u64(p.trigger_price) + enc_opt_order_trigger_condition(p.trigger_condition) + enc_opt_i32(p.oracle_price_offset) + enc_opt_u8(p.auction_duration) + enc_opt_i64(p.auction_start_price) + enc_opt_i64(p.auction_end_price) + enc_opt_modify_order_policy(p.policy)
}

proof fn lemma_modify_order_params_parts(data: Seq<u8>, pos: int, v: ModifyOrderParams)
    requires
        is_prefix_at(data, pos, enc_modify_order_params(v)),
    ensures
        is_prefix_at(data, pos, enc_opt_position_direction(v.direction)),
        is_prefix_at(data, pos + enc_opt_position_direction(v.direction).len(), enc_opt_u64(v.base_asset_amount)),
        is_prefix_at(data, pos + enc_opt_position_direction(v.direction).len() + enc_opt_u64(v.base_asset_amount).len(), enc_opt_u64(v.price)),
        is_prefix_at(data, pos + enc_opt_position_direction(v.direction).len() + enc_opt_u64(v.base_asset_amount).len() + enc_opt_u64(v.price).len(), enc_opt_bool(v.reduce_only)),
        is_prefix_at(data, pos + enc_opt_position_direction(v.direction).len() + enc_opt_u64(v.base_asset_amount).len() + enc_opt_u64(v.price).len() + enc_opt_bool(v.reduce_only).len(), enc_opt_post_only_param(v.post_only)),
        is_prefix_at(data, pos + enc_opt_position_direction(v.direction).len() + enc_opt_u64(v.base_asset_amount).len() + enc_opt_u64(v.price).len() + enc_opt_bool(v.reduce_only).len() + enc_opt_post_only_param(v.post_only).len(), enc_opt_bool(v.immediate_or_cancel)),
        is_prefix_at(data, pos + enc_opt_position_direction(v.direction).len() + enc_opt_u64(v.base_asset_amount).len() + enc_opt_u64(v.price).len() + enc_opt_bool(v.reduce_only).len() + enc_opt_post_only_param(v.post_only).len() + enc_opt_bool(v.immediate_or_cancel).len(), enc_opt_i64(v.max_ts)),
        is_prefix_at(data, pos + enc_opt_position_direction(v.direction).len() + enc_opt_u64(v.base_asset_amount).len() + enc_opt_u64(v.price).len() + enc_opt_bool(v.reduce_only).len() + enc_opt_post_only_param(v.post_only).len() + enc_opt_bool(v.immediate_or_cancel).len() + enc_opt_i64(v.max_ts).len(), enc_opt_u64(v.trigger_price)),
        is_prefix_at(data, pos + enc_opt_position_direction(v.direction).len() + enc_opt_u64(v.base_asset_amount).len() + enc_opt_u64(v.price).len() + enc_opt_bool(v.reduce_only).len() + enc_opt_post_only_param(v.post_only).len() + enc_opt_bool(v.immediate_or_cancel).len() + enc_opt_i64(v.max_ts).len() + enc_opt_u64(v.trigger_price).len(), enc_opt_order_trigger_condition(v.trigger_condition)),
        is_prefix_at(data, pos + enc_opt_position_direction(v.direction).len() + enc_opt_u64(v.base_asset_amount).len() + enc_opt_u64(v.price).len() + enc_opt_bool(v.reduce_only).len() + enc_opt_post_only_param(v.post_only).len() + enc_opt_bool(v.immediate_or_cancel).len() + enc_opt_i64(v.max_ts).len() + enc_opt_u64(v.trigger_price).len() + enc_opt_order_trigger_condition(v.trigger_condition).len(), enc_opt_i32(v.oracle_price_offset)),
        is_prefix_at(data, pos + enc_opt_position_direction(v.direction).len() + enc_opt_u64(v.base_asset_amount).len() + enc_opt_u64(v.price).len() + enc_opt_bool(v.reduce_only).len() + enc_opt_post_only_param(v.post_only).len() + enc_opt_bool(v.immediate_or_cancel).len() + enc_opt_i64(v.max_ts).len() + enc_opt_u64(v.trigger_price).len() + enc_opt_order_trigger_condition(v.trigger_condition).len() + enc_opt_i32(v.oracle_price_offset).len(), enc_opt_u8(v.auction_duration)),
        is_prefix_at(data, pos + enc_opt_position_direction(v.direction).len() + enc_opt_u64(v.base_asset_amount).len() + enc_opt_u64(v.price).len() + enc_opt_bool(v.reduce_only).len() + enc_opt_post_only_param(v.post_only).len() + enc_opt_bool(v.immediate_or_cancel).len() + enc_opt_i64(v.max_ts).len() + enc_opt_u64(v.trigger_price).len() + enc_opt_order_trigger_condition(v.trigger_condition).len() + enc_opt_i32(v.oracle_price_offset).len() + enc_opt_u8(v.auction_duration).len(), enc_opt_i64(v.auction_start_price)),
        is_prefix_at(data, pos + enc_opt_position_direction(v.direction).len() + enc_opt_u64(v.base_asset_amount).len() + enc_opt_u64(v.price).len() + enc_opt_bool(v.reduce_only).len() + enc_opt_post_only_param(v.post_only).len() + enc_opt_bool(v.immediate_or_cancel).len() + enc_opt_i64(v.max_ts).len() + enc_opt_u64(v.trigger_price).len() + enc_opt_order_trigger_condition(v.trigger_condition).len() + enc_opt_i32(v.oracle_price_offset).len() + enc_opt_u8(v.auction_duration).len() + enc_opt_i64(v.auction_start_price).len(), enc_opt_i64(v.auction_end_price)),
        is_prefix_at(data, pos + enc_opt_position_direction(v.direction).len() + enc_opt_u64(v.base_asset_amount).len() + enc_opt_u64(v.price).len() + enc_opt_bool(v.reduce_only).len() + enc_opt_post_only_param(v.post_only).len() + enc_opt_bool(v.immediate_or_cancel).len() + enc_opt_i64(v.max_ts).len() + enc_opt_u64(v.trigger_price).len() + enc_opt_order_trigger_condition(v.trigger_condition).len() + enc_opt_i32(v.oracle_price_offset).len() + enc_opt_u8(v.auction_duration).len() + enc_opt_i64(v.auction_start_price).len() + enc_opt_i64(v.auction_end_price).len(), enc_opt_modify_order_policy(v.policy)),
{
    lemma_enc_lens();
    lemma_split_prefix(data, pos, enc_opt_position_direction(v.direction) + enc_opt_u64(v.base_asset_amount) + enc_opt_u64(v.price) + enc_opt_bool(v.reduce_only) + enc_opt_post_only_param(v.post_only) + enc_opt_bool(v.immediate_or_cancel) + enc_opt_i64(v.max_ts) + enc_opt_u64(v.trigger_price) + enc_opt_order_trigger_condition(v.trigger_condition) + enc_opt_i32(v.oracle_price_offset) + enc_opt_u8(v.auction_duration) + enc_opt_i64(v.auction_start_price) + enc_opt_i64(v.auction_end_price), enc_opt_modify_order_policy(v.policy));
    lemma_split_prefix(data, pos, enc_opt_position_direction(v.direction) + enc_opt_u64(v.base_asset_amount) + enc_opt_u64(v.price) + enc_opt_bool(v.reduce_only) + enc_opt_post_only_param(v.post_only) + enc_opt_bool(v.immediate_or_cancel) + enc_opt_i64(v.max_ts) + enc_opt_u64(v.trigger_price) + enc_opt_order_trigger_condition(v.trigger_condition) + enc_opt_i32(v.oracle_price_offset) + enc_opt_u8(v.auction_duration) + enc_opt_i64(v.auction_start_price), enc_opt_i64(v.auction_end_price));
    lemma_split_prefix(data, pos, enc_opt_position_direction(v.direction) + enc_opt_u64(v.base_asset_amount) + enc_opt_u64(v.price) + enc_opt_bool(v.reduce_only) + enc_opt_post_only_param(v.post_only) + enc_opt_bool(v.immediate_or_cancel) + enc_opt_i64(v.max_ts) + enc_opt_u64(v.trigger_price) + enc_opt_order_trigger_condition(v.trigger_condition) + enc_opt_i32(v.oracle_price_offset) + enc_opt_u8(v.auction_duration), enc_opt_i64(v.auction_start_price));
    lemma_split_prefix(data, pos, enc_opt_position_direction(v.direction) + enc_opt_u64(v.base_asset_amount) + enc_opt_u64(v.price) + enc_opt_bool(v.reduce_only) + enc_opt_post_only_param(v.post_only) + enc_opt_bool(v.immediate_or_cancel) + enc_opt_i64(v.max_ts) + enc_opt_u64(v.trigger_price) + enc_opt_order_trigger_condition(v.trigger_condition) + enc_opt_i32(v.oracle_price_offset), enc_opt_u8(v.auction_duration));
    lemma_split_prefix(data, pos, enc_opt_position_direction(v.direction) + enc_opt_u64(v.base_asset_amount) + enc_opt_u64(v.price) + enc_opt_bool(v.reduce_only) + enc_opt_post_only_param(v.post_only) + enc_opt_bool(v.immediate_or_cancel) + enc_opt_i64(v.max_ts) + enc_opt_u64(v.trigger_price) + enc_opt_order_trigger_condition(v.trigger_condition), enc_opt_i32(v.oracle_price_offset));
    lemma_split_prefix(data, pos, enc_opt_position_direction(v.direction) + enc_opt_u64(v.base_asset_amount) + enc_opt_u64(v.price) + enc_opt_bool(v.reduce_only) + enc_opt_post_only_param(v.post_only) + enc_opt_bool(v.immediate_or_cancel) + enc_opt_i64(v.max_ts) + enc_opt_u64(v.trigger_price), enc_opt_order_trigger_condition(v.trigger_condition));
    lemma_split_prefix(data, pos, enc_opt_position_direction(v.direction) + enc_opt_u64(v.base_asset_amount) + enc_opt_u64(v.price) + enc_opt_bool(v.reduce_only) + enc_opt_post_only_param(v.post_only) + enc_opt_bool(v.immediate_or_cancel) + enc_opt_i64(v.max_ts), enc_opt_u64(v.trigger_price));
    lemma_split_prefix(data, pos, enc_opt_position_direction(v.direction) + enc_opt_u64(v.base_asset_amount) + enc_opt_u64(v.price) + enc_opt_bool(v.reduce_only) + enc_opt_post_only_param(v.post_only) + enc_opt_bool(v.immediate_or_cancel), enc_opt_i64(v.max_ts));
    lemma_split_prefix(data, pos, enc_opt_position_direction(v.direction) + enc_opt_u64(v.base_asset_amount) + enc_opt_u64(v.price) + enc_opt_bool(v.reduce_only) + enc_opt_post_only_param(v.post_only), enc_opt_bool(v.immediate_or_cancel));
    lemma_split_prefix(data, pos, enc_opt_position_direction(v.direction) + enc_opt_u64(v.base_asset_amount) + enc_opt_u64(v.price) + enc_opt_bool(v.reduce_only), enc_opt_post_only_param(v.post_only));
    lemma_split_prefix(data, pos, enc_opt_position_direction(v.direction) + enc_opt_u64(v.base_asset_amount) + enc_opt_u64(v.price), enc_opt_bool(v.reduce_only));
    lemma_split_prefix(data, pos, enc_opt_position_direction(v.direction) + enc_opt_u64(v.base_asset_amount), enc_opt_u64(v.price));
    lemma_split_prefix(data, pos, enc_opt_position_direction(v.direction), enc_opt_u64(v.base_asset_amount));
}

#[verifier::rlimit(100)]
#[verifier::spinoff_prover]
pub fn read_modify_order_params(data: &[u8], pos: usize) -> (r: Option<(ModifyOrderParams, usize)>)
    ensures
        r matches Some(p) ==> pos <= p.1 <= data@.len()
            && data@.subrange(pos as int, p.1 as int) == enc_modify_order_params(p.0)
            && p.1 == pos + enc_modify_order_params(p.0).len(),
        forall|v: ModifyOrderParams| is_prefix_at(data@, pos as int, enc_modify_order_params(v))
            ==> (r matches Some(p) && p.0 == v && p.1 == pos + enc_modify_order_params(v).len()),
{
    proof {
        lemma_enc_lens();
    }
    match read_opt_position_direction(data, pos) {
        None => {
            proof {
                assert forall|v: ModifyOrderParams| !(is_prefix_at(data@, pos as int, enc_modify_order_params(v))) by {
                    if is_prefix_at(data@, pos as int, enc_modify_order_params(v)) {
                        lemma_modify_order_params_parts(data@, pos as int, v);
                        assert(is_prefix_at(data@, pos as int, enc_opt_position_direction(v.direction)));
                    }
                }
            }
            None
        }
        Some((direction, pos1)) => {
            match read_opt_u64(data, pos1) {
                None => {
                    proof {
                        assert forall|v: ModifyOrderParams| !(is_prefix_at(data@, pos as int, enc_modify_order_params(v))) by {
                            if is_prefix_at(data@, pos as int, enc_modify_order_params(v)) {
                                lemma_modify_order_params_parts(data@, pos as int, v);
                                assert(is_prefix_at(data@, pos as int, enc_opt_position_direction(v.direction)));
                                assert(is_prefix_at(data@, pos1 as int, enc_opt_u64(v.base_asset_amount)));
                            }
                        }
                    }
                    None
                }
                Some((base_asset_amount, pos2)) => {
                    match read_opt_u64(data, pos2) {
                        None => {
                            proof {
                                assert forall|v: ModifyOrderParams| !(is_prefix_at(data@, pos as int, enc_modify_order_params(v))) by {
                                    if is_prefix_at(data@, pos as int, enc_modify_order_params(v)) {
                                        lemma_modify_order_params_parts(data@, pos as int, v);
                                        assert(is_prefix_at(data@, pos as int, enc_opt_position_direction(v.direction)));
                                        assert(is_prefix_at(data@, pos1 as int, enc_opt_u64(v.base_asset_amount)));
                                        assert(is_prefix_at(data@, pos2 as int, enc_opt_u64(v.price)));
                                    }
                                }
                            }
                            None
                        }
                        Some((price, pos3)) => {
                            match read_opt_bool(data, pos3) {
                                None => {
                                    proof {
                                        assert forall|v: ModifyOrderParams| !(is_prefix_at(data@, pos as int, enc_modify_order_params(v))) by {
                                            if is_prefix_at(data@, pos as int, enc_modify_order_params(v)) {
                                                lemma_modify_order_params_parts(data@, pos as int, v);
                                                assert(is_prefix_at(data@, pos as int, enc_opt_position_direction(v.direction)));
                                                assert(is_prefix_at(data@, pos1 as int, enc_opt_u64(v.base_asset_amount)));
                                                assert(is_prefix_at(data@, pos2 as int, enc_opt_u64(v.price)));
                                                assert(is_prefix_at(data@, pos3 as int, enc_opt_bool(v.reduce_only)));
                                            }
                                        }
                                    }
                                    None
                                }
                                Some((reduce_only, pos4)) => {
                                    match read_opt_post_only_param(data, pos4) {
                                        None => {
                                            proof {
                                                assert forall|v: ModifyOrderParams| !(is_prefix_at(data@, pos as int, enc_modify_order_params(v))) by {
                                                    if is_prefix_at(data@, pos as int, enc_modify_order_params(v)) {
                                                        lemma_modify_order_params_parts(data@, pos as int, v);
                                                        assert(is_prefix_at(data@, pos as int, enc_opt_position_direction(v.direction)));
                                                        assert(is_prefix_at(data@, pos1 as int, enc_opt_u64(v.base_asset_amount)));
                                                        assert(is_prefix_at(data@, pos2 as int, enc_opt_u64(v.price)));
                                                        assert(is_prefix_at(data@, pos3 as int, enc_opt_bool(v.reduce_only)));
                                                        assert(is_prefix_at(data@, pos4 as int, enc_opt_post_only_param(v.post_only)));
                                                    }
                                                }
                                            }
                                            None
                                        }
                                        Some((post_only, pos5)) => {
                                            match read_opt_bool(data, pos5) {
                                                None => {
                                                    proof {
                                                        assert forall|v: ModifyOrderParams| !(is_prefix_at(data@, pos as int, enc_modify_order_params(v))) by {
                                                            if is_prefix_at(data@, pos as int, enc_modify_order_params(v)) {
                                                                lemma_modify_order_params_parts(data@, pos as int, v);
                                                                assert(is_prefix_at(data@, pos as int, enc_opt_position_direction(v.direction)));
                                                                assert(is_prefix_at(data@, pos1 as int, enc_opt_u64(v.base_asset_amount)));
                                                                assert(is_prefix_at(data@, pos2 as int, enc_opt_u64(v.price)));
                                                                assert(is_prefix_at(data@, pos3 as int, enc_opt_bool(v.reduce_only)));
                                                                assert(is_prefix_at(data@, pos4 as int, enc_opt_post_only_param(v.post_only)));
                                                                assert(is_prefix_at(data@, pos5 as int, enc_opt_bool(v.immediate_or_cancel)));
                                                            }
                                                        }
                                                    }
                                                    None
                                                }
                                                Some((immediate_or_cancel, pos6)) => {
                                                    match read_opt_i64(data, pos6) {
                                                        None => {
                                                            proof {
                                                                assert forall|v: ModifyOrderParams| !(is_prefix_at(data@, pos as int, enc_modify_order_params(v))) by {
                                                                    if is_prefix_at(data@, pos as int, enc_modify_order_params(v)) {
                                                                        lemma_modify_order_params_parts(data@, pos as int, v);
                                                                        assert(is_prefix_at(data@, pos as int, enc_opt_position_direction(v.direction)));
                                                                        assert(is_prefix_at(data@, pos1 as int, enc_opt_u64(v.base_asset_amount)));
                                                                        assert(is_prefix_at(data@, pos2 as int, enc_opt_u64(v.price)));
                                                                        assert(is_prefix_at(data@, pos3 as int, enc_opt_bool(v.reduce_only)));
                                                                        assert(is_prefix_at(data@, pos4 as int, enc_opt_post_only_param(v.post_only)));
                                                                        assert(is_prefix_at(data@, pos5 as int, enc_opt_bool(v.immediate_or_cancel)));
                                                                        assert(is_prefix_at(data@, pos6 as int, enc_opt_i64(v.max_ts)));
                                                                    }
                                                                }
                                                            }
                                                            None
                                                        }
                                                        Some((max_ts, pos7)) => {
                                                            match read_opt_u64(data, pos7) {
                                                                None => {
                                                                    proof {
                                                                        assert forall|v: ModifyOrderParams| !(is_prefix_at(data@, pos as int, enc_modify_order_params(v))) by {
                                                                            if is_prefix_at(data@, pos as int, enc_modify_order_params(v)) {
                                                                                lemma_modify_order_params_parts(data@, pos as int, v);
                                                                                assert(is_prefix_at(data@, pos as int, enc_opt_position_direction(v.direction)));
                                                                                assert(is_prefix_at(data@, pos1 as int, enc_opt_u64(v.base_asset_amount)));
                                                                                assert(is_prefix_at(data@, pos2 as int, enc_opt_u64(v.price)));
                                                                                assert(is_prefix_at(data@, pos3 as int, enc_opt_bool(v.reduce_only)));
                                                                                assert(is_prefix_at(data@, pos4 as int, enc_opt_post_only_param(v.post_only)));
                                                                                assert(is_prefix_at(data@, pos5 as int, enc_opt_bool(v.immediate_or_cancel)));
                                                                                assert(is_prefix_at(data@, pos6 as int, enc_opt_i64(v.max_ts)));
                                                                                assert(is_prefix_at(data@, pos7 as int, enc_opt_u64(v.trigger_price)));
                                                                            }
                                                                        }
                                                                    }
                                                                    None
                                                                }
                                                                Some((trigger_price, pos8)) => {
                                                                    match read_opt_order_trigger_condition(data, pos8) {
                                                                        None => {
                                                                            proof {
                                                                                assert forall|v: ModifyOrderParams| !(is_prefix_at(data@, pos as int, enc_modify_order_params(v))) by {
                                                                                    if is_prefix_at(data@, pos as int, enc_modify_order_params(v)) {
                                                                                        lemma_modify_order_params_parts(data@, pos as int, v);
                                                                                        assert(is_prefix_at(data@, pos as int, enc_opt_position_direction(v.direction)));
                                                                                        assert(is_prefix_at(data@, pos1 as int, enc_opt_u64(v.base_asset_amount)));
                                                                                        assert(is_prefix_at(data@, pos2 as int, enc_opt_u64(v.price)));
                                                                                        assert(is_prefix_at(data@, pos3 as int, enc_opt_bool(v.reduce_only)));
                                                                                        assert(is_prefix_at(data@, pos4 as int, enc_opt_post_only_param(v.post_only)));
                                                                                        assert(is_prefix_at(data@, pos5 as int, enc_opt_bool(v.immediate_or_cancel)));
                                                                                        assert(is_prefix_at(data@, pos6 as int, enc_opt_i64(v.max_ts)));
                                                                                        assert(is_prefix_at(data@, pos7 as int, enc_opt_u64(v.trigger_price)));
                                                                                        assert(is_prefix_at(data@, pos8 as int, enc_opt_order_trigger_condition(v.trigger_condition)));
                                                                                    }
                                                                                }
                                                                            }
                                                                            None
                                                                        }
                                                                        Some((trigger_condition, pos9)) => {
                                                                            match read_opt_i32(data, pos9) {
                                                                                None => {
                                                                                    proof {
                                                                                        assert forall|v: ModifyOrderParams| !(is_prefix_at(data@, pos as int, enc_modify_order_params(v))) by {
                                                                                            if is_prefix_at(data@, pos as int, enc_modify_order_params(v)) {
                                                                                                lemma_modify_order_params_parts(data@, pos as int, v);
                                                                                                assert(is_prefix_at(data@, pos as int, enc_opt_position_direction(v.direction)));
                                                                                                assert(is_prefix_at(data@, pos1 as int, enc_opt_u64(v.base_asset_amount)));
                                                                                                assert(is_prefix_at(data@, pos2 as int, enc_opt_u64(v.price)));
                                                                                                assert(is_prefix_at(data@, pos3 as int, enc_opt_bool(v.reduce_only)));
                                                                                                assert(is_prefix_at(data@, pos4 as int, enc_opt_post_only_param(v.post_only)));
                                                                                                assert(is_prefix_at(data@, pos5 as int, enc_opt_bool(v.immediate_or_cancel)));
                                                                                                assert(is_prefix_at(data@, pos6 as int, enc_opt_i64(v.max_ts)));
                                                                                                assert(is_prefix_at(data@, pos7 as int, enc_opt_u64(v.trigger_price)));
                                                                                                assert(is_prefix_at(data@, pos8 as int, enc_opt_order_trigger_condition(v.trigger_condition)));
                                                                                                assert(is_prefix_at(data@, pos9 as int, enc_opt_i32(v.oracle_price_offset)));
                                                                                            }
                                                                                        }
                                                                                    }
                                                                                    None
                                                                                }
                                                                                Some((oracle_price_offset, pos10)) => {
                                                                                    match read_opt_u8(data, pos10) {
                                                                                        None => {
                                                                                            proof {
                                                                                                assert forall|v: ModifyOrderParams| !(is_prefix_at(data@, pos as int, enc_modify_order_params(v))) by {
                                                                                                    if is_prefix_at(data@, pos as int, enc_modify_order_params(v)) {
                                                                                                        lemma_modify_order_params_parts(data@, pos as int, v);
                                                                                                        assert(is_prefix_at(data@, pos as int, enc_opt_position_direction(v.direction)));
                                                                                                        assert(is_prefix_at(data@, pos1 as int, enc_opt_u64(v.base_asset_amount)));
                                                                                                        assert(is_prefix_at(data@, pos2 as int, enc_opt_u64(v.price)));
                                                                                                        assert(is_prefix_at(data@, pos3 as int, enc_opt_bool(v.reduce_only)));
                                                                                                        assert(is_prefix_at(data@, pos4 as int, enc_opt_post_only_param(v.post_only)));
                                                                                                        assert(is_prefix_at(data@, pos5 as int, enc_opt_bool(v.immediate_or_cancel)));
                                                                                                        assert(is_prefix_at(data@, pos6 as int, enc_opt_i64(v.max_ts)));
                                                                                                        assert(is_prefix_at(data@, pos7 as int, enc_opt_u64(v.trigger_price)));
                                                                                                        assert(is_prefix_at(data@, pos8 as int, enc_opt_order_trigger_condition(v.trigger_condition)));
                                                                                                        assert(is_prefix_at(data@, pos9 as int, enc_opt_i32(v.oracle_price_offset)));
                                                                                                        assert(is_prefix_at(data@, pos10 as int, enc_opt_u8(v.auction_duration)));
                                                                                                    }
                                                                                                }
                                                                                            }
                                                                                            None
                                                                                        }
                                                                                        Some((auction_duration, pos11)) => {
                                                                                            match read_opt_i64(data, pos11) {
                                                                                                None => {
                                                                                                    proof {
                                                                                                        assert forall|v: ModifyOrderParams| !(is_prefix_at(data@, pos as int, enc_modify_order_params(v))) by {
                                                                                                            if is_prefix_at(data@, pos as int, enc_modify_order_params(v)) {
                                                                                                                lemma_modify_order_params_parts(data@, pos as int, v);
                                                                                                                assert(is_prefix_at(data@, pos as int, enc_opt_position_direction(v.direction)));
                                                                                                                assert(is_prefix_at(data@, pos1 as int, enc_opt_u64(v.base_asset_amount)));
                                                                                                                assert(is_prefix_at(data@, pos2 as int, enc_opt_u64(v.price)));
                                                                                                                assert(is_prefix_at(data@, pos3 as int, enc_opt_bool(v.reduce_only)));
                                                                                                                assert(is_prefix_at(data@, pos4 as int, enc_opt_post_only_param(v.post_only)));
                                                                                                                assert(is_prefix_at(data@, pos5 as int, enc_opt_bool(v.immediate_or_cancel)));
                                                                                                                assert(is_prefix_at(data@, pos6 as int, enc_opt_i64(v.max_ts)));
                                                                                                                assert(is_prefix_at(data@, pos7 as int, enc_opt_u64(v.trigger_price)));
                                                                                                                assert(is_prefix_at(data@, pos8 as int, enc_opt_order_trigger_condition(v.trigger_condition)));
                                                                                                                assert(is_prefix_at(data@, pos9 as int, enc_opt_i32(v.oracle_price_offset)));
                                                                                                                assert(is_prefix_at(data@, pos10 as int, enc_opt_u8(v.auction_duration)));
                                                                                                                assert(is_prefix_at(data@, pos11 as int, enc_opt_i64(v.auction_start_price)));
                                                                                                            }
                                                                                                        }
                                                                                                    }
                                                                                                    None
                                                                                                }
                                                                                                Some((auction_start_price, pos12)) => {
                                                                                                    match read_opt_i64(data, pos12) {
                                                                                                        None => {
                                                                                                            proof {
                                                                                                                assert forall|v: ModifyOrderParams| !(is_prefix_at(data@, pos as int, enc_modify_order_params(v))) by {
                                                                                                                    if is_prefix_at(data@, pos as int, enc_modify_order_params(v)) {
                                                                                                                        lemma_modify_order_params_parts(data@, pos as int, v);
                                                                                                                        assert(is_prefix_at(data@, pos as int, enc_opt_position_direction(v.direction)));
                                                                                                                        assert(is_prefix_at(data@, pos1 as int, enc_opt_u64(v.base_asset_amount)));
                                                                                                                        assert(is_prefix_at(data@, pos2 as int, enc_opt_u64(v.price)));
                                                                                                                        assert(is_prefix_at(data@, pos3 as int, enc_opt_bool(v.reduce_only)));
                                                                                                                        assert(is_prefix_at(data@, pos4 as int, enc_opt_post_only_param(v.post_only)));
                                                                                                                        assert(is_prefix_at(data@, pos5 as int, enc_opt_bool(v.immediate_or_cancel)));
                                                                                                                        assert(is_prefix_at(data@, pos6 as int, enc_opt_i64(v.max_ts)));
                                                                                                                        assert(is_prefix_at(data@, pos7 as int, enc_opt_u64(v.trigger_price)));
                                                                                                                        assert(is_prefix_at(data@, pos8 as int, enc_opt_order_trigger_condition(v.trigger_condition)));
                                                                                                                        assert(is_prefix_at(data@, pos9 as int, enc_opt_i32(v.oracle_price_offset)));
                                                                                                                        assert(is_prefix_at(data@, pos10 as int, enc_opt_u8(v.auction_duration)));
                                                                                                                        assert(is_prefix_at(data@, pos11 as int, enc_opt_i64(v.auction_start_price)));
                                                                                                                        assert(is_prefix_at(data@, pos12 as int, enc_opt_i64(v.auction_end_price)));
                                                                                                                    }
                                                                                                                }
                                                                                                            }
                                                                                                            None
                                                                                                        }
                                                                                                        Some((auction_end_price, pos13)) => {
                                                                                                            match read_opt_modify_order_policy(data, pos13) {
                                                                                                                None => {
                                                                                                                    proof {
                                                                                                                        assert forall|v: ModifyOrderParams| !(is_prefix_at(data@, pos as int, enc_modify_order_params(v))) by {
                                                                                                                            if is_prefix_at(data@, pos as int, enc_modify_order_params(v)) {
                                                                                                                                lemma_modify_order_params_parts(data@, pos as int, v);
                                                                                                                                assert(is_prefix_at(data@, pos as int, enc_opt_position_direction(v.direction)));
                                                                                                                                assert(is_prefix_at(data@, pos1 as int, enc_opt_u64(v.base_asset_amount)));
                                                                                                                                assert(is_prefix_at(data@, pos2 as int, enc_opt_u64(v.price)));
                                                                                                                                assert(is_prefix_at(data@, pos3 as int, enc_opt_bool(v.reduce_only)));
                                                                                                                                assert(is_prefix_at(data@, pos4 as int, enc_opt_post_only_param(v.post_only)));
                                                                                                                                assert(is_prefix_at(data@, pos5 as int, enc_opt_bool(v.immediate_or_cancel)));
                                                                                                                                assert(is_prefix_at(data@, pos6 as int, enc_opt_i64(v.max_ts)));
                                                                                                                                assert(is_prefix_at(data@, pos7 as int, enc_opt_u64(v.trigger_price)));
                                                                                                                                assert(is_prefix_at(data@, pos8 as int, enc_opt_order_trigger_condition(v.trigger_condition)));
                                                                                                                                assert(is_prefix_at(data@, pos9 as int, enc_opt_i32(v.oracle_price_offset)));
                                                                                                                                assert(is_prefix_at(data@, pos10 as int, enc_opt_u8(v.auction_duration)));
                                                                                                                                assert(is_prefix_at(data@, pos11 as int, enc_opt_i64(v.auction_start_price)));
                                                                                                                                assert(is_prefix_at(data@, pos12 as int, enc_opt_i64(v.auction_end_price)));
                                                                                                                                assert(is_prefix_at(data@, pos13 as int, enc_opt_modify_order_policy(v.policy)));
                                                                                                                            }
                                                                                                                        }
                                                                                                                    }
                                                                                                                    None
                                                                                                                }
                                                                                                                Some((policy, pos14)) => {
                                                                                                                    let result = ModifyOrderParams { direction, base_asset_amount, price, reduce_only, post_only, immediate_or_cancel, max_ts, trigger_price, trigger_condition, oracle_price_offset, auction_duration, auction_start_price, auction_end_price, policy };
                                                                                                                    proof {
                                                                                                                        lemma_join_at(data@, pos as int, pos1 as int, pos2 as int);
                                                                                                                        lemma_join_at(data@, pos as int, pos2 as int, pos3 as int);
                                                                                                                        lemma_join_at(data@, pos as int, pos3 as int, pos4 as int);
                                                                                                                        lemma_join_at(data@, pos as int, pos4 as int, pos5 as int);
                                                                                                                        lemma_join_at(data@, pos as int, pos5 as int, pos6 as int);
                                                                                                                        lemma_join_at(data@, pos as int, pos6 as int, pos7 as int);
                                                                                                                        lemma_join_at(data@, pos as int, pos7 as int, pos8 as int);
                                                                                                                        lemma_join_at(data@, pos as int, pos8 as int, pos9 as int);
                                                                                                                        lemma_join_at(data@, pos as int, pos9 as int, pos10 as int);
                                                                                                                        lemma_join_at(data@, pos as int, pos10 as int, pos11 as int);
                                                                                                                        lemma_join_at(data@, pos as int, pos11 as int, pos12 as int);
                                                                                                                        lemma_join_at(data@, pos as int, pos12 as int, pos13 as int);
                                                                                                                        lemma_join_at(data@, pos as int, pos13 as int, pos14 as int);
                                                                                                                        assert(data@.subrange(pos as int, pos14 as int) == enc_modify_order_params(result));
                                                                                                                        assert forall|v: ModifyOrderParams| is_prefix_at(data@, pos as int, enc_modify_order_params(v))
                                                                                                                            implies (result == v && pos14 == pos + enc_modify_order_params(v).len()) by {
                                                                                                                            lemma_modify_order_params_parts(data@, pos as int, v);
                                                                                                                            assert(is_prefix_at(data@, pos as int, enc_opt_position_direction(v.direction)));
                                                                                                                            assert(is_prefix_at(data@, pos1 as int, enc_opt_u64(v.base_asset_amount)));
                                                                                                                            assert(is_prefix_at(data@, pos2 as int, enc_opt_u64(v.price)));
                                                                                                                            assert(is_prefix_at(data@, pos3 as int, enc_opt_bool(v.reduce_only)));
                                                                                                                            assert(is_prefix_at(data@, pos4 as int, enc_opt_post_only_param(v.post_only)));
                                                                                                                            assert(is_prefix_at(data@, pos5 as int, enc_opt_bool(v.immediate_or_cancel)));
                                                                                                                            assert(is_prefix_at(data@, pos6 as int, enc_opt_i64(v.max_ts)));
                                                                                                                            assert(is_prefix_at(data@, pos7 as int, enc_opt_u64(v.trigger_price)));
                                                                                                                            assert(is_prefix_at(data@, pos8 as int, enc_opt_order_trigger_condition(v.trigger_condition)));
                                                                                                                            assert(is_prefix_at(data@, pos9 as int, enc_opt_i32(v.oracle_price_offset)));
                                                                                                                            assert(is_prefix_at(data@, pos10 as int, enc_opt_u8(v.auction_duration)));
                                                                                                                            assert(is_prefix_at(data@, pos11 as int, enc_opt_i64(v.auction_start_price)));
                                                                                                                            assert(is_prefix_at(data@, pos12 as int, enc_opt_i64(v.auction_end_price)));
                                                                                                                            assert(is_prefix_at(data@, pos13 as int, enc_opt_modify_order_policy(v.policy)));
                                                                                                                        }
                                                                                                                    }
                                                                                                                    Some((result, pos14))
                                                                                                                    }
                                                                                                                }
                                                                                                            }
                                                                                                        }
                                                                                                    }
                                                                                                }
                                                                                            }
                                                                                        }
                                                                                    }
                                                                                }
                                                                            }
                                                                        }
                                                                    }
                                                                }
                                                            }
                                                        }
                                                    }
                                                }
                                            }
                                        }
                                    }
                                }
                            }
                        }
                    }
                }
            }
        }
}

#[verifier::rlimit(100)]
#[verifier::spinoff_prover]
pub fn write_modify_order_params(out: &mut Vec<u8>, p: &ModifyOrderParams)
    ensures
        final(out)@ == old(out)@ + enc_modify_order_params(*p),
{
    write_opt_position_direction(out, p.direction);
    write_opt_u64(out, p.base_asset_amount);
    proof {
        lemma_add_assoc(old(out)@, enc_opt_position_direction(p.direction), enc_opt_u64(p.base_asset_amount));
    }
    write_opt_u64(out, p.price);
    proof {
        lemma_add_assoc(old(out)@, enc_opt_position_direction(p.direction) + enc_opt_u64(p.base_asset_amount), enc_opt_u64(p.price));
    }
    write_opt_bool(out, p.reduce_only);
    proof {
        lemma_add_assoc(old(out)@, enc_opt_position_direction(p.direction) + enc_opt_u64(p.base_asset_amount) + enc_opt_u64(p.price), enc_opt_bool(p.reduce_only));
    }
    write_opt_post_only_param(out, p.post_only);
    proof {
        lemma_add_assoc(old(out)@, enc_opt_position_direction(p.direction) + enc_opt_u64(p.base_asset_amount) + enc_opt_u64(p.price) + enc_opt_bool(p.reduce_only), enc_opt_post_only_param(p.post_only));
    }
    write_opt_bool(out, p.immediate_or_cancel);
    proof {
        lemma_add_assoc(old(out)@, enc_opt_position_direction(p.direction) + enc_opt_u64(p.base_asset_amount) + enc_opt_u64(p.price) + enc_opt_bool(p.reduce_only) + enc_opt_post_only_param(p.post_only), enc_opt_bool(p.immediate_or_cancel));
    }
    write_opt_i64(out, p.max_ts);
    proof {
        lemma_add_assoc(old(out)@, enc_opt_position_direction(p.direction) + enc_opt_u64(p.base_asset_amount) + enc_opt_u64(p.price) + enc_opt_bool(p.reduce_only) + enc_opt_post_only_param(p.post_only) + enc_opt_bool(p.immediate_or_cancel), enc_opt_i64(p.max_ts));
    }
    write_opt_u64(out, p.trigger_price);
    proof {
        lemma_add_assoc(old(out)@, enc_opt_position_direction(p.direction) + enc_opt_u64(p.base_asset_amount) + enc_opt_u64(p.price) + enc_opt_bool(p.reduce_only) + enc_opt_post_only_param(p.post_only) + enc_opt_bool(p.immediate_or_cancel) + enc_opt_i64(p.max_ts), enc_opt_u64(p.trigger_price));
    }
    write_opt_order_trigger_condition(out, p.trigger_condition);
    proof {
        lemma_add_assoc(old(out)@, enc_opt_position_direction(p.direction) + enc_opt_u64(p.base_asset_amount) + enc_opt_u64(p.price) + enc_opt_bool(p.reduce_only) + enc_opt_post_only_param(p.post_only) + enc_opt_bool(p.immediate_or_cancel) + enc_opt_i64(p.max_ts) + enc_opt_u64(p.trigger_price), enc_opt_order_trigger_condition(p.trigger_condition));
    }
    write_opt_i32(out, p.oracle_price_offset);
    proof {
        lemma_add_assoc(old(out)@, enc_opt_position_direction(p.direction) + enc_opt_u64(p.base_asset_amount) + enc_opt_u64(p.price) + enc_opt_bool(p.reduce_only) + enc_opt_post_only_param(p.post_only) + enc_opt_bool(p.immediate_or_cancel) + enc_opt_i64(p.max_ts) + enc_opt_u64(p.trigger_price) + enc_opt_order_trigger_condition(p.trigger_condition), enc_opt_i32(p.oracle_price_offset));
    }
    write_opt_u8(out, p.auction_duration);
    proof {
        lemma_add_assoc(old(out)@, enc_opt_position_direction(p.direction) + enc_opt_u64(p.base_asset_amount) + enc_opt_u64(p.price) + enc_opt_bool(p.reduce_only) + enc_opt_post_only_param(p.post_only) + enc_opt_bool(p.immediate_or_cancel) + enc_opt_i64(p.max_ts) + enc_opt_u64(p.trigger_price) + enc_opt_order_trigger_condition(p.trigger_condition) + enc_opt_i32(p.oracle_price_offset), enc_opt_u8(p.auction_duration));
    }
    write_opt_i64(out, p.auction_start_price);
    proof {
        lemma_add_assoc(old(out)@, enc_opt_position_direction(p.direction) + enc_opt_u64(p.base_asset_amount) + enc_opt_u64(p.price) + enc_opt_bool(p.reduce_only) + enc_opt_post_only_param(p.post_only) + enc_opt_bool(p.immediate_or_cancel) + enc_opt_i64(p.max_ts) + enc_opt_u64(p.trigger_price) + enc_opt_order_trigger_condition(p.trigger_condition) + enc_opt_i32(p.oracle_price_offset) + enc_opt_u8(p.auction_duration), enc_opt_i64(p.auction_start_price));
    }
    write_opt_i64(out, p.auction_end_price);
    proof {
        lemma_add_assoc(old(out)@, enc_opt_position_direction(p.direction) + enc_opt_u64(p.base_asset_amount) + enc_opt_u64(p.price) + enc_opt_bool(p.reduce_only) + enc_opt_post_only_param(p.post_only) + enc_opt_bool(p.immediate_or_cancel) + enc_opt_i64(p.max_ts) + enc_opt_u64(p.trigger_price) + enc_opt_order_trigger_condition(p.trigger_condition) + enc_opt_i32(p.oracle_price_offset) + enc_opt_u8(p.auction_duration) + enc_opt_i64(p.auction_start_price), enc_opt_i64(p.auction_end_price));
    }
    write_opt_modify_order_policy(out, p.policy);
    proof {
        lemma_add_assoc(old(out)@, enc_opt_position_direction(p.direction) + enc_opt_u64(p.base_asset_amount) + enc_opt_u64(p.price) + enc_opt_bool(p.reduce_only) + enc_opt_post_only_param(p.post_only) + enc_opt_bool(p.immediate_or_cancel) + enc_opt_i64(p.max_ts) + enc_opt_u64(p.trigger_price) + enc_opt_order_trigger_condition(p.trigger_condition) + enc_opt_i32(p.oracle_price_offset) + enc_opt_u8(p.auction_duration) + enc_opt_i64(p.auction_start_price) + enc_opt_i64(p.auction_end_price), enc_opt_modify_order_policy(p.policy));
    }
    proof {
        assert(out@ == old(out)@ + enc_modify_order_params(*p));
    }
}

pub open spec fn enc_order_params_elems(s: Seq<OrderParams>) -> Seq<u8>
    decreases s.len(),
{
    if s.len() == 0 {
        Seq::empty()
    } else {
        enc_order_params(s[0]) + enc_order_params_elems(s.subrange(1, s.len() as int))
    }
}

pub proof fn lemma_enc_order_params_elems_snoc(s: Seq<OrderParams>, x: OrderParams)
    ensures
        enc_order_params_elems(s.push(x)) == enc_order_params_elems(s) + enc_order_params(x),
    decreases s.len(),
{
    let sp = s.push(x);
    if s.len() == 0 {
        assert(sp[0] == x);
        assert(sp.subrange(1, sp.len() as int) =~= Seq::<OrderParams>::empty());
        assert(enc_order_params_elems(Seq::<OrderParams>::empty()) == Seq::<u8>::empty());
        assert(enc_order_params_elems(sp) == enc_order_params(x) + Seq::<u8>::empty());
        assert(enc_order_params(x) + Seq::<u8>::empty() =~= Seq::<u8>::empty() + enc_order_params(x));
    } else {
        assert(sp[0] == s[0]);
        assert(sp.subrange(1, sp.len() as int) =~= s.subrange(1, s.len() as int).push(x));
        lemma_enc_order_params_elems_snoc(s.subrange(1, s.len() as int), x);
        assert(enc_order_params_elems(sp) == enc_order_params(s[0]) + (enc_order_params_elems(s.subrange(1, s.len() as int)) + enc_order_params(x)));
        assert(enc_order_params(s[0]) + (enc_order_params_elems(s.subrange(1, s.len() as int)) + enc_order_params(x))
            =~= (enc_order_params(s[0]) + enc_order_params_elems(s.subrange(1, s.len() as int))) + enc_order_params(x));
    }
}

pub open spec fn enc_vec_order_params(s: Seq<OrderParams>) -> Seq<u8> {
    enc_u32(s.len() as u32) + enc_order_params_elems(s)
}

pub fn read_vec_order_params(data: &[u8], pos: usize) -> (r: Option<(Vec<OrderParams>, usize)>)
    ensures
        r matches Some(p) ==> pos <= p.1 <= data@.len()
            && data@.subrange(pos as int, p.1 as int) == enc_vec_order_params(p.0@)
            && p.1 == pos + enc_vec_order_params(p.0@).len()
            && p.0@.len() <= u32::MAX,
        forall|s: Seq<OrderParams>| s.len() <= u32::MAX && is_prefix_at(data@, pos as int, enc_vec_order_params(s))
            ==> (r matches Some(p) && p.0@ == s && p.1 == pos + enc_vec_order_params(s).len()),
{
    proof {
        lemma_enc_lens();
        assert forall|s: Seq<OrderParams>| s.len() <= u32::MAX && is_prefix_at(data@, pos as int, enc_vec_order_params(s)) implies (
            is_prefix_at(data@, pos as int, enc_u32(s.len() as u32))
            && is_prefix_at(data@, pos as int + 4, enc_order_params_elems(s))
        ) by {
            lemma_split_prefix(data@, pos as int, enc_u32(s.len() as u32), enc_order_params_elems(s));
        }
    }
    match read_u32(data, pos) {
        None => {
            proof {
                assert forall|s: Seq<OrderParams>| !(s.len() <= u32::MAX && is_prefix_at(data@, pos as int, enc_vec_order_params(s))) by {
                    if s.len() <= u32::MAX && is_prefix_at(data@, pos as int, enc_vec_order_params(s)) {
                        assert(is_prefix_at(data@, pos as int, enc_u32(s.len() as u32)));
                    }
                }
            }
            None
        }
        Some((count, start)) => {
            let mut acc: Vec<OrderParams> = Vec::new();
            let mut cur: usize = start;
            let mut k: u32 = 0;
            proof {
                assert(enc_order_params_elems(acc@) =~= Seq::<u8>::empty());
                assert(data@.subrange(start as int, cur as int) =~= enc_order_params_elems(acc@));
                assert forall|s: Seq<OrderParams>| s.len() <= u32::MAX && is_prefix_at(data@, pos as int, enc_vec_order_params(s)) implies (
                    s.len() == count && acc@ == s.take(0)
                    && is_prefix_at(data@, cur as int, enc_order_params_elems(s.skip(0)))
                ) by {
                    assert(is_prefix_at(data@, pos as int, enc_u32(s.len() as u32)));
                    assert(s.skip(0) =~= s);
                    assert(acc@ =~= s.take(0));
                }
            }
            while k < count
                invariant
                    k <= count,
                    pos + 4 == start,
                    start <= cur <= data@.len(),
                    acc@.len() == k,
                    data@.subrange(start as int, cur as int) == enc_order_params_elems(acc@),
                    cur == start + enc_order_params_elems(acc@).len(),
                    forall|s: Seq<OrderParams>| s.len() <= u32::MAX && is_prefix_at(data@, pos as int, enc_vec_order_params(s))
                        ==> s.len() == count && acc@ == s.take(k as int)
                            && is_prefix_at(data@, cur as int, enc_order_params_elems(s.skip(k as int))),
                decreases count - k,
            {
                match read_order_params(data, cur) {
                    None => {
                        proof {
                            assert forall|s: Seq<OrderParams>| !(s.len() <= u32::MAX && is_prefix_at(data@, pos as int, enc_vec_order_params(s))) by {
                                if s.len() <= u32::MAX && is_prefix_at(data@, pos as int, enc_vec_order_params(s)) {
                                    let rest = s.skip(k as int);
                                    assert(rest[0] == s[k as int]);
                                    assert(rest.subrange(1, rest.len() as int) =~= s.skip(k as int + 1));
                                    assert(enc_order_params_elems(rest) == enc_order_params(rest[0]) + enc_order_params_elems(s.skip(k as int + 1)));
                                    lemma_split_prefix(data@, cur as int, enc_order_params(s[k as int]), enc_order_params_elems(s.skip(k as int + 1)));
                                    assert(is_prefix_at(data@, cur as int, enc_order_params(s[k as int])));
                                }
                            }
                        }
                        return None;
                    }
                    Some((x, next)) => {
                        proof {
                            lemma_enc_order_params_elems_snoc(acc@, x);
                            lemma_join_at(data@, start as int, cur as int, next as int);
                            assert forall|s: Seq<OrderParams>| s.len() <= u32::MAX && is_prefix_at(data@, pos as int, enc_vec_order_params(s)) implies (
                                acc@.push(x) == s.take(k as int + 1)
                                && is_prefix_at(data@, next as int, enc_order_params_elems(s.skip(k as int + 1)))
                            ) by {
                                let rest = s.skip(k as int);
                                assert(rest[0] == s[k as int]);
                                assert(rest.subrange(1, rest.len() as int) =~= s.skip(k as int + 1));
                                assert(enc_order_params_elems(rest) == enc_order_params(rest[0]) + enc_order_params_elems(s.skip(k as int + 1)));
                                lemma_split_prefix(data@, cur as int, enc_order_params(s[k as int]), enc_order_params_elems(s.skip(k as int + 1)));
                                assert(is_prefix_at(data@, cur as int, enc_order_params(s[k as int])));
                                assert(acc@.push(x) =~= s.take(k as int + 1));
                            }
                        }
                        acc.push(x);
                        cur = next;
                        k = k + 1;
                    }
                }
            }
            proof {
                lemma_join_at(data@, pos as int, start as int, cur as int);
                assert(acc@.len() as u32 == count);
                assert(data@.subrange(pos as int, cur as int) == enc_vec_order_params(acc@));
                assert forall|s: Seq<OrderParams>| s.len() <= u32::MAX && is_prefix_at(data@, pos as int, enc_vec_order_params(s))
                    implies (acc@ == s && cur == pos + enc_vec_order_params(s).len()) by {
                    assert(s.take(s.len() as int) =~= s);
                }
            }
            Some((acc, cur))
        }
    }
}

pub fn write_vec_order_params(out: &mut Vec<u8>, v: &Vec<OrderParams>)
    requires
        v@.len() <= u32::MAX,
    ensures
        final(out)@ == old(out)@ + enc_vec_order_params(v@),
{
    write_u32(out, v.len() as u32);
    let mut idx: usize = 0;
    while idx < v.len()
        invariant
            idx <= v@.len(),
            v@.len() <= u32::MAX,
            out@ == old(out)@ + enc_u32(v@.len() as u32) + enc_order_params_elems(v@.take(idx as int)),
        decreases v@.len() - idx,
    {
        write_order_params(out, &v[idx]);
        proof {
            lemma_enc_order_params_elems_snoc(v@.take(idx as int), v@[idx as int]);
            assert(v@.take(idx as int + 1) =~= v@.take(idx as int).push(v@[idx as int]));
        }
        idx = idx + 1;
    }
    proof {
        assert(v@.take(v@.len() as int) =~= v@);
        assert(out@ =~= old(out)@ + enc_vec_order_params(v@));
    }
}

} // verus!
