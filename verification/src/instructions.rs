//! The instruction catalog: the 8-byte discriminator of every variant,
//! the decoder that dispatches a raw buffer against the catalog, and the
//! serializer that inverts it.

use vstd::prelude::*;
use vstd::bytes::{lemma_auto_spec_u64_to_from_le_bytes, spec_u64_from_le_bytes};
use crate::DecodeError;
use crate::wire::{
    enc_u64, is_prefix_at, lemma_enc_lens, lemma_join_at, lemma_prefix_whole,
    lemma_split_prefix, read_u64, write_u64,
};
use crate::payloads::{
    AddInsuranceFundStake, AddPerpLpShares, BeginSwap, CancelOrder, CancelOrderByUserId,
    CancelOrders, CancelOrdersByIds, CancelRequestRemoveInsuranceFundStake, DeleteUser,
    Deposit, DepositIntoSpotMarketRevenuePool, EndSwap, FillPerpOrder, FillSpotOrder,
    InitializeInsuranceFundStake, InitializeReferrerName, InitializeUser,
    InitializeUserStats, LiquidatePerp, ModifyOrder, PlaceAndMakePerpOrder,
    PlaceAndTakePerpOrder, PlaceOrders, PlacePerpOrder, PlaceSpotOrder, ReclaimRent,
    RemoveInsuranceFundStake, RemovePerpLpShares, RequestRemoveInsuranceFundStake,
    RevertFill, SettleFundingPayment, SettleLp, SettleMultiplePnls, SettlePnl,
    SettleRevenueToInsuranceFund, TransferDeposit, TriggerOrder, UpdateAmms,
    UpdateFundingRate, UpdatePerpBidAskTwap, UpdatePrelaunchOracle,
    UpdateUserCustomMarginRatio, UpdateUserIdle, UpdateUserMarginTradingEnabled, Withdraw,
    enc_add_insurance_fund_stake, enc_add_perp_lp_shares, enc_begin_swap, enc_cancel_order,
    enc_cancel_order_by_user_id, enc_cancel_orders, enc_cancel_orders_by_ids,
    enc_cancel_request_remove_insurance_fund_stake, enc_deposit,
    enc_deposit_into_spot_market_revenue_pool, enc_end_swap, enc_fill_perp_order,
    enc_fill_spot_order, enc_initialize_insurance_fund_stake, enc_initialize_referrer_name,
    enc_initialize_user, enc_liquidate_perp, enc_modify_order,
    enc_place_and_make_perp_order, enc_place_and_take_perp_order, enc_place_orders,
    enc_place_perp_order, enc_place_spot_order, enc_remove_insurance_fund_stake,
    enc_remove_perp_lp_shares, enc_request_remove_insurance_fund_stake, enc_settle_lp,
    enc_settle_multiple_pnls, enc_settle_pnl, enc_settle_revenue_to_insurance_fund,
    enc_transfer_deposit, enc_trigger_order, enc_update_amms, enc_update_funding_rate,
    enc_update_user_custom_margin_ratio, enc_update_user_margin_trading_enabled,
    enc_withdraw, read_add_insurance_fund_stake, read_add_perp_lp_shares, read_begin_swap,
    read_cancel_order, read_cancel_order_by_user_id, read_cancel_orders,
    read_cancel_orders_by_ids, read_cancel_request_remove_insurance_fund_stake,
    read_deposit, read_deposit_into_spot_market_revenue_pool, read_end_swap,
    read_fill_perp_order, read_fill_spot_order, read_initialize_insurance_fund_stake,
    read_initialize_referrer_name, read_initialize_user, read_liquidate_perp,
    read_modify_order, read_place_and_make_perp_order, read_place_and_take_perp_order,
    read_place_orders, read_place_perp_order, read_place_spot_order,
    read_remove_insurance_fund_stake, read_remove_perp_lp_shares,
    read_request_remove_insurance_fund_stake, read_settle_lp, read_settle_multiple_pnls,
    read_settle_pnl, read_settle_revenue_to_insurance_fund, read_transfer_deposit,
    read_trigger_order, read_update_amms, read_update_funding_rate,
    read_update_user_custom_margin_ratio, read_update_user_margin_trading_enabled,
    read_withdraw, write_add_insurance_fund_stake, write_add_perp_lp_shares,
    write_begin_swap, write_cancel_order, write_cancel_order_by_user_id,
    write_cancel_orders, write_cancel_orders_by_ids,
    write_cancel_request_remove_insurance_fund_stake, write_deposit,
    write_deposit_into_spot_market_revenue_pool, write_end_swap, write_fill_perp_order,
    write_fill_spot_order, write_initialize_insurance_fund_stake,
    write_initialize_referrer_name, write_initialize_user, write_liquidate_perp,
    write_modify_order, write_place_and_make_perp_order, write_place_and_take_perp_order,
    write_place_orders, write_place_perp_order, write_place_spot_order,
    write_remove_insurance_fund_stake, write_remove_perp_lp_shares,
    write_request_remove_insurance_fund_stake, write_settle_lp, write_settle_multiple_pnls,
    write_settle_pnl, write_settle_revenue_to_insurance_fund, write_transfer_deposit,
    write_trigger_order, write_update_amms, write_update_funding_rate,
    write_update_user_custom_margin_ratio, write_update_user_margin_trading_enabled,
    write_withdraw,
};

verus! {

/// Discriminator bytes [111, 17, 185, 250, 60, 122, 38, 254], read little-endian.
pub const INITIALIZE_USER_TAG: u64 = 0xfe267a3cfab9116f;

/// Discriminator bytes [254, 243, 72, 98, 251, 130, 168, 213], read little-endian.
pub const INITIALIZE_USER_STATS_TAG: u64 = 0xd5a882fb6248f3fe;

/// Discriminator bytes [235, 126, 231, 10, 42, 164, 26, 61], read little-endian.
pub const INITIALIZE_REFERRER_NAME_TAG: u64 = 0x3d1aa42a0ae77eeb;

/// Discriminator bytes [242, 35, 198, 137, 82, 225, 242, 182], read little-endian.
pub const DEPOSIT_TAG: u64 = 0xb6f2e15289c623f2;

/// Discriminator bytes [183, 18, 70, 156, 148, 109, 161, 34], read little-endian.
pub const WITHDRAW_TAG: u64 = 0x22a16d949c4612b7;

/// Discriminator bytes [20, 20, 147, 223, 41, 63, 204, 111], read little-endian.
pub const TRANSFER_DEPOSIT_TAG: u64 = 0x6fcc3f29df931414;

/// Discriminator bytes [69, 161, 93, 202, 120, 126, 76, 185], read little-endian.
pub const PLACE_PERP_ORDER_TAG: u64 = 0xb94c7e78ca5da145;

/// Discriminator bytes [95, 129, 237, 240, 8, 49, 223, 132], read little-endian.
pub const CANCEL_ORDER_TAG: u64 = 0x84df3108f0ed815f;

/// Discriminator bytes [107, 211, 250, 133, 18, 37, 57, 100], read little-endian.
pub const CANCEL_ORDER_BY_USER_ID_TAG: u64 = 0x6439251285fad36b;

/// Discriminator bytes [238, 225, 95, 158, 227, 103, 8, 194], read little-endian.
pub const CANCEL_ORDERS_TAG: u64 = 0xc20867e39e5fe1ee;

/// Discriminator bytes [134, 19, 144, 165, 94, 240, 210, 94], read little-endian.
pub const CANCEL_ORDERS_BY_IDS_TAG: u64 = 0x5ed2f05ea5901386;

/// Discriminator bytes [47, 124, 117, 255, 201, 197, 130, 94], read little-endian.
pub const MODIFY_ORDER_TAG: u64 = 0x5e82c5c9ff757c2f;

/// Discriminator bytes [213, 51, 1, 187, 108, 220, 230, 224], read little-endian.
pub const PLACE_AND_TAKE_PERP_ORDER_TAG: u64 = 0xe0e6dc6cbb0133d5;

/// Discriminator bytes [149, 117, 11, 237, 47, 95, 89, 237], read little-endian.
pub const PLACE_AND_MAKE_PERP_ORDER_TAG: u64 = 0xed595f2fed0b7595;

/// Discriminator bytes [45, 79, 81, 160, 248, 90, 91, 220], read little-endian.
pub const PLACE_SPOT_ORDER_TAG: u64 = 0xdc5b5af8a0514f2d;

/// Discriminator bytes [60, 63, 50, 123, 12, 197, 60, 190], read little-endian.
pub const PLACE_ORDERS_TAG: u64 = 0xbe3cc50c7b323f3c;

/// Discriminator bytes [174, 109, 228, 1, 242, 105, 232, 105], read little-endian.
pub const BEGIN_SWAP_TAG: u64 = 0x69e869f201e46dae;

/// Discriminator bytes [177, 184, 27, 193, 34, 13, 210, 145], read little-endian.
pub const END_SWAP_TAG: u64 = 0x91d20d22c11bb8b1;

/// Discriminator bytes [56, 209, 56, 197, 119, 254, 188, 117], read little-endian.
pub const ADD_PERP_LP_SHARES_TAG: u64 = 0x75bcfe77c538d138;

/// Discriminator bytes [213, 89, 217, 18, 160, 55, 53, 141], read little-endian.
pub const REMOVE_PERP_LP_SHARES_TAG: u64 = 0x8d3537a012d959d5;

/// Discriminator bytes [21, 221, 140, 187, 32, 129, 11, 123], read little-endian.
pub const UPDATE_USER_CUSTOM_MARGIN_RATIO_TAG: u64 = 0x7b0b8120bb8cdd15;

/// Discriminator bytes [194, 92, 204, 223, 246, 188, 31, 203], read little-endian.
pub const UPDATE_USER_MARGIN_TRADING_ENABLED_TAG: u64 = 0xcb1fbcf6dfcc5cc2;

/// Discriminator bytes [186, 85, 17, 249, 219, 231, 98, 251], read little-endian.
pub const DELETE_USER_TAG: u64 = 0xfb62e7dbf91155ba;

/// Discriminator bytes [218, 200, 19, 197, 227, 89, 192, 22], read little-endian.
pub const RECLAIM_RENT_TAG: u64 = 0x16c059e3c513c8da;

/// Discriminator bytes [13, 188, 248, 103, 134, 217, 106, 240], read little-endian.
pub const FILL_PERP_ORDER_TAG: u64 = 0xf06ad98667f8bc0d;

/// Discriminator bytes [236, 238, 176, 69, 239, 10, 181, 193], read little-endian.
pub const REVERT_FILL_TAG: u64 = 0xc1b50aef45b0eeec;

/// Discriminator bytes [212, 206, 130, 173, 21, 34, 199, 40], read little-endian.
pub const FILL_SPOT_ORDER_TAG: u64 = 0x28c72215ad82ced4;

/// Discriminator bytes [63, 112, 51, 233, 232, 47, 240, 199], read little-endian.
pub const TRIGGER_ORDER_TAG: u64 = 0xc7f02fe8e933703f;

/// Discriminator bytes [253, 133, 67, 22, 103, 161, 20, 100], read little-endian.
pub const UPDATE_USER_IDLE_TAG: u64 = 0x6414a167164385fd;

/// Discriminator bytes [43, 61, 234, 45, 15, 95, 152, 153], read little-endian.
pub const SETTLE_PNL_TAG: u64 = 0x99985f0f2dea3d2b;

/// Discriminator bytes [127, 66, 117, 57, 40, 50, 152, 127], read little-endian.
pub const SETTLE_MULTIPLE_PNLS_TAG: u64 = 0x7f9832283975427f;

/// Discriminator bytes [222, 90, 202, 94, 28, 45, 115, 183], read little-endian.
pub const SETTLE_FUNDING_PAYMENT_TAG: u64 = 0xb7732d1c5eca5ade;

/// Discriminator bytes [155, 231, 116, 113, 97, 229, 139, 141], read little-endian.
pub const SETTLE_LP_TAG: u64 = 0x8d8be5617174e79b;

/// Discriminator bytes [75, 35, 119, 247, 191, 18, 139, 2], read little-endian.
pub const LIQUIDATE_PERP_TAG: u64 = 0x028b12bff777234b;

/// Discriminator bytes [200, 120, 93, 136, 69, 38, 199, 159], read little-endian.
pub const SETTLE_REVENUE_TO_INSURANCE_FUND_TAG: u64 = 0x9fc72645885d78c8;

/// Discriminator bytes [201, 178, 116, 212, 166, 144, 72, 238], read little-endian.
pub const UPDATE_FUNDING_RATE_TAG: u64 = 0xee4890a6d474b2c9;

/// Discriminator bytes [220, 132, 27, 27, 233, 220, 61, 219], read little-endian.
pub const UPDATE_PRELAUNCH_ORACLE_TAG: u64 = 0xdb3ddce91b1b84dc;

/// Discriminator bytes [247, 23, 255, 65, 212, 90, 221, 194], read little-endian.
pub const UPDATE_PERP_BID_ASK_TWAP_TAG: u64 = 0xc2dd5ad441ff17f7;

/// Discriminator bytes [201, 106, 217, 253, 4, 175, 228, 97], read little-endian.
pub const UPDATE_AMMS_TAG: u64 = 0x61e4af04fdd96ac9;

/// Discriminator bytes [187, 179, 243, 70, 248, 90, 92, 147], read little-endian.
pub const INITIALIZE_INSURANCE_FUND_STAKE_TAG: u64 = 0x935c5af846f3b3bb;

/// Discriminator bytes [251, 144, 115, 11, 222, 47, 62, 236], read little-endian.
pub const ADD_INSURANCE_FUND_STAKE_TAG: u64 = 0xec3e2fde0b7390fb;

/// Discriminator bytes [142, 70, 204, 92, 73, 106, 180, 52], read little-endian.
pub const REQUEST_REMOVE_INSURANCE_FUND_STAKE_TAG: u64 = 0x34b46a495ccc468e;

/// Discriminator bytes [97, 235, 78, 62, 212, 42, 241, 127], read little-endian.
pub const CANCEL_REQUEST_REMOVE_INSURANCE_FUND_STAKE_TAG: u64 = 0x7ff12ad43e4eeb61;

/// Discriminator bytes [128, 166, 142, 9, 254, 187, 143, 174], read little-endian.
pub const REMOVE_INSURANCE_FUND_STAKE_TAG: u64 = 0xae8fbbfe098ea680;

/// Discriminator bytes [92, 40, 151, 42, 122, 254, 139, 246], read little-endian.
pub const DEPOSIT_INTO_SPOT_MARKET_REVENUE_POOL_TAG: u64 = 0xf68bfe7a2a97285c;

/// One decoded Drift v2 instruction: the tagged union over every
/// cataloged variant.  A tag outside the catalog never maps to a value
/// of this type.
#[derive(Clone, Debug, PartialEq)]
pub enum DriftV2Instruction {
    InitializeUser(InitializeUser),
    InitializeUserStats,
    InitializeReferrerName(InitializeReferrerName),
    Deposit(Deposit),
    Withdraw(Withdraw),
    TransferDeposit(TransferDeposit),
    PlacePerpOrder(PlacePerpOrder),
    CancelOrder(CancelOrder),
    CancelOrderByUserId(CancelOrderByUserId),
    CancelOrders(CancelOrders),
    CancelOrdersByIds(CancelOrdersByIds),
    ModifyOrder(ModifyOrder),
    PlaceAndTakePerpOrder(PlaceAndTakePerpOrder),
    PlaceAndMakePerpOrder(PlaceAndMakePerpOrder),
    PlaceSpotOrder(PlaceSpotOrder),
    PlaceOrders(PlaceOrders),
    BeginSwap(BeginSwap),
    EndSwap(EndSwap),
    AddPerpLpShares(AddPerpLpShares),
    RemovePerpLpShares(RemovePerpLpShares),
    UpdateUserCustomMarginRatio(UpdateUserCustomMarginRatio),
    UpdateUserMarginTradingEnabled(UpdateUserMarginTradingEnabled),
    DeleteUser,
    ReclaimRent,
    FillPerpOrder(FillPerpOrder),
    RevertFill,
    FillSpotOrder(FillSpotOrder),
    TriggerOrder(TriggerOrder),
    UpdateUserIdle,
    SettlePnl(SettlePnl),
    SettleMultiplePnls(SettleMultiplePnls),
    SettleFundingPayment,
    SettleLp(SettleLp),
    LiquidatePerp(LiquidatePerp),
    SettleRevenueToInsuranceFund(SettleRevenueToInsuranceFund),
    UpdateFundingRate(UpdateFundingRate),
    UpdatePrelaunchOracle,
    UpdatePerpBidAskTwap,
    UpdateAmms(UpdateAmms),
    InitializeInsuranceFundStake(InitializeInsuranceFundStake),
    AddInsuranceFundStake(AddInsuranceFundStake),
    RequestRemoveInsuranceFundStake(RequestRemoveInsuranceFundStake),
    CancelRequestRemoveInsuranceFundStake(CancelRequestRemoveInsuranceFundStake),
    RemoveInsuranceFundStake(RemoveInsuranceFundStake),
    DepositIntoSpotMarketRevenuePool(DepositIntoSpotMarketRevenuePool),
}

pub open spec fn tag_of(i: DriftV2Instruction) -> u64 {
    match i {
        DriftV2Instruction::InitializeUser(_) => INITIALIZE_USER_TAG,
        DriftV2Instruction::InitializeUserStats => INITIALIZE_USER_STATS_TAG,
        DriftV2Instruction::InitializeReferrerName(_) => INITIALIZE_REFERRER_NAME_TAG,
        DriftV2Instruction::Deposit(_) => DEPOSIT_TAG,
        DriftV2Instruction::Withdraw(_) => WITHDRAW_TAG,
        DriftV2Instruction::TransferDeposit(_) => TRANSFER_DEPOSIT_TAG,
        DriftV2Instruction::PlacePerpOrder(_) => PLACE_PERP_ORDER_TAG,
        DriftV2Instruction::CancelOrder(_) => CANCEL_ORDER_TAG,
        DriftV2Instruction::CancelOrderByUserId(_) => CANCEL_ORDER_BY_USER_ID_TAG,
        DriftV2Instruction::CancelOrders(_) => CANCEL_ORDERS_TAG,
        DriftV2Instruction::CancelOrdersByIds(_) => CANCEL_ORDERS_BY_IDS_TAG,
        DriftV2Instruction::ModifyOrder(_) => MODIFY_ORDER_TAG,
        DriftV2Instruction::PlaceAndTakePerpOrder(_) => PLACE_AND_TAKE_PERP_ORDER_TAG,
        DriftV2Instruction::PlaceAndMakePerpOrder(_) => PLACE_AND_MAKE_PERP_ORDER_TAG,
        DriftV2Instruction::PlaceSpotOrder(_) => PLACE_SPOT_ORDER_TAG,
        DriftV2Instruction::PlaceOrders(_) => PLACE_ORDERS_TAG,
        DriftV2Instruction::BeginSwap(_) => BEGIN_SWAP_TAG,
        DriftV2Instruction::EndSwap(_) => END_SWAP_TAG,
        DriftV2Instruction::AddPerpLpShares(_) => ADD_PERP_LP_SHARES_TAG,
        DriftV2Instruction::RemovePerpLpShares(_) => REMOVE_PERP_LP_SHARES_TAG,
        DriftV2Instruction::UpdateUserCustomMarginRatio(_) => UPDATE_USER_CUSTOM_MARGIN_RATIO_TAG,
        DriftV2Instruction::UpdateUserMarginTradingEnabled(_) => UPDATE_USER_MARGIN_TRADING_ENABLED_TAG,
        DriftV2Instruction::DeleteUser => DELETE_USER_TAG,
        DriftV2Instruction::ReclaimRent => RECLAIM_RENT_TAG,
        DriftV2Instruction::FillPerpOrder(_) => FILL_PERP_ORDER_TAG,
        DriftV2Instruction::RevertFill => REVERT_FILL_TAG,
        DriftV2Instruction::FillSpotOrder(_) => FILL_SPOT_ORDER_TAG,
        DriftV2Instruction::TriggerOrder(_) => TRIGGER_ORDER_TAG,
        DriftV2Instruction::UpdateUserIdle => UPDATE_USER_IDLE_TAG,
        DriftV2Instruction::SettlePnl(_) => SETTLE_PNL_TAG,
        DriftV2Instruction::SettleMultiplePnls(_) => SETTLE_MULTIPLE_PNLS_TAG,
        DriftV2Instruction::SettleFundingPayment => SETTLE_FUNDING_PAYMENT_TAG,
        DriftV2Instruction::SettleLp(_) => SETTLE_LP_TAG,
        DriftV2Instruction::LiquidatePerp(_) => LIQUIDATE_PERP_TAG,
        DriftV2Instruction::SettleRevenueToInsuranceFund(_) => SETTLE_REVENUE_TO_INSURANCE_FUND_TAG,
        DriftV2Instruction::UpdateFundingRate(_) => UPDATE_FUNDING_RATE_TAG,
        DriftV2Instruction::UpdatePrelaunchOracle => UPDATE_PRELAUNCH_ORACLE_TAG,
        DriftV2Instruction::UpdatePerpBidAskTwap => UPDATE_PERP_BID_ASK_TWAP_TAG,
        DriftV2Instruction::UpdateAmms(_) => UPDATE_AMMS_TAG,
        DriftV2Instruction::InitializeInsuranceFundStake(_) => INITIALIZE_INSURANCE_FUND_STAKE_TAG,
        DriftV2Instruction::AddInsuranceFundStake(_) => ADD_INSURANCE_FUND_STAKE_TAG,
        DriftV2Instruction::RequestRemoveInsuranceFundStake(_) => REQUEST_REMOVE_INSURANCE_FUND_STAKE_TAG,
        DriftV2Instruction::CancelRequestRemoveInsuranceFundStake(_) => CANCEL_REQUEST_REMOVE_INSURANCE_FUND_STAKE_TAG,
        DriftV2Instruction::RemoveInsuranceFundStake(_) => REMOVE_INSURANCE_FUND_STAKE_TAG,
        DriftV2Instruction::DepositIntoSpotMarketRevenuePool(_) => DEPOSIT_INTO_SPOT_MARKET_REVENUE_POOL_TAG,
    }
}

pub open spec fn payload_enc(i: DriftV2Instruction) -> Seq<u8> {
    match i {
        DriftV2Instruction::InitializeUser(p) => enc_initialize_user(p),
        DriftV2Instruction::InitializeUserStats => Seq::empty(),
        DriftV2Instruction::InitializeReferrerName(p) => enc_initialize_referrer_name(p),
        DriftV2Instruction::Deposit(p) => enc_deposit(p),
        DriftV2Instruction::Withdraw(p) => enc_withdraw(p),
        DriftV2Instruction::TransferDeposit(p) => enc_transfer_deposit(p),
        DriftV2Instruction::PlacePerpOrder(p) => enc_place_perp_order(p),
        DriftV2Instruction::CancelOrder(p) => enc_cancel_order(p),
        DriftV2Instruction::CancelOrderByUserId(p) => enc_cancel_order_by_user_id(p),
        DriftV2Instruction::CancelOrders(p) => enc_cancel_orders(p),
        DriftV2Instruction::CancelOrdersByIds(p) => enc_cancel_orders_by_ids(p),
        DriftV2Instruction::ModifyOrder(p) => enc_modify_order(p),
        DriftV2Instruction::PlaceAndTakePerpOrder(p) => enc_place_and_take_perp_order(p),
        DriftV2Instruction::PlaceAndMakePerpOrder(p) => enc_place_and_make_perp_order(p),
        DriftV2Instruction::PlaceSpotOrder(p) => enc_place_spot_order(p),
        DriftV2Instruction::PlaceOrders(p) => enc_place_orders(p),
        DriftV2Instruction::BeginSwap(p) => enc_begin_swap(p),
        DriftV2Instruction::EndSwap(p) => enc_end_swap(p),
        DriftV2Instruction::AddPerpLpShares(p) => enc_add_perp_lp_shares(p),
        DriftV2Instruction::RemovePerpLpShares(p) => enc_remove_perp_lp_shares(p),
        DriftV2Instruction::UpdateUserCustomMarginRatio(p) => enc_update_user_custom_margin_ratio(p),
        DriftV2Instruction::UpdateUserMarginTradingEnabled(p) => enc_update_user_margin_trading_enabled(p),
        DriftV2Instruction::DeleteUser => Seq::empty(),
        DriftV2Instruction::ReclaimRent => Seq::empty(),
        DriftV2Instruction::FillPerpOrder(p) => enc_fill_perp_order(p),
        DriftV2Instruction::RevertFill => Seq::empty(),
        DriftV2Instruction::FillSpotOrder(p) => enc_fill_spot_order(p),
        DriftV2Instruction::TriggerOrder(p) => enc_trigger_order(p),
        DriftV2Instruction::UpdateUserIdle => Seq::empty(),
        DriftV2Instruction::SettlePnl(p) => enc_settle_pnl(p),
        DriftV2Instruction::SettleMultiplePnls(p) => enc_settle_multiple_pnls(p),
        DriftV2Instruction::SettleFundingPayment => Seq::empty(),
        DriftV2Instruction::SettleLp(p) => enc_settle_lp(p),
        DriftV2Instruction::LiquidatePerp(p) => enc_liquidate_perp(p),
        DriftV2Instruction::SettleRevenueToInsuranceFund(p) => enc_settle_revenue_to_insurance_fund(p),
        DriftV2Instruction::UpdateFundingRate(p) => enc_update_funding_rate(p),
        DriftV2Instruction::UpdatePrelaunchOracle => Seq::empty(),
        DriftV2Instruction::UpdatePerpBidAskTwap => Seq::empty(),
        DriftV2Instruction::UpdateAmms(p) => enc_update_amms(p),
        DriftV2Instruction::InitializeInsuranceFundStake(p) => enc_initialize_insurance_fund_stake(p),
        DriftV2Instruction::AddInsuranceFundStake(p) => enc_add_insurance_fund_stake(p),
        DriftV2Instruction::RequestRemoveInsuranceFundStake(p) => enc_request_remove_insurance_fund_stake(p),
        DriftV2Instruction::CancelRequestRemoveInsuranceFundStake(p) => enc_cancel_request_remove_insurance_fund_stake(p),
        DriftV2Instruction::RemoveInsuranceFundStake(p) => enc_remove_insurance_fund_stake(p),
        DriftV2Instruction::DepositIntoSpotMarketRevenuePool(p) => enc_deposit_into_spot_market_revenue_pool(p),
    }
}

/// The exact wire bytes of an instruction: its 8-byte tag followed by
/// the encoding of its payload.
pub open spec fn encoding_of(i: DriftV2Instruction) -> Seq<u8> {
    enc_u64(tag_of(i)) + payload_enc(i)
}

/// The tag stands in the catalog.
pub open spec fn known_tag(t: u64) -> bool {
    ||| t == INITIALIZE_USER_TAG
    ||| t == INITIALIZE_USER_STATS_TAG
    ||| t == INITIALIZE_REFERRER_NAME_TAG
    ||| t == DEPOSIT_TAG
    ||| t == WITHDRAW_TAG
    ||| t == TRANSFER_DEPOSIT_TAG
    ||| t == PLACE_PERP_ORDER_TAG
    ||| t == CANCEL_ORDER_TAG
    ||| t == CANCEL_ORDER_BY_USER_ID_TAG
    ||| t == CANCEL_ORDERS_TAG
    ||| t == CANCEL_ORDERS_BY_IDS_TAG
    ||| t == MODIFY_ORDER_TAG
    ||| t == PLACE_AND_TAKE_PERP_ORDER_TAG
    ||| t == PLACE_AND_MAKE_PERP_ORDER_TAG
    ||| t == PLACE_SPOT_ORDER_TAG
    ||| t == PLACE_ORDERS_TAG
    ||| t == BEGIN_SWAP_TAG
    ||| t == END_SWAP_TAG
    ||| t == ADD_PERP_LP_SHARES_TAG
    ||| t == REMOVE_PERP_LP_SHARES_TAG
    ||| t == UPDATE_USER_CUSTOM_MARGIN_RATIO_TAG
    ||| t == UPDATE_USER_MARGIN_TRADING_ENABLED_TAG
    ||| t == DELETE_USER_TAG
    ||| t == RECLAIM_RENT_TAG
    ||| t == FILL_PERP_ORDER_TAG
    ||| t == REVERT_FILL_TAG
    ||| t == FILL_SPOT_ORDER_TAG
    ||| t == TRIGGER_ORDER_TAG
    ||| t == UPDATE_USER_IDLE_TAG
    ||| t == SETTLE_PNL_TAG
    ||| t == SETTLE_MULTIPLE_PNLS_TAG
    ||| t == SETTLE_FUNDING_PAYMENT_TAG
    ||| t == SETTLE_LP_TAG
    ||| t == LIQUIDATE_PERP_TAG
    ||| t == SETTLE_REVENUE_TO_INSURANCE_FUND_TAG
    ||| t == UPDATE_FUNDING_RATE_TAG
    ||| t == UPDATE_PRELAUNCH_ORACLE_TAG
    ||| t == UPDATE_PERP_BID_ASK_TWAP_TAG
    ||| t == UPDATE_AMMS_TAG
    ||| t == INITIALIZE_INSURANCE_FUND_STAKE_TAG
    ||| t == ADD_INSURANCE_FUND_STAKE_TAG
    ||| t == REQUEST_REMOVE_INSURANCE_FUND_STAKE_TAG
    ||| t == CANCEL_REQUEST_REMOVE_INSURANCE_FUND_STAKE_TAG
    ||| t == REMOVE_INSURANCE_FUND_STAKE_TAG
    ||| t == DEPOSIT_INTO_SPOT_MARKET_REVENUE_POOL_TAG
}

/// The instruction's list payloads are short enough for their lengths
/// to be laid down as a 32-bit count.
pub open spec fn wf_instr(i: DriftV2Instruction) -> bool {
    match i {
        DriftV2Instruction::CancelOrdersByIds(p) => p.order_ids@.len() <= u32::MAX,
        DriftV2Instruction::PlaceOrders(p) => p.params@.len() <= u32::MAX,
        DriftV2Instruction::SettleMultiplePnls(p) => p.market_indexes@.len() <= u32::MAX,
        _ => true,
    }
}

/// Equality of two instructions up to the contents of their list
/// payloads: `Vec` payloads are compared by their element sequences.
pub open spec fn instr_eqv(a: DriftV2Instruction, b: DriftV2Instruction) -> bool {
    match (a, b) {
        (DriftV2Instruction::InitializeUser(x), DriftV2Instruction::InitializeUser(y)) => x == y,
        (DriftV2Instruction::InitializeUserStats, DriftV2Instruction::InitializeUserStats) => true,
        (DriftV2Instruction::InitializeReferrerName(x), DriftV2Instruction::InitializeReferrerName(y)) => x == y,
        (DriftV2Instruction::Deposit(x), DriftV2Instruction::Deposit(y)) => x == y,
        (DriftV2Instruction::Withdraw(x), DriftV2Instruction::Withdraw(y)) => x == y,
        (DriftV2Instruction::TransferDeposit(x), DriftV2Instruction::TransferDeposit(y)) => x == y,
        (DriftV2Instruction::PlacePerpOrder(x), DriftV2Instruction::PlacePerpOrder(y)) => x == y,
        (DriftV2Instruction::CancelOrder(x), DriftV2Instruction::CancelOrder(y)) => x == y,
        (DriftV2Instruction::CancelOrderByUserId(x), DriftV2Instruction::CancelOrderByUserId(y)) => x == y,
        (DriftV2Instruction::CancelOrders(x), DriftV2Instruction::CancelOrders(y)) => x == y,
        (DriftV2Instruction::CancelOrdersByIds(x), DriftV2Instruction::CancelOrdersByIds(y)) => x.order_ids@ == y.order_ids@,
        (DriftV2Instruction::ModifyOrder(x), DriftV2Instruction::ModifyOrder(y)) => x == y,
        (DriftV2Instruction::PlaceAndTakePerpOrder(x), DriftV2Instruction::PlaceAndTakePerpOrder(y)) => x == y,
        (DriftV2Instruction::PlaceAndMakePerpOrder(x), DriftV2Instruction::PlaceAndMakePerpOrder(y)) => x == y,
        (DriftV2Instruction::PlaceSpotOrder(x), DriftV2Instruction::PlaceSpotOrder(y)) => x == y,
        (DriftV2Instruction::PlaceOrders(x), DriftV2Instruction::PlaceOrders(y)) => x.params@ == y.params@,
        (DriftV2Instruction::BeginSwap(x), DriftV2Instruction::BeginSwap(y)) => x == y,
        (DriftV2Instruction::EndSwap(x), DriftV2Instruction::EndSwap(y)) => x == y,
        (DriftV2Instruction::AddPerpLpShares(x), DriftV2Instruction::AddPerpLpShares(y)) => x == y,
        (DriftV2Instruction::RemovePerpLpShares(x), DriftV2Instruction::RemovePerpLpShares(y)) => x == y,
        (DriftV2Instruction::UpdateUserCustomMarginRatio(x), DriftV2Instruction::UpdateUserCustomMarginRatio(y)) => x == y,
        (DriftV2Instruction::UpdateUserMarginTradingEnabled(x), DriftV2Instruction::UpdateUserMarginTradingEnabled(y)) => x == y,
        (DriftV2Instruction::DeleteUser, DriftV2Instruction::DeleteUser) => true,
        (DriftV2Instruction::ReclaimRent, DriftV2Instruction::ReclaimRent) => true,
        (DriftV2Instruction::FillPerpOrder(x), DriftV2Instruction::FillPerpOrder(y)) => x == y,
        (DriftV2Instruction::RevertFill, DriftV2Instruction::RevertFill) => true,
        (DriftV2Instruction::FillSpotOrder(x), DriftV2Instruction::FillSpotOrder(y)) => x == y,
        (DriftV2Instruction::TriggerOrder(x), DriftV2Instruction::TriggerOrder(y)) => x == y,
        (DriftV2Instruction::UpdateUserIdle, DriftV2Instruction::UpdateUserIdle) => true,
        (DriftV2Instruction::SettlePnl(x), DriftV2Instruction::SettlePnl(y)) => x == y,
        (DriftV2Instruction::SettleMultiplePnls(x), DriftV2Instruction::SettleMultiplePnls(y)) => x.market_indexes@ == y.market_indexes@ && x.mode == y.mode,
        (DriftV2Instruction::SettleFundingPayment, DriftV2Instruction::SettleFundingPayment) => true,
        (DriftV2Instruction::SettleLp(x), DriftV2Instruction::SettleLp(y)) => x == y,
        (DriftV2Instruction::LiquidatePerp(x), DriftV2Instruction::LiquidatePerp(y)) => x == y,
        (DriftV2Instruction::SettleRevenueToInsuranceFund(x), DriftV2Instruction::SettleRevenueToInsuranceFund(y)) => x == y,
        (DriftV2Instruction::UpdateFundingRate(x), DriftV2Instruction::UpdateFundingRate(y)) => x == y,
        (DriftV2Instruction::UpdatePrelaunchOracle, DriftV2Instruction::UpdatePrelaunchOracle) => true,
        (DriftV2Instruction::UpdatePerpBidAskTwap, DriftV2Instruction::UpdatePerpBidAskTwap) => true,
        (DriftV2Instruction::UpdateAmms(x), DriftV2Instruction::UpdateAmms(y)) => x == y,
        (DriftV2Instruction::InitializeInsuranceFundStake(x), DriftV2Instruction::InitializeInsuranceFundStake(y)) => x == y,
        (DriftV2Instruction::AddInsuranceFundStake(x), DriftV2Instruction::AddInsuranceFundStake(y)) => x == y,
        (DriftV2Instruction::RequestRemoveInsuranceFundStake(x), DriftV2Instruction::RequestRemoveInsuranceFundStake(y)) => x == y,
        (DriftV2Instruction::CancelRequestRemoveInsuranceFundStake(x), DriftV2Instruction::CancelRequestRemoveInsuranceFundStake(y)) => x == y,
        (DriftV2Instruction::RemoveInsuranceFundStake(x), DriftV2Instruction::RemoveInsuranceFundStake(y)) => x == y,
        (DriftV2Instruction::DepositIntoSpotMarketRevenuePool(x), DriftV2Instruction::DepositIntoSpotMarketRevenuePool(y)) => x == y,
        _ => false,
    }
}

/// Every instruction's tag stands in the catalog.
pub proof fn lemma_known_tags(i: DriftV2Instruction)
    ensures
        known_tag(tag_of(i)),
{
    match i {
        DriftV2Instruction::InitializeUser(_) => {}
        DriftV2Instruction::InitializeUserStats => {}
        DriftV2Instruction::InitializeReferrerName(_) => {}
        DriftV2Instruction::Deposit(_) => {}
        DriftV2Instruction::Withdraw(_) => {}
        DriftV2Instruction::TransferDeposit(_) => {}
        DriftV2Instruction::PlacePerpOrder(_) => {}
        DriftV2Instruction::CancelOrder(_) => {}
        DriftV2Instruction::CancelOrderByUserId(_) => {}
        DriftV2Instruction::CancelOrders(_) => {}
        DriftV2Instruction::CancelOrdersByIds(_) => {}
        DriftV2Instruction::ModifyOrder(_) => {}
        DriftV2Instruction::PlaceAndTakePerpOrder(_) => {}
        DriftV2Instruction::PlaceAndMakePerpOrder(_) => {}
        DriftV2Instruction::PlaceSpotOrder(_) => {}
        DriftV2Instruction::PlaceOrders(_) => {}
        DriftV2Instruction::BeginSwap(_) => {}
        DriftV2Instruction::EndSwap(_) => {}
        DriftV2Instruction::AddPerpLpShares(_) => {}
        DriftV2Instruction::RemovePerpLpShares(_) => {}
        DriftV2Instruction::UpdateUserCustomMarginRatio(_) => {}
        DriftV2Instruction::UpdateUserMarginTradingEnabled(_) => {}
        DriftV2Instruction::DeleteUser => {}
        DriftV2Instruction::ReclaimRent => {}
        DriftV2Instruction::FillPerpOrder(_) => {}
        DriftV2Instruction::RevertFill => {}
        DriftV2Instruction::FillSpotOrder(_) => {}
        DriftV2Instruction::TriggerOrder(_) => {}
        DriftV2Instruction::UpdateUserIdle => {}
        DriftV2Instruction::SettlePnl(_) => {}
        DriftV2Instruction::SettleMultiplePnls(_) => {}
        DriftV2Instruction::SettleFundingPayment => {}
        DriftV2Instruction::SettleLp(_) => {}
        DriftV2Instruction::LiquidatePerp(_) => {}
        DriftV2Instruction::SettleRevenueToInsuranceFund(_) => {}
        DriftV2Instruction::UpdateFundingRate(_) => {}
        DriftV2Instruction::UpdatePrelaunchOracle => {}
        DriftV2Instruction::UpdatePerpBidAskTwap => {}
        DriftV2Instruction::UpdateAmms(_) => {}
        DriftV2Instruction::InitializeInsuranceFundStake(_) => {}
        DriftV2Instruction::AddInsuranceFundStake(_) => {}
        DriftV2Instruction::RequestRemoveInsuranceFundStake(_) => {}
        DriftV2Instruction::CancelRequestRemoveInsuranceFundStake(_) => {}
        DriftV2Instruction::RemoveInsuranceFundStake(_) => {}
        DriftV2Instruction::DepositIntoSpotMarketRevenuePool(_) => {}
    }
}

/// The catalog holds no duplicate tags, so an instruction's tag
/// determines its variant.
pub proof fn lemma_variant_of_tag(i: DriftV2Instruction)
    ensures
        tag_of(i) == INITIALIZE_USER_TAG ==> i matches DriftV2Instruction::InitializeUser(_),
        tag_of(i) == INITIALIZE_USER_STATS_TAG ==> i matches DriftV2Instruction::InitializeUserStats,
        tag_of(i) == INITIALIZE_REFERRER_NAME_TAG ==> i matches DriftV2Instruction::InitializeReferrerName(_),
        tag_of(i) == DEPOSIT_TAG ==> i matches DriftV2Instruction::Deposit(_),
        tag_of(i) == WITHDRAW_TAG ==> i matches DriftV2Instruction::Withdraw(_),
        tag_of(i) == TRANSFER_DEPOSIT_TAG ==> i matches DriftV2Instruction::TransferDeposit(_),
        tag_of(i) == PLACE_PERP_ORDER_TAG ==> i matches DriftV2Instruction::PlacePerpOrder(_),
        tag_of(i) == CANCEL_ORDER_TAG ==> i matches DriftV2Instruction::CancelOrder(_),
        tag_of(i) == CANCEL_ORDER_BY_USER_ID_TAG ==> i matches DriftV2Instruction::CancelOrderByUserId(_),
        tag_of(i) == CANCEL_ORDERS_TAG ==> i matches DriftV2Instruction::CancelOrders(_),
        tag_of(i) == CANCEL_ORDERS_BY_IDS_TAG ==> i matches DriftV2Instruction::CancelOrdersByIds(_),
        tag_of(i) == MODIFY_ORDER_TAG ==> i matches DriftV2Instruction::ModifyOrder(_),
        tag_of(i) == PLACE_AND_TAKE_PERP_ORDER_TAG ==> i matches DriftV2Instruction::PlaceAndTakePerpOrder(_),
        tag_of(i) == PLACE_AND_MAKE_PERP_ORDER_TAG ==> i matches DriftV2Instruction::PlaceAndMakePerpOrder(_),
        tag_of(i) == PLACE_SPOT_ORDER_TAG ==> i matches DriftV2Instruction::PlaceSpotOrder(_),
        tag_of(i) == PLACE_ORDERS_TAG ==> i matches DriftV2Instruction::PlaceOrders(_),
        tag_of(i) == BEGIN_SWAP_TAG ==> i matches DriftV2Instruction::BeginSwap(_),
        tag_of(i) == END_SWAP_TAG ==> i matches DriftV2Instruction::EndSwap(_),
        tag_of(i) == ADD_PERP_LP_SHARES_TAG ==> i matches DriftV2Instruction::AddPerpLpShares(_),
        tag_of(i) == REMOVE_PERP_LP_SHARES_TAG ==> i matches DriftV2Instruction::RemovePerpLpShares(_),
        tag_of(i) == UPDATE_USER_CUSTOM_MARGIN_RATIO_TAG ==> i matches DriftV2Instruction::UpdateUserCustomMarginRatio(_),
        tag_of(i) == UPDATE_USER_MARGIN_TRADING_ENABLED_TAG ==> i matches DriftV2Instruction::UpdateUserMarginTradingEnabled(_),
        tag_of(i) == DELETE_USER_TAG ==> i matches DriftV2Instruction::DeleteUser,
        tag_of(i) == RECLAIM_RENT_TAG ==> i matches DriftV2Instruction::ReclaimRent,
        tag_of(i) == FILL_PERP_ORDER_TAG ==> i matches DriftV2Instruction::FillPerpOrder(_),
        tag_of(i) == REVERT_FILL_TAG ==> i matches DriftV2Instruction::RevertFill,
        tag_of(i) == FILL_SPOT_ORDER_TAG ==> i matches DriftV2Instruction::FillSpotOrder(_),
        tag_of(i) == TRIGGER_ORDER_TAG ==> i matches DriftV2Instruction::TriggerOrder(_),
        tag_of(i) == UPDATE_USER_IDLE_TAG ==> i matches DriftV2Instruction::UpdateUserIdle,
        tag_of(i) == SETTLE_PNL_TAG ==> i matches DriftV2Instruction::SettlePnl(_),
        tag_of(i) == SETTLE_MULTIPLE_PNLS_TAG ==> i matches DriftV2Instruction::SettleMultiplePnls(_),
        tag_of(i) == SETTLE_FUNDING_PAYMENT_TAG ==> i matches DriftV2Instruction::SettleFundingPayment,
        tag_of(i) == SETTLE_LP_TAG ==> i matches DriftV2Instruction::SettleLp(_),
        tag_of(i) == LIQUIDATE_PERP_TAG ==> i matches DriftV2Instruction::LiquidatePerp(_),
        tag_of(i) == SETTLE_REVENUE_TO_INSURANCE_FUND_TAG ==> i matches DriftV2Instruction::SettleRevenueToInsuranceFund(_),
        tag_of(i) == UPDATE_FUNDING_RATE_TAG ==> i matches DriftV2Instruction::UpdateFundingRate(_),
        tag_of(i) == UPDATE_PRELAUNCH_ORACLE_TAG ==> i matches DriftV2Instruction::UpdatePrelaunchOracle,
        tag_of(i) == UPDATE_PERP_BID_ASK_TWAP_TAG ==> i matches DriftV2Instruction::UpdatePerpBidAskTwap,
        tag_of(i) == UPDATE_AMMS_TAG ==> i matches DriftV2Instruction::UpdateAmms(_),
        tag_of(i) == INITIALIZE_INSURANCE_FUND_STAKE_TAG ==> i matches DriftV2Instruction::InitializeInsuranceFundStake(_),
        tag_of(i) == ADD_INSURANCE_FUND_STAKE_TAG ==> i matches DriftV2Instruction::AddInsuranceFundStake(_),
        tag_of(i) == REQUEST_REMOVE_INSURANCE_FUND_STAKE_TAG ==> i matches DriftV2Instruction::RequestRemoveInsuranceFundStake(_),
        tag_of(i) == CANCEL_REQUEST_REMOVE_INSURANCE_FUND_STAKE_TAG ==> i matches DriftV2Instruction::CancelRequestRemoveInsuranceFundStake(_),
        tag_of(i) == REMOVE_INSURANCE_FUND_STAKE_TAG ==> i matches DriftV2Instruction::RemoveInsuranceFundStake(_),
        tag_of(i) == DEPOSIT_INTO_SPOT_MARKET_REVENUE_POOL_TAG ==> i matches DriftV2Instruction::DepositIntoSpotMarketRevenuePool(_),
{
    match i {
        DriftV2Instruction::InitializeUser(_) => {}
        DriftV2Instruction::InitializeUserStats => {}
        DriftV2Instruction::InitializeReferrerName(_) => {}
        DriftV2Instruction::Deposit(_) => {}
        DriftV2Instruction::Withdraw(_) => {}
        DriftV2Instruction::TransferDeposit(_) => {}
        DriftV2Instruction::PlacePerpOrder(_) => {}
        DriftV2Instruction::CancelOrder(_) => {}
        DriftV2Instruction::CancelOrderByUserId(_) => {}
        DriftV2Instruction::CancelOrders(_) => {}
        DriftV2Instruction::CancelOrdersByIds(_) => {}
        DriftV2Instruction::ModifyOrder(_) => {}
        DriftV2Instruction::PlaceAndTakePerpOrder(_) => {}
        DriftV2Instruction::PlaceAndMakePerpOrder(_) => {}
        DriftV2Instruction::PlaceSpotOrder(_) => {}
        DriftV2Instruction::PlaceOrders(_) => {}
        DriftV2Instruction::BeginSwap(_) => {}
        DriftV2Instruction::EndSwap(_) => {}
        DriftV2Instruction::AddPerpLpShares(_) => {}
        DriftV2Instruction::RemovePerpLpShares(_) => {}
        DriftV2Instruction::UpdateUserCustomMarginRatio(_) => {}
        DriftV2Instruction::UpdateUserMarginTradingEnabled(_) => {}
        DriftV2Instruction::DeleteUser => {}
        DriftV2Instruction::ReclaimRent => {}
        DriftV2Instruction::FillPerpOrder(_) => {}
        DriftV2Instruction::RevertFill => {}
        DriftV2Instruction::FillSpotOrder(_) => {}
        DriftV2Instruction::TriggerOrder(_) => {}
        DriftV2Instruction::UpdateUserIdle => {}
        DriftV2Instruction::SettlePnl(_) => {}
        DriftV2Instruction::SettleMultiplePnls(_) => {}
        DriftV2Instruction::SettleFundingPayment => {}
        DriftV2Instruction::SettleLp(_) => {}
        DriftV2Instruction::LiquidatePerp(_) => {}
        DriftV2Instruction::SettleRevenueToInsuranceFund(_) => {}
        DriftV2Instruction::UpdateFundingRate(_) => {}
        DriftV2Instruction::UpdatePrelaunchOracle => {}
        DriftV2Instruction::UpdatePerpBidAskTwap => {}
        DriftV2Instruction::UpdateAmms(_) => {}
        DriftV2Instruction::InitializeInsuranceFundStake(_) => {}
        DriftV2Instruction::AddInsuranceFundStake(_) => {}
        DriftV2Instruction::RequestRemoveInsuranceFundStake(_) => {}
        DriftV2Instruction::CancelRequestRemoveInsuranceFundStake(_) => {}
        DriftV2Instruction::RemoveInsuranceFundStake(_) => {}
        DriftV2Instruction::DepositIntoSpotMarketRevenuePool(_) => {}
    }
}

fn finish_initialize_user(input: &[u8]) -> (r: Result<DriftV2Instruction, DecodeError>)
    requires
        input@.len() >= 8,
        input@.subrange(0, 8) == enc_u64(INITIALIZE_USER_TAG),
    ensures
        r matches Ok(d) ==> input@ == encoding_of(d) && wf_instr(d),
        r matches Err(e) ==> e == DecodeError::InvalidEncoding,
        forall|i: DriftV2Instruction| wf_instr(i) && input@ == encoding_of(i)
            ==> (r matches Ok(d) && instr_eqv(d, i)),
{
    proof {
        lemma_enc_lens();
        lemma_auto_spec_u64_to_from_le_bytes();
        assert forall|i: DriftV2Instruction| wf_instr(i) && input@ == encoding_of(i) implies (
            i matches DriftV2Instruction::InitializeUser(_) && is_prefix_at(input@, 8, payload_enc(i))
            && input@.len() == 8 + payload_enc(i).len()
        ) by {
            lemma_prefix_whole(input@);
            lemma_split_prefix(input@, 0, enc_u64(tag_of(i)), payload_enc(i));
            assert(input@.subrange(0, 8) == enc_u64(tag_of(i)));
            assert(tag_of(i) == INITIALIZE_USER_TAG);
            lemma_variant_of_tag(i);
        }
    }
    match read_initialize_user(input, 8) {
        None => {
            proof {
                assert forall|i: DriftV2Instruction| !(wf_instr(i) && input@ == encoding_of(i)) by {
                    if wf_instr(i) && input@ == encoding_of(i) {
                        match i {
                            DriftV2Instruction::InitializeUser(q) => {
                                assert(is_prefix_at(input@, 8, enc_initialize_user(q)));
                            }
                            _ => {}
                        }
                    }
                }
            }
            Err(DecodeError::InvalidEncoding)
        }
        Some((p, end)) => {
            if end == input.len() {
                let d = DriftV2Instruction::InitializeUser(p);
                proof {
                    assert(input@.subrange(0, input@.len() as int) =~= input@);
                    lemma_join_at(input@, 0, 8, end as int);
                    assert(input@ == encoding_of(d));
                    assert forall|i: DriftV2Instruction| wf_instr(i) && input@ == encoding_of(i)
                        implies instr_eqv(d, i) by {
                        match i {
                            DriftV2Instruction::InitializeUser(q) => {
                                assert(is_prefix_at(input@, 8, enc_initialize_user(q)));
                            }
                            _ => {}
                        }
                    }
                }
                Ok(d)
            } else {
                proof {
                    assert forall|i: DriftV2Instruction| !(wf_instr(i) && input@ == encoding_of(i)) by {
                        if wf_instr(i) && input@ == encoding_of(i) {
                            match i {
                                DriftV2Instruction::InitializeUser(q) => {
                                    assert(is_prefix_at(input@, 8, enc_initialize_user(q)));
                                }
                                _ => {}
                            }
                        }
                    }
                }
                Err(DecodeError::InvalidEncoding)
            }
        }
    }
}

fn finish_initialize_user_stats(input: &[u8]) -> (r: Result<DriftV2Instruction, DecodeError>)
    requires
        input@.len() >= 8,
        input@.subrange(0, 8) == enc_u64(INITIALIZE_USER_STATS_TAG),
    ensures
        r matches Ok(d) ==> input@ == encoding_of(d) && wf_instr(d),
        r matches Err(e) ==> e == DecodeError::InvalidEncoding,
        forall|i: DriftV2Instruction| wf_instr(i) && input@ == encoding_of(i)
            ==> (r matches Ok(d) && instr_eqv(d, i)),
{
    proof {
        lemma_enc_lens();
        lemma_auto_spec_u64_to_from_le_bytes();
        assert forall|i: DriftV2Instruction| wf_instr(i) && input@ == encoding_of(i) implies (
            i matches DriftV2Instruction::InitializeUserStats && is_prefix_at(input@, 8, payload_enc(i))
            && input@.len() == 8 + payload_enc(i).len()
        ) by {
            lemma_prefix_whole(input@);
            lemma_split_prefix(input@, 0, enc_u64(tag_of(i)), payload_enc(i));
            assert(input@.subrange(0, 8) == enc_u64(tag_of(i)));
            assert(tag_of(i) == INITIALIZE_USER_STATS_TAG);
            lemma_variant_of_tag(i);
        }
    }
    if input.len() == 8 {
        let d = DriftV2Instruction::InitializeUserStats;
        proof {
            assert(input@ =~= input@.subrange(0, 8));
            assert(enc_u64(INITIALIZE_USER_STATS_TAG) + Seq::<u8>::empty() =~= enc_u64(INITIALIZE_USER_STATS_TAG));
            assert(input@ == encoding_of(d));
        }
        Ok(d)
    } else {
        Err(DecodeError::InvalidEncoding)
    }
}

fn finish_initialize_referrer_name(input: &[u8]) -> (r: Result<DriftV2Instruction, DecodeError>)
    requires
        input@.len() >= 8,
        input@.subrange(0, 8) == enc_u64(INITIALIZE_REFERRER_NAME_TAG),
    ensures
        r matches Ok(d) ==> input@ == encoding_of(d) && wf_instr(d),
        r matches Err(e) ==> e == DecodeError::InvalidEncoding,
        forall|i: DriftV2Instruction| wf_instr(i) && input@ == encoding_of(i)
            ==> (r matches Ok(d) && instr_eqv(d, i)),
{
    proof {
        lemma_enc_lens();
        lemma_auto_spec_u64_to_from_le_bytes();
        assert forall|i: DriftV2Instruction| wf_instr(i) && input@ == encoding_of(i) implies (
            i matches DriftV2Instruction::InitializeReferrerName(_) && is_prefix_at(input@, 8, payload_enc(i))
            && input@.len() == 8 + payload_enc(i).len()
        ) by {
            lemma_prefix_whole(input@);
            lemma_split_prefix(input@, 0, enc_u64(tag_of(i)), payload_enc(i));
            assert(input@.subrange(0, 8) == enc_u64(tag_of(i)));
            assert(tag_of(i) == INITIALIZE_REFERRER_NAME_TAG);
            lemma_variant_of_tag(i);
        }
    }
    match read_initialize_referrer_name(input, 8) {
        None => {
            proof {
                assert forall|i: DriftV2Instruction| !(wf_instr(i) && input@ == encoding_of(i)) by {
                    if wf_instr(i) && input@ == encoding_of(i) {
                        match i {
                            DriftV2Instruction::InitializeReferrerName(q) => {
                                assert(is_prefix_at(input@, 8, enc_initialize_referrer_name(q)));
                            }
                            _ => {}
                        }
                    }
                }
            }
            Err(DecodeError::InvalidEncoding)
        }
        Some((p, end)) => {
            if end == input.len() {
                let d = DriftV2Instruction::InitializeReferrerName(p);
                proof {
                    assert(input@.subrange(0, input@.len() as int) =~= input@);
                    lemma_join_at(input@, 0, 8, end as int);
                    assert(input@ == encoding_of(d));
                    assert forall|i: DriftV2Instruction| wf_instr(i) && input@ == encoding_of(i)
                        implies instr_eqv(d, i) by {
                        match i {
                            DriftV2Instruction::InitializeReferrerName(q) => {
                                assert(is_prefix_at(input@, 8, enc_initialize_referrer_name(q)));
                            }
                            _ => {}
                        }
                    }
                }
                Ok(d)
            } else {
                proof {
                    assert forall|i: DriftV2Instruction| !(wf_instr(i) && input@ == encoding_of(i)) by {
                        if wf_instr(i) && input@ == encoding_of(i) {
                            match i {
                                DriftV2Instruction::InitializeReferrerName(q) => {
                                    assert(is_prefix_at(input@, 8, enc_initialize_referrer_name(q)));
                                }
                                _ => {}
                            }
                        }
                    }
                }
                Err(DecodeError::InvalidEncoding)
            }
        }
    }
}

fn finish_deposit(input: &[u8]) -> (r: Result<DriftV2Instruction, DecodeError>)
    requires
        input@.len() >= 8,
        input@.subrange(0, 8) == enc_u64(DEPOSIT_TAG),
    ensures
        r matches Ok(d) ==> input@ == encoding_of(d) && wf_instr(d),
        r matches Err(e) ==> e == DecodeError::InvalidEncoding,
        forall|i: DriftV2Instruction| wf_instr(i) && input@ == encoding_of(i)
            ==> (r matches Ok(d) && instr_eqv(d, i)),
{
    proof {
        lemma_enc_lens();
        lemma_auto_spec_u64_to_from_le_bytes();
        assert forall|i: DriftV2Instruction| wf_instr(i) && input@ == encoding_of(i) implies (
            i matches DriftV2Instruction::Deposit(_) && is_prefix_at(input@, 8, payload_enc(i))
            && input@.len() == 8 + payload_enc(i).len()
        ) by {
            lemma_prefix_whole(input@);
            lemma_split_prefix(input@, 0, enc_u64(tag_of(i)), payload_enc(i));
            assert(input@.subrange(0, 8) == enc_u64(tag_of(i)));
            assert(tag_of(i) == DEPOSIT_TAG);
            lemma_variant_of_tag(i);
        }
    }
    match read_deposit(input, 8) {
        None => {
            proof {
                assert forall|i: DriftV2Instruction| !(wf_instr(i) && input@ == encoding_of(i)) by {
                    if wf_instr(i) && input@ == encoding_of(i) {
                        match i {
                            DriftV2Instruction::Deposit(q) => {
                                assert(is_prefix_at(input@, 8, enc_deposit(q)));
                            }
                            _ => {}
                        }
                    }
                }
            }
            Err(DecodeError::InvalidEncoding)
        }
        Some((p, end)) => {
            if end == input.len() {
                let d = DriftV2Instruction::Deposit(p);
                proof {
                    assert(input@.subrange(0, input@.len() as int) =~= input@);
                    lemma_join_at(input@, 0, 8, end as int);
                    assert(input@ == encoding_of(d));
                    assert forall|i: DriftV2Instruction| wf_instr(i) && input@ == encoding_of(i)
                        implies instr_eqv(d, i) by {
                        match i {
                            DriftV2Instruction::Deposit(q) => {
                                assert(is_prefix_at(input@, 8, enc_deposit(q)));
                            }
                            _ => {}
                        }
                    }
                }
                Ok(d)
            } else {
                proof {
                    assert forall|i: DriftV2Instruction| !(wf_instr(i) && input@ == encoding_of(i)) by {
                        if wf_instr(i) && input@ == encoding_of(i) {
                            match i {
                                DriftV2Instruction::Deposit(q) => {
                                    assert(is_prefix_at(input@, 8, enc_deposit(q)));
                                }
                                _ => {}
                            }
                        }
                    }
                }
                Err(DecodeError::InvalidEncoding)
            }
        }
    }
}

fn finish_withdraw(input: &[u8]) -> (r: Result<DriftV2Instruction, DecodeError>)
    requires
        input@.len() >= 8,
        input@.subrange(0, 8) == enc_u64(WITHDRAW_TAG),
    ensures
        r matches Ok(d) ==> input@ == encoding_of(d) && wf_instr(d),
        r matches Err(e) ==> e == DecodeError::InvalidEncoding,
        forall|i: DriftV2Instruction| wf_instr(i) && input@ == encoding_of(i)
            ==> (r matches Ok(d) && instr_eqv(d, i)),
{
    proof {
        lemma_enc_lens();
        lemma_auto_spec_u64_to_from_le_bytes();
        assert forall|i: DriftV2Instruction| wf_instr(i) && input@ == encoding_of(i) implies (
            i matches DriftV2Instruction::Withdraw(_) && is_prefix_at(input@, 8, payload_enc(i))
            && input@.len() == 8 + payload_enc(i).len()
        ) by {
            lemma_prefix_whole(input@);
            lemma_split_prefix(input@, 0, enc_u64(tag_of(i)), payload_enc(i));
            assert(input@.subrange(0, 8) == enc_u64(tag_of(i)));
            assert(tag_of(i) == WITHDRAW_TAG);
            lemma_variant_of_tag(i);
        }
    }
    match read_withdraw(input, 8) {
        None => {
            proof {
                assert forall|i: DriftV2Instruction| !(wf_instr(i) && input@ == encoding_of(i)) by {
                    if wf_instr(i) && input@ == encoding_of(i) {
                        match i {
                            DriftV2Instruction::Withdraw(q) => {
                                assert(is_prefix_at(input@, 8, enc_withdraw(q)));
                            }
                            _ => {}
                        }
                    }
                }
            }
            Err(DecodeError::InvalidEncoding)
        }
        Some((p, end)) => {
            if end == input.len() {
                let d = DriftV2Instruction::Withdraw(p);
                proof {
                    assert(input@.subrange(0, input@.len() as int) =~= input@);
                    lemma_join_at(input@, 0, 8, end as int);
                    assert(input@ == encoding_of(d));
                    assert forall|i: DriftV2Instruction| wf_instr(i) && input@ == encoding_of(i)
                        implies instr_eqv(d, i) by {
                        match i {
                            DriftV2Instruction::Withdraw(q) => {
                                assert(is_prefix_at(input@, 8, enc_withdraw(q)));
                            }
                            _ => {}
                        }
                    }
                }
                Ok(d)
            } else {
                proof {
                    assert forall|i: DriftV2Instruction| !(wf_instr(i) && input@ == encoding_of(i)) by {
                        if wf_instr(i) && input@ == encoding_of(i) {
                            match i {
                                DriftV2Instruction::Withdraw(q) => {
                                    assert(is_prefix_at(input@, 8, enc_withdraw(q)));
                                }
                                _ => {}
                            }
                        }
                    }
                }
                Err(DecodeError::InvalidEncoding)
            }
        }
    }
}

fn finish_transfer_deposit(input: &[u8]) -> (r: Result<DriftV2Instruction, DecodeError>)
    requires
        input@.len() >= 8,
        input@.subrange(0, 8) == enc_u64(TRANSFER_DEPOSIT_TAG),
    ensures
        r matches Ok(d) ==> input@ == encoding_of(d) && wf_instr(d),
        r matches Err(e) ==> e == DecodeError::InvalidEncoding,
        forall|i: DriftV2Instruction| wf_instr(i) && input@ == encoding_of(i)
            ==> (r matches Ok(d) && instr_eqv(d, i)),
{
    proof {
        lemma_enc_lens();
        lemma_auto_spec_u64_to_from_le_bytes();
        assert forall|i: DriftV2Instruction| wf_instr(i) && input@ == encoding_of(i) implies (
            i matches DriftV2Instruction::TransferDeposit(_) && is_prefix_at(input@, 8, payload_enc(i))
            && input@.len() == 8 + payload_enc(i).len()
        ) by {
            lemma_prefix_whole(input@);
            lemma_split_prefix(input@, 0, enc_u64(tag_of(i)), payload_enc(i));
            assert(input@.subrange(0, 8) == enc_u64(tag_of(i)));
            assert(tag_of(i) == TRANSFER_DEPOSIT_TAG);
            lemma_variant_of_tag(i);
        }
    }
    match read_transfer_deposit(input, 8) {
        None => {
            proof {
                assert forall|i: DriftV2Instruction| !(wf_instr(i) && input@ == encoding_of(i)) by {
                    if wf_instr(i) && input@ == encoding_of(i) {
                        match i {
                            DriftV2Instruction::TransferDeposit(q) => {
                                assert(is_prefix_at(input@, 8, enc_transfer_deposit(q)));
                            }
                            _ => {}
                        }
                    }
                }
            }
            Err(DecodeError::InvalidEncoding)
        }
        Some((p, end)) => {
            if end == input.len() {
                let d = DriftV2Instruction::TransferDeposit(p);
                proof {
                    assert(input@.subrange(0, input@.len() as int) =~= input@);
                    lemma_join_at(input@, 0, 8, end as int);
                    assert(input@ == encoding_of(d));
                    assert forall|i: DriftV2Instruction| wf_instr(i) && input@ == encoding_of(i)
                        implies instr_eqv(d, i) by {
                        match i {
                            DriftV2Instruction::TransferDeposit(q) => {
                                assert(is_prefix_at(input@, 8, enc_transfer_deposit(q)));
                            }
                            _ => {}
                        }
                    }
                }
                Ok(d)
            } else {
                proof {
                    assert forall|i: DriftV2Instruction| !(wf_instr(i) && input@ == encoding_of(i)) by {
                        if wf_instr(i) && input@ == encoding_of(i) {
                            match i {
                                DriftV2Instruction::TransferDeposit(q) => {
                                    assert(is_prefix_at(input@, 8, enc_transfer_deposit(q)));
                                }
                                _ => {}
                            }
                        }
                    }
                }
                Err(DecodeError::InvalidEncoding)
            }
        }
    }
}

fn finish_place_perp_order(input: &[u8]) -> (r: Result<DriftV2Instruction, DecodeError>)
    requires
        input@.len() >= 8,
        input@.subrange(0, 8) == enc_u64(PLACE_PERP_ORDER_TAG),
    ensures
        r matches Ok(d) ==> input@ == encoding_of(d) && wf_instr(d),
        r matches Err(e) ==> e == DecodeError::InvalidEncoding,
        forall|i: DriftV2Instruction| wf_instr(i) && input@ == encoding_of(i)
            ==> (r matches Ok(d) && instr_eqv(d, i)),
{
    proof {
        lemma_enc_lens();
        lemma_auto_spec_u64_to_from_le_bytes();
        assert forall|i: DriftV2Instruction| wf_instr(i) && input@ == encoding_of(i) implies (
            i matches DriftV2Instruction::PlacePerpOrder(_) && is_prefix_at(input@, 8, payload_enc(i))
            && input@.len() == 8 + payload_enc(i).len()
        ) by {
            lemma_prefix_whole(input@);
            lemma_split_prefix(input@, 0, enc_u64(tag_of(i)), payload_enc(i));
            assert(input@.subrange(0, 8) == enc_u64(tag_of(i)));
            assert(tag_of(i) == PLACE_PERP_ORDER_TAG);
            lemma_variant_of_tag(i);
        }
    }
    match read_place_perp_order(input, 8) {
        None => {
            proof {
                assert forall|i: DriftV2Instruction| !(wf_instr(i) && input@ == encoding_of(i)) by {
                    if wf_instr(i) && input@ == encoding_of(i) {
                        match i {
                            DriftV2Instruction::PlacePerpOrder(q) => {
                                assert(is_prefix_at(input@, 8, enc_place_perp_order(q)));
                            }
                            _ => {}
                        }
                    }
                }
            }
            Err(DecodeError::InvalidEncoding)
        }
        Some((p, end)) => {
            if end == input.len() {
                let d = DriftV2Instruction::PlacePerpOrder(p);
                proof {
                    assert(input@.subrange(0, input@.len() as int) =~= input@);
                    lemma_join_at(input@, 0, 8, end as int);
                    assert(input@ == encoding_of(d));
                    assert forall|i: DriftV2Instruction| wf_instr(i) && input@ == encoding_of(i)
                        implies instr_eqv(d, i) by {
                        match i {
                            DriftV2Instruction::PlacePerpOrder(q) => {
                                assert(is_prefix_at(input@, 8, enc_place_perp_order(q)));
                            }
                            _ => {}
                        }
                    }
                }
                Ok(d)
            } else {
                proof {
                    assert forall|i: DriftV2Instruction| !(wf_instr(i) && input@ == encoding_of(i)) by {
                        if wf_instr(i) && input@ == encoding_of(i) {
                            match i {
                                DriftV2Instruction::PlacePerpOrder(q) => {
                                    assert(is_prefix_at(input@, 8, enc_place_perp_order(q)));
                                }
                                _ => {}
                            }
                        }
                    }
                }
                Err(DecodeError::InvalidEncoding)
            }
        }
    }
}

fn finish_cancel_order(input: &[u8]) -> (r: Result<DriftV2Instruction, DecodeError>)
    requires
        input@.len() >= 8,
        input@.subrange(0, 8) == enc_u64(CANCEL_ORDER_TAG),
    ensures
        r matches Ok(d) ==> input@ == encoding_of(d) && wf_instr(d),
        r matches Err(e) ==> e == DecodeError::InvalidEncoding,
        forall|i: DriftV2Instruction| wf_instr(i) && input@ == encoding_of(i)
            ==> (r matches Ok(d) && instr_eqv(d, i)),
{
    proof {
        lemma_enc_lens();
        lemma_auto_spec_u64_to_from_le_bytes();
        assert forall|i: DriftV2Instruction| wf_instr(i) && input@ == encoding_of(i) implies (
            i matches DriftV2Instruction::CancelOrder(_) && is_prefix_at(input@, 8, payload_enc(i))
            && input@.len() == 8 + payload_enc(i).len()
        ) by {
            lemma_prefix_whole(input@);
            lemma_split_prefix(input@, 0, enc_u64(tag_of(i)), payload_enc(i));
            assert(input@.subrange(0, 8) == enc_u64(tag_of(i)));
            assert(tag_of(i) == CANCEL_ORDER_TAG);
            lemma_variant_of_tag(i);
        }
    }
    match read_cancel_order(input, 8) {
        None => {
            proof {
                assert forall|i: DriftV2Instruction| !(wf_instr(i) && input@ == encoding_of(i)) by {
                    if wf_instr(i) && input@ == encoding_of(i) {
                        match i {
                            DriftV2Instruction::CancelOrder(q) => {
                                assert(is_prefix_at(input@, 8, enc_cancel_order(q)));
                            }
                            _ => {}
                        }
                    }
                }
            }
            Err(DecodeError::InvalidEncoding)
        }
        Some((p, end)) => {
            if end == input.len() {
                let d = DriftV2Instruction::CancelOrder(p);
                proof {
                    assert(input@.subrange(0, input@.len() as int) =~= input@);
                    lemma_join_at(input@, 0, 8, end as int);
                    assert(input@ == encoding_of(d));
                    assert forall|i: DriftV2Instruction| wf_instr(i) && input@ == encoding_of(i)
                        implies instr_eqv(d, i) by {
                        match i {
                            DriftV2Instruction::CancelOrder(q) => {
                                assert(is_prefix_at(input@, 8, enc_cancel_order(q)));
                            }
                            _ => {}
                        }
                    }
                }
                Ok(d)
            } else {
                proof {
                    assert forall|i: DriftV2Instruction| !(wf_instr(i) && input@ == encoding_of(i)) by {
                        if wf_instr(i) && input@ == encoding_of(i) {
                            match i {
                                DriftV2Instruction::CancelOrder(q) => {
                                    assert(is_prefix_at(input@, 8, enc_cancel_order(q)));
                                }
                                _ => {}
                            }
                        }
                    }
                }
                Err(DecodeError::InvalidEncoding)
            }
        }
    }
}

fn finish_cancel_order_by_user_id(input: &[u8]) -> (r: Result<DriftV2Instruction, DecodeError>)
    requires
        input@.len() >= 8,
        input@.subrange(0, 8) == enc_u64(CANCEL_ORDER_BY_USER_ID_TAG),
    ensures
        r matches Ok(d) ==> input@ == encoding_of(d) && wf_instr(d),
        r matches Err(e) ==> e == DecodeError::InvalidEncoding,
        forall|i: DriftV2Instruction| wf_instr(i) && input@ == encoding_of(i)
            ==> (r matches Ok(d) && instr_eqv(d, i)),
{
    proof {
        lemma_enc_lens();
        lemma_auto_spec_u64_to_from_le_bytes();
        assert forall|i: DriftV2Instruction| wf_instr(i) && input@ == encoding_of(i) implies (
            i matches DriftV2Instruction::CancelOrderByUserId(_) && is_prefix_at(input@, 8, payload_enc(i))
            && input@.len() == 8 + payload_enc(i).len()
        ) by {
            lemma_prefix_whole(input@);
            lemma_split_prefix(input@, 0, enc_u64(tag_of(i)), payload_enc(i));
            assert(input@.subrange(0, 8) == enc_u64(tag_of(i)));
            assert(tag_of(i) == CANCEL_ORDER_BY_USER_ID_TAG);
            lemma_variant_of_tag(i);
        }
    }
    match read_cancel_order_by_user_id(input, 8) {
        None => {
            proof {
                assert forall|i: DriftV2Instruction| !(wf_instr(i) && input@ == encoding_of(i)) by {
                    if wf_instr(i) && input@ == encoding_of(i) {
                        match i {
                            DriftV2Instruction::CancelOrderByUserId(q) => {
                                assert(is_prefix_at(input@, 8, enc_cancel_order_by_user_id(q)));
                            }
                            _ => {}
                        }
                    }
                }
            }
            Err(DecodeError::InvalidEncoding)
        }
        Some((p, end)) => {
            if end == input.len() {
                let d = DriftV2Instruction::CancelOrderByUserId(p);
                proof {
                    assert(input@.subrange(0, input@.len() as int) =~= input@);
                    lemma_join_at(input@, 0, 8, end as int);
                    assert(input@ == encoding_of(d));
                    assert forall|i: DriftV2Instruction| wf_instr(i) && input@ == encoding_of(i)
                        implies instr_eqv(d, i) by {
                        match i {
                            DriftV2Instruction::CancelOrderByUserId(q) => {
                                assert(is_prefix_at(input@, 8, enc_cancel_order_by_user_id(q)));
                            }
                            _ => {}
                        }
                    }
                }
                Ok(d)
            } else {
                proof {
                    assert forall|i: DriftV2Instruction| !(wf_instr(i) && input@ == encoding_of(i)) by {
                        if wf_instr(i) && input@ == encoding_of(i) {
                            match i {
                                DriftV2Instruction::CancelOrderByUserId(q) => {
                                    assert(is_prefix_at(input@, 8, enc_cancel_order_by_user_id(q)));
                                }
                                _ => {}
                            }
                        }
                    }
                }
                Err(DecodeError::InvalidEncoding)
            }
        }
    }
}

fn finish_cancel_orders(input: &[u8]) -> (r: Result<DriftV2Instruction, DecodeError>)
    requires
        input@.len() >= 8,
        input@.subrange(0, 8) == enc_u64(CANCEL_ORDERS_TAG),
    ensures
        r matches Ok(d) ==> input@ == encoding_of(d) && wf_instr(d),
        r matches Err(e) ==> e == DecodeError::InvalidEncoding,
        forall|i: DriftV2Instruction| wf_instr(i) && input@ == encoding_of(i)
            ==> (r matches Ok(d) && instr_eqv(d, i)),
{
    proof {
        lemma_enc_lens();
        lemma_auto_spec_u64_to_from_le_bytes();
        assert forall|i: DriftV2Instruction| wf_instr(i) && input@ == encoding_of(i) implies (
            i matches DriftV2Instruction::CancelOrders(_) && is_prefix_at(input@, 8, payload_enc(i))
            && input@.len() == 8 + payload_enc(i).len()
        ) by {
            lemma_prefix_whole(input@);
            lemma_split_prefix(input@, 0, enc_u64(tag_of(i)), payload_enc(i));
            assert(input@.subrange(0, 8) == enc_u64(tag_of(i)));
            assert(tag_of(i) == CANCEL_ORDERS_TAG);
            lemma_variant_of_tag(i);
        }
    }
    match read_cancel_orders(input, 8) {
        None => {
            proof {
                assert forall|i: DriftV2Instruction| !(wf_instr(i) && input@ == encoding_of(i)) by {
                    if wf_instr(i) && input@ == encoding_of(i) {
                        match i {
                            DriftV2Instruction::CancelOrders(q) => {
                                assert(is_prefix_at(input@, 8, enc_cancel_orders(q)));
                            }
                            _ => {}
                        }
                    }
                }
            }
            Err(DecodeError::InvalidEncoding)
        }
        Some((p, end)) => {
            if end == input.len() {
                let d = DriftV2Instruction::CancelOrders(p);
                proof {
                    assert(input@.subrange(0, input@.len() as int) =~= input@);
                    lemma_join_at(input@, 0, 8, end as int);
                    assert(input@ == encoding_of(d));
                    assert forall|i: DriftV2Instruction| wf_instr(i) && input@ == encoding_of(i)
                        implies instr_eqv(d, i) by {
                        match i {
                            DriftV2Instruction::CancelOrders(q) => {
                                assert(is_prefix_at(input@, 8, enc_cancel_orders(q)));
                            }
                            _ => {}
                        }
                    }
                }
                Ok(d)
            } else {
                proof {
                    assert forall|i: DriftV2Instruction| !(wf_instr(i) && input@ == encoding_of(i)) by {
                        if wf_instr(i) && input@ == encoding_of(i) {
                            match i {
                                DriftV2Instruction::CancelOrders(q) => {
                                    assert(is_prefix_at(input@, 8, enc_cancel_orders(q)));
                                }
                                _ => {}
                            }
                        }
                    }
                }
                Err(DecodeError::InvalidEncoding)
            }
        }
    }
}

fn finish_cancel_orders_by_ids(input: &[u8]) -> (r: Result<DriftV2Instruction, DecodeError>)
    requires
        input@.len() >= 8,
        input@.subrange(0, 8) == enc_u64(CANCEL_ORDERS_BY_IDS_TAG),
    ensures
        r matches Ok(d) ==> input@ == encoding_of(d) && wf_instr(d),
        r matches Err(e) ==> e == DecodeError::InvalidEncoding,
        forall|i: DriftV2Instruction| wf_instr(i) && input@ == encoding_of(i)
            ==> (r matches Ok(d) && instr_eqv(d, i)),
{
    proof {
        lemma_enc_lens();
        lemma_auto_spec_u64_to_from_le_bytes();
        assert forall|i: DriftV2Instruction| wf_instr(i) && input@ == encoding_of(i) implies (
            i matches DriftV2Instruction::CancelOrdersByIds(_) && is_prefix_at(input@, 8, payload_enc(i))
            && input@.len() == 8 + payload_enc(i).len()
        ) by {
            lemma_prefix_whole(input@);
            lemma_split_prefix(input@, 0, enc_u64(tag_of(i)), payload_enc(i));
            assert(input@.subrange(0, 8) == enc_u64(tag_of(i)));
            assert(tag_of(i) == CANCEL_ORDERS_BY_IDS_TAG);
            lemma_variant_of_tag(i);
        }
    }
    match read_cancel_orders_by_ids(input, 8) {
        None => {
            proof {
                assert forall|i: DriftV2Instruction| !(wf_instr(i) && input@ == encoding_of(i)) by {
                    if wf_instr(i) && input@ == encoding_of(i) {
                        match i {
                            DriftV2Instruction::CancelOrdersByIds(q) => {
                                assert(is_prefix_at(input@, 8, enc_cancel_orders_by_ids(q)));
                            }
                            _ => {}
                        }
                    }
                }
            }
            Err(DecodeError::InvalidEncoding)
        }
        Some((p, end)) => {
            if end == input.len() {
                let d = DriftV2Instruction::CancelOrdersByIds(p);
                proof {
                    assert(input@.subrange(0, input@.len() as int) =~= input@);
                    lemma_join_at(input@, 0, 8, end as int);
                    assert(input@ == encoding_of(d));
                    assert forall|i: DriftV2Instruction| wf_instr(i) && input@ == encoding_of(i)
                        implies instr_eqv(d, i) by {
                        match i {
                            DriftV2Instruction::CancelOrdersByIds(q) => {
                                assert(is_prefix_at(input@, 8, enc_cancel_orders_by_ids(q)));
                            }
                            _ => {}
                        }
                    }
                }
                Ok(d)
            } else {
                proof {
                    assert forall|i: DriftV2Instruction| !(wf_instr(i) && input@ == encoding_of(i)) by {
                        if wf_instr(i) && input@ == encoding_of(i) {
                            match i {
                                DriftV2Instruction::CancelOrdersByIds(q) => {
                                    assert(is_prefix_at(input@, 8, enc_cancel_orders_by_ids(q)));
                                }
                                _ => {}
                            }
                        }
                    }
                }
                Err(DecodeError::InvalidEncoding)
            }
        }
    }
}

fn finish_modify_order(input: &[u8]) -> (r: Result<DriftV2Instruction, DecodeError>)
    requires
        input@.len() >= 8,
        input@.subrange(0, 8) == enc_u64(MODIFY_ORDER_TAG),
    ensures
        r matches Ok(d) ==> input@ == encoding_of(d) && wf_instr(d),
        r matches Err(e) ==> e == DecodeError::InvalidEncoding,
        forall|i: DriftV2Instruction| wf_instr(i) && input@ == encoding_of(i)
            ==> (r matches Ok(d) && instr_eqv(d, i)),
{
    proof {
        lemma_enc_lens();
        lemma_auto_spec_u64_to_from_le_bytes();
        assert forall|i: DriftV2Instruction| wf_instr(i) && input@ == encoding_of(i) implies (
            i matches DriftV2Instruction::ModifyOrder(_) && is_prefix_at(input@, 8, payload_enc(i))
            && input@.len() == 8 + payload_enc(i).len()
        ) by {
            lemma_prefix_whole(input@);
            lemma_split_prefix(input@, 0, enc_u64(tag_of(i)), payload_enc(i));
            assert(input@.subrange(0, 8) == enc_u64(tag_of(i)));
            assert(tag_of(i) == MODIFY_ORDER_TAG);
            lemma_variant_of_tag(i);
        }
    }
    match read_modify_order(input, 8) {
        None => {
            proof {
                assert forall|i: DriftV2Instruction| !(wf_instr(i) && input@ == encoding_of(i)) by {
                    if wf_instr(i) && input@ == encoding_of(i) {
                        match i {
                            DriftV2Instruction::ModifyOrder(q) => {
                                assert(is_prefix_at(input@, 8, enc_modify_order(q)));
                            }
                            _ => {}
                        }
                    }
                }
            }
            Err(DecodeError::InvalidEncoding)
        }
        Some((p, end)) => {
            if end == input.len() {
                let d = DriftV2Instruction::ModifyOrder(p);
                proof {
                    assert(input@.subrange(0, input@.len() as int) =~= input@);
                    lemma_join_at(input@, 0, 8, end as int);
                    assert(input@ == encoding_of(d));
                    assert forall|i: DriftV2Instruction| wf_instr(i) && input@ == encoding_of(i)
                        implies instr_eqv(d, i) by {
                        match i {
                            DriftV2Instruction::ModifyOrder(q) => {
                                assert(is_prefix_at(input@, 8, enc_modify_order(q)));
                            }
                            _ => {}
                        }
                    }
                }
                Ok(d)
            } else {
                proof {
                    assert forall|i: DriftV2Instruction| !(wf_instr(i) && input@ == encoding_of(i)) by {
                        if wf_instr(i) && input@ == encoding_of(i) {
                            match i {
                                DriftV2Instruction::ModifyOrder(q) => {
                                    assert(is_prefix_at(input@, 8, enc_modify_order(q)));
                                }
                                _ => {}
                            }
                        }
                    }
                }
                Err(DecodeError::InvalidEncoding)
            }
        }
    }
}

fn finish_place_and_take_perp_order(input: &[u8]) -> (r: Result<DriftV2Instruction, DecodeError>)
    requires
        input@.len() >= 8,
        input@.subrange(0, 8) == enc_u64(PLACE_AND_TAKE_PERP_ORDER_TAG),
    ensures
        r matches Ok(d) ==> input@ == encoding_of(d) && wf_instr(d),
        r matches Err(e) ==> e == DecodeError::InvalidEncoding,
        forall|i: DriftV2Instruction| wf_instr(i) && input@ == encoding_of(i)
            ==> (r matches Ok(d) && instr_eqv(d, i)),
{
    proof {
        lemma_enc_lens();
        lemma_auto_spec_u64_to_from_le_bytes();
        assert forall|i: DriftV2Instruction| wf_instr(i) && input@ == encoding_of(i) implies (
            i matches DriftV2Instruction::PlaceAndTakePerpOrder(_) && is_prefix_at(input@, 8, payload_enc(i))
            && input@.len() == 8 + payload_enc(i).len()
        ) by {
            lemma_prefix_whole(input@);
            lemma_split_prefix(input@, 0, enc_u64(tag_of(i)), payload_enc(i));
            assert(input@.subrange(0, 8) == enc_u64(tag_of(i)));
            assert(tag_of(i) == PLACE_AND_TAKE_PERP_ORDER_TAG);
            lemma_variant_of_tag(i);
        }
    }
    match read_place_and_take_perp_order(input, 8) {
        None => {
            proof {
                assert forall|i: DriftV2Instruction| !(wf_instr(i) && input@ == encoding_of(i)) by {
                    if wf_instr(i) && input@ == encoding_of(i) {
                        match i {
                            DriftV2Instruction::PlaceAndTakePerpOrder(q) => {
                                assert(is_prefix_at(input@, 8, enc_place_and_take_perp_order(q)));
                            }
                            _ => {}
                        }
                    }
                }
            }
            Err(DecodeError::InvalidEncoding)
        }
        Some((p, end)) => {
            if end == input.len() {
                let d = DriftV2Instruction::PlaceAndTakePerpOrder(p);
                proof {
                    assert(input@.subrange(0, input@.len() as int) =~= input@);
                    lemma_join_at(input@, 0, 8, end as int);
                    assert(input@ == encoding_of(d));
                    assert forall|i: DriftV2Instruction| wf_instr(i) && input@ == encoding_of(i)
                        implies instr_eqv(d, i) by {
                        match i {
                            DriftV2Instruction::PlaceAndTakePerpOrder(q) => {
                                assert(is_prefix_at(input@, 8, enc_place_and_take_perp_order(q)));
                            }
                            _ => {}
                        }
                    }
                }
                Ok(d)
            } else {
                proof {
                    assert forall|i: DriftV2Instruction| !(wf_instr(i) && input@ == encoding_of(i)) by {
                        if wf_instr(i) && input@ == encoding_of(i) {
                            match i {
                                DriftV2Instruction::PlaceAndTakePerpOrder(q) => {
                                    assert(is_prefix_at(input@, 8, enc_place_and_take_perp_order(q)));
                                }
                                _ => {}
                            }
                        }
                    }
                }
                Err(DecodeError::InvalidEncoding)
            }
        }
    }
}

fn finish_place_and_make_perp_order(input: &[u8]) -> (r: Result<DriftV2Instruction, DecodeError>)
    requires
        input@.len() >= 8,
        input@.subrange(0, 8) == enc_u64(PLACE_AND_MAKE_PERP_ORDER_TAG),
    ensures
        r matches Ok(d) ==> input@ == encoding_of(d) && wf_instr(d),
        r matches Err(e) ==> e == DecodeError::InvalidEncoding,
        forall|i: DriftV2Instruction| wf_instr(i) && input@ == encoding_of(i)
            ==> (r matches Ok(d) && instr_eqv(d, i)),
{
    proof {
        lemma_enc_lens();
        lemma_auto_spec_u64_to_from_le_bytes();
        assert forall|i: DriftV2Instruction| wf_instr(i) && input@ == encoding_of(i) implies (
            i matches DriftV2Instruction::PlaceAndMakePerpOrder(_) && is_prefix_at(input@, 8, payload_enc(i))
            && input@.len() == 8 + payload_enc(i).len()
        ) by {
            lemma_prefix_whole(input@);
            lemma_split_prefix(input@, 0, enc_u64(tag_of(i)), payload_enc(i));
            assert(input@.subrange(0, 8) == enc_u64(tag_of(i)));
            assert(tag_of(i) == PLACE_AND_MAKE_PERP_ORDER_TAG);
            lemma_variant_of_tag(i);
        }
    }
    match read_place_and_make_perp_order(input, 8) {
        None => {
            proof {
                assert forall|i: DriftV2Instruction| !(wf_instr(i) && input@ == encoding_of(i)) by {
                    if wf_instr(i) && input@ == encoding_of(i) {
                        match i {
                            DriftV2Instruction::PlaceAndMakePerpOrder(q) => {
                                assert(is_prefix_at(input@, 8, enc_place_and_make_perp_order(q)));
                            }
                            _ => {}
                        }
                    }
                }
            }
            Err(DecodeError::InvalidEncoding)
        }
        Some((p, end)) => {
            if end == input.len() {
                let d = DriftV2Instruction::PlaceAndMakePerpOrder(p);
                proof {
                    assert(input@.subrange(0, input@.len() as int) =~= input@);
                    lemma_join_at(input@, 0, 8, end as int);
                    assert(input@ == encoding_of(d));
                    assert forall|i: DriftV2Instruction| wf_instr(i) && input@ == encoding_of(i)
                        implies instr_eqv(d, i) by {
                        match i {
                            DriftV2Instruction::PlaceAndMakePerpOrder(q) => {
                                assert(is_prefix_at(input@, 8, enc_place_and_make_perp_order(q)));
                            }
                            _ => {}
                        }
                    }
                }
                Ok(d)
            } else {
                proof {
                    assert forall|i: DriftV2Instruction| !(wf_instr(i) && input@ == encoding_of(i)) by {
                        if wf_instr(i) && input@ == encoding_of(i) {
                            match i {
                                DriftV2Instruction::PlaceAndMakePerpOrder(q) => {
                                    assert(is_prefix_at(input@, 8, enc_place_and_make_perp_order(q)));
                                }
                                _ => {}
                            }
                        }
                    }
                }
                Err(DecodeError::InvalidEncoding)
            }
        }
    }
}

fn finish_place_spot_order(input: &[u8]) -> (r: Result<DriftV2Instruction, DecodeError>)
    requires
        input@.len() >= 8,
        input@.subrange(0, 8) == enc_u64(PLACE_SPOT_ORDER_TAG),
    ensures
        r matches Ok(d) ==> input@ == encoding_of(d) && wf_instr(d),
        r matches Err(e) ==> e == DecodeError::InvalidEncoding,
        forall|i: DriftV2Instruction| wf_instr(i) && input@ == encoding_of(i)
            ==> (r matches Ok(d) && instr_eqv(d, i)),
{
    proof {
        lemma_enc_lens();
        lemma_auto_spec_u64_to_from_le_bytes();
        assert forall|i: DriftV2Instruction| wf_instr(i) && input@ == encoding_of(i) implies (
            i matches DriftV2Instruction::PlaceSpotOrder(_) && is_prefix_at(input@, 8, payload_enc(i))
            && input@.len() == 8 + payload_enc(i).len()
        ) by {
            lemma_prefix_whole(input@);
            lemma_split_prefix(input@, 0, enc_u64(tag_of(i)), payload_enc(i));
            assert(input@.subrange(0, 8) == enc_u64(tag_of(i)));
            assert(tag_of(i) == PLACE_SPOT_ORDER_TAG);
            lemma_variant_of_tag(i);
        }
    }
    match read_place_spot_order(input, 8) {
        None => {
            proof {
                assert forall|i: DriftV2Instruction| !(wf_instr(i) && input@ == encoding_of(i)) by {
                    if wf_instr(i) && input@ == encoding_of(i) {
                        match i {
                            DriftV2Instruction::PlaceSpotOrder(q) => {
                                assert(is_prefix_at(input@, 8, enc_place_spot_order(q)));
                            }
                            _ => {}
                        }
                    }
                }
            }
            Err(DecodeError::InvalidEncoding)
        }
        Some((p, end)) => {
            if end == input.len() {
                let d = DriftV2Instruction::PlaceSpotOrder(p);
                proof {
                    assert(input@.subrange(0, input@.len() as int) =~= input@);
                    lemma_join_at(input@, 0, 8, end as int);
                    assert(input@ == encoding_of(d));
                    assert forall|i: DriftV2Instruction| wf_instr(i) && input@ == encoding_of(i)
                        implies instr_eqv(d, i) by {
                        match i {
                            DriftV2Instruction::PlaceSpotOrder(q) => {
                                assert(is_prefix_at(input@, 8, enc_place_spot_order(q)));
                            }
                            _ => {}
                        }
                    }
                }
                Ok(d)
            } else {
                proof {
                    assert forall|i: DriftV2Instruction| !(wf_instr(i) && input@ == encoding_of(i)) by {
                        if wf_instr(i) && input@ == encoding_of(i) {
                            match i {
                                DriftV2Instruction::PlaceSpotOrder(q) => {
                                    assert(is_prefix_at(input@, 8, enc_place_spot_order(q)));
                                }
                                _ => {}
                            }
                        }
                    }
                }
                Err(DecodeError::InvalidEncoding)
            }
        }
    }
}

fn finish_place_orders(input: &[u8]) -> (r: Result<DriftV2Instruction, DecodeError>)
    requires
        input@.len() >= 8,
        input@.subrange(0, 8) == enc_u64(PLACE_ORDERS_TAG),
    ensures
        r matches Ok(d) ==> input@ == encoding_of(d) && wf_instr(d),
        r matches Err(e) ==> e == DecodeError::InvalidEncoding,
        forall|i: DriftV2Instruction| wf_instr(i) && input@ == encoding_of(i)
            ==> (r matches Ok(d) && instr_eqv(d, i)),
{
    proof {
        lemma_enc_lens();
        lemma_auto_spec_u64_to_from_le_bytes();
        assert forall|i: DriftV2Instruction| wf_instr(i) && input@ == encoding_of(i) implies (
            i matches DriftV2Instruction::PlaceOrders(_) && is_prefix_at(input@, 8, payload_enc(i))
            && input@.len() == 8 + payload_enc(i).len()
        ) by {
            lemma_prefix_whole(input@);
            lemma_split_prefix(input@, 0, enc_u64(tag_of(i)), payload_enc(i));
            assert(input@.subrange(0, 8) == enc_u64(tag_of(i)));
            assert(tag_of(i) == PLACE_ORDERS_TAG);
            lemma_variant_of_tag(i);
        }
    }
    match read_place_orders(input, 8) {
        None => {
            proof {
                assert forall|i: DriftV2Instruction| !(wf_instr(i) && input@ == encoding_of(i)) by {
                    if wf_instr(i) && input@ == encoding_of(i) {
                        match i {
                            DriftV2Instruction::PlaceOrders(q) => {
                                assert(is_prefix_at(input@, 8, enc_place_orders(q)));
                            }
                            _ => {}
                        }
                    }
                }
            }
            Err(DecodeError::InvalidEncoding)
        }
        Some((p, end)) => {
            if end == input.len() {
                let d = DriftV2Instruction::PlaceOrders(p);
                proof {
                    assert(input@.subrange(0, input@.len() as int) =~= input@);
                    lemma_join_at(input@, 0, 8, end as int);
                    assert(input@ == encoding_of(d));
                    assert forall|i: DriftV2Instruction| wf_instr(i) && input@ == encoding_of(i)
                        implies instr_eqv(d, i) by {
                        match i {
                            DriftV2Instruction::PlaceOrders(q) => {
                                assert(is_prefix_at(input@, 8, enc_place_orders(q)));
                            }
                            _ => {}
                        }
                    }
                }
                Ok(d)
            } else {
                proof {
                    assert forall|i: DriftV2Instruction| !(wf_instr(i) && input@ == encoding_of(i)) by {
                        if wf_instr(i) && input@ == encoding_of(i) {
                            match i {
                                DriftV2Instruction::PlaceOrders(q) => {
                                    assert(is_prefix_at(input@, 8, enc_place_orders(q)));
                                }
                                _ => {}
                            }
                        }
                    }
                }
                Err(DecodeError::InvalidEncoding)
            }
        }
    }
}

fn finish_begin_swap(input: &[u8]) -> (r: Result<DriftV2Instruction, DecodeError>)
    requires
        input@.len() >= 8,
        input@.subrange(0, 8) == enc_u64(BEGIN_SWAP_TAG),
    ensures
        r matches Ok(d) ==> input@ == encoding_of(d) && wf_instr(d),
        r matches Err(e) ==> e == DecodeError::InvalidEncoding,
        forall|i: DriftV2Instruction| wf_instr(i) && input@ == encoding_of(i)
            ==> (r matches Ok(d) && instr_eqv(d, i)),
{
    proof {
        lemma_enc_lens();
        lemma_auto_spec_u64_to_from_le_bytes();
        assert forall|i: DriftV2Instruction| wf_instr(i) && input@ == encoding_of(i) implies (
            i matches DriftV2Instruction::BeginSwap(_) && is_prefix_at(input@, 8, payload_enc(i))
            && input@.len() == 8 + payload_enc(i).len()
        ) by {
            lemma_prefix_whole(input@);
            lemma_split_prefix(input@, 0, enc_u64(tag_of(i)), payload_enc(i));
            assert(input@.subrange(0, 8) == enc_u64(tag_of(i)));
            assert(tag_of(i) == BEGIN_SWAP_TAG);
            lemma_variant_of_tag(i);
        }
    }
    match read_begin_swap(input, 8) {
        None => {
            proof {
                assert forall|i: DriftV2Instruction| !(wf_instr(i) && input@ == encoding_of(i)) by {
                    if wf_instr(i) && input@ == encoding_of(i) {
                        match i {
                            DriftV2Instruction::BeginSwap(q) => {
                                assert(is_prefix_at(input@, 8, enc_begin_swap(q)));
                            }
                            _ => {}
                        }
                    }
                }
            }
            Err(DecodeError::InvalidEncoding)
        }
        Some((p, end)) => {
            if end == input.len() {
                let d = DriftV2Instruction::BeginSwap(p);
                proof {
                    assert(input@.subrange(0, input@.len() as int) =~= input@);
                    lemma_join_at(input@, 0, 8, end as int);
                    assert(input@ == encoding_of(d));
                    assert forall|i: DriftV2Instruction| wf_instr(i) && input@ == encoding_of(i)
                        implies instr_eqv(d, i) by {
                        match i {
                            DriftV2Instruction::BeginSwap(q) => {
                                assert(is_prefix_at(input@, 8, enc_begin_swap(q)));
                            }
                            _ => {}
                        }
                    }
                }
                Ok(d)
            } else {
                proof {
                    assert forall|i: DriftV2Instruction| !(wf_instr(i) && input@ == encoding_of(i)) by {
                        if wf_instr(i) && input@ == encoding_of(i) {
                            match i {
                                DriftV2Instruction::BeginSwap(q) => {
                                    assert(is_prefix_at(input@, 8, enc_begin_swap(q)));
                                }
                                _ => {}
                            }
                        }
                    }
                }
                Err(DecodeError::InvalidEncoding)
            }
        }
    }
}

fn finish_end_swap(input: &[u8]) -> (r: Result<DriftV2Instruction, DecodeError>)
    requires
        input@.len() >= 8,
        input@.subrange(0, 8) == enc_u64(END_SWAP_TAG),
    ensures
        r matches Ok(d) ==> input@ == encoding_of(d) && wf_instr(d),
        r matches Err(e) ==> e == DecodeError::InvalidEncoding,
        forall|i: DriftV2Instruction| wf_instr(i) && input@ == encoding_of(i)
            ==> (r matches Ok(d) && instr_eqv(d, i)),
{
    proof {
        lemma_enc_lens();
        lemma_auto_spec_u64_to_from_le_bytes();
        assert forall|i: DriftV2Instruction| wf_instr(i) && input@ == encoding_of(i) implies (
            i matches DriftV2Instruction::EndSwap(_) && is_prefix_at(input@, 8, payload_enc(i))
            && input@.len() == 8 + payload_enc(i).len()
        ) by {
            lemma_prefix_whole(input@);
            lemma_split_prefix(input@, 0, enc_u64(tag_of(i)), payload_enc(i));
            assert(input@.subrange(0, 8) == enc_u64(tag_of(i)));
            assert(tag_of(i) == END_SWAP_TAG);
            lemma_variant_of_tag(i);
        }
    }
    match read_end_swap(input, 8) {
        None => {
            proof {
                assert forall|i: DriftV2Instruction| !(wf_instr(i) && input@ == encoding_of(i)) by {
                    if wf_instr(i) && input@ == encoding_of(i) {
                        match i {
                            DriftV2Instruction::EndSwap(q) => {
                                assert(is_prefix_at(input@, 8, enc_end_swap(q)));
                            }
                            _ => {}
                        }
                    }
                }
            }
            Err(DecodeError::InvalidEncoding)
        }
        Some((p, end)) => {
            if end == input.len() {
                let d = DriftV2Instruction::EndSwap(p);
                proof {
                    assert(input@.subrange(0, input@.len() as int) =~= input@);
                    lemma_join_at(input@, 0, 8, end as int);
                    assert(input@ == encoding_of(d));
                    assert forall|i: DriftV2Instruction| wf_instr(i) && input@ == encoding_of(i)
                        implies instr_eqv(d, i) by {
                        match i {
                            DriftV2Instruction::EndSwap(q) => {
                                assert(is_prefix_at(input@, 8, enc_end_swap(q)));
                            }
                            _ => {}
                        }
                    }
                }
                Ok(d)
            } else {
                proof {
                    assert forall|i: DriftV2Instruction| !(wf_instr(i) && input@ == encoding_of(i)) by {
                        if wf_instr(i) && input@ == encoding_of(i) {
                            match i {
                                DriftV2Instruction::EndSwap(q) => {
                                    assert(is_prefix_at(input@, 8, enc_end_swap(q)));
                                }
                                _ => {}
                            }
                        }
                    }
                }
                Err(DecodeError::InvalidEncoding)
            }
        }
    }
}

fn finish_add_perp_lp_shares(input: &[u8]) -> (r: Result<DriftV2Instruction, DecodeError>)
    requires
        input@.len() >= 8,
        input@.subrange(0, 8) == enc_u64(ADD_PERP_LP_SHARES_TAG),
    ensures
        r matches Ok(d) ==> input@ == encoding_of(d) && wf_instr(d),
        r matches Err(e) ==> e == DecodeError::InvalidEncoding,
        forall|i: DriftV2Instruction| wf_instr(i) && input@ == encoding_of(i)
            ==> (r matches Ok(d) && instr_eqv(d, i)),
{
    proof {
        lemma_enc_lens();
        lemma_auto_spec_u64_to_from_le_bytes();
        assert forall|i: DriftV2Instruction| wf_instr(i) && input@ == encoding_of(i) implies (
            i matches DriftV2Instruction::AddPerpLpShares(_) && is_prefix_at(input@, 8, payload_enc(i))
            && input@.len() == 8 + payload_enc(i).len()
        ) by {
            lemma_prefix_whole(input@);
            lemma_split_prefix(input@, 0, enc_u64(tag_of(i)), payload_enc(i));
            assert(input@.subrange(0, 8) == enc_u64(tag_of(i)));
            assert(tag_of(i) == ADD_PERP_LP_SHARES_TAG);
            lemma_variant_of_tag(i);
        }
    }
    match read_add_perp_lp_shares(input, 8) {
        None => {
            proof {
                assert forall|i: DriftV2Instruction| !(wf_instr(i) && input@ == encoding_of(i)) by {
                    if wf_instr(i) && input@ == encoding_of(i) {
                        match i {
                            DriftV2Instruction::AddPerpLpShares(q) => {
                                assert(is_prefix_at(input@, 8, enc_add_perp_lp_shares(q)));
                            }
                            _ => {}
                        }
                    }
                }
            }
            Err(DecodeError::InvalidEncoding)
        }
        Some((p, end)) => {
            if end == input.len() {
                let d = DriftV2Instruction::AddPerpLpShares(p);
                proof {
                    assert(input@.subrange(0, input@.len() as int) =~= input@);
                    lemma_join_at(input@, 0, 8, end as int);
                    assert(input@ == encoding_of(d));
                    assert forall|i: DriftV2Instruction| wf_instr(i) && input@ == encoding_of(i)
                        implies instr_eqv(d, i) by {
                        match i {
                            DriftV2Instruction::AddPerpLpShares(q) => {
                                assert(is_prefix_at(input@, 8, enc_add_perp_lp_shares(q)));
                            }
                            _ => {}
                        }
                    }
                }
                Ok(d)
            } else {
                proof {
                    assert forall|i: DriftV2Instruction| !(wf_instr(i) && input@ == encoding_of(i)) by {
                        if wf_instr(i) && input@ == encoding_of(i) {
                            match i {
                                DriftV2Instruction::AddPerpLpShares(q) => {
                                    assert(is_prefix_at(input@, 8, enc_add_perp_lp_shares(q)));
                                }
                                _ => {}
                            }
                        }
                    }
                }
                Err(DecodeError::InvalidEncoding)
            }
        }
    }
}

fn finish_remove_perp_lp_shares(input: &[u8]) -> (r: Result<DriftV2Instruction, DecodeError>)
    requires
        input@.len() >= 8,
        input@.subrange(0, 8) == enc_u64(REMOVE_PERP_LP_SHARES_TAG),
    ensures
        r matches Ok(d) ==> input@ == encoding_of(d) && wf_instr(d),
        r matches Err(e) ==> e == DecodeError::InvalidEncoding,
        forall|i: DriftV2Instruction| wf_instr(i) && input@ == encoding_of(i)
            ==> (r matches Ok(d) && instr_eqv(d, i)),
{
    proof {
        lemma_enc_lens();
        lemma_auto_spec_u64_to_from_le_bytes();
        assert forall|i: DriftV2Instruction| wf_instr(i) && input@ == encoding_of(i) implies (
            i matches DriftV2Instruction::RemovePerpLpShares(_) && is_prefix_at(input@, 8, payload_enc(i))
            && input@.len() == 8 + payload_enc(i).len()
        ) by {
            lemma_prefix_whole(input@);
            lemma_split_prefix(input@, 0, enc_u64(tag_of(i)), payload_enc(i));
            assert(input@.subrange(0, 8) == enc_u64(tag_of(i)));
            assert(tag_of(i) == REMOVE_PERP_LP_SHARES_TAG);
            lemma_variant_of_tag(i);
        }
    }
    match read_remove_perp_lp_shares(input, 8) {
        None => {
            proof {
                assert forall|i: DriftV2Instruction| !(wf_instr(i) && input@ == encoding_of(i)) by {
                    if wf_instr(i) && input@ == encoding_of(i) {
                        match i {
                            DriftV2Instruction::RemovePerpLpShares(q) => {
                                assert(is_prefix_at(input@, 8, enc_remove_perp_lp_shares(q)));
                            }
                            _ => {}
                        }
                    }
                }
            }
            Err(DecodeError::InvalidEncoding)
        }
        Some((p, end)) => {
            if end == input.len() {
                let d = DriftV2Instruction::RemovePerpLpShares(p);
                proof {
                    assert(input@.subrange(0, input@.len() as int) =~= input@);
                    lemma_join_at(input@, 0, 8, end as int);
                    assert(input@ == encoding_of(d));
                    assert forall|i: DriftV2Instruction| wf_instr(i) && input@ == encoding_of(i)
                        implies instr_eqv(d, i) by {
                        match i {
                            DriftV2Instruction::RemovePerpLpShares(q) => {
                                assert(is_prefix_at(input@, 8, enc_remove_perp_lp_shares(q)));
                            }
                            _ => {}
                        }
                    }
                }
                Ok(d)
            } else {
                proof {
                    assert forall|i: DriftV2Instruction| !(wf_instr(i) && input@ == encoding_of(i)) by {
                        if wf_instr(i) && input@ == encoding_of(i) {
                            match i {
                                DriftV2Instruction::RemovePerpLpShares(q) => {
                                    assert(is_prefix_at(input@, 8, enc_remove_perp_lp_shares(q)));
                                }
                                _ => {}
                            }
                        }
                    }
                }
                Err(DecodeError::InvalidEncoding)
            }
        }
    }
}

fn finish_update_user_custom_margin_ratio(input: &[u8]) -> (r: Result<DriftV2Instruction, DecodeError>)
    requires
        input@.len() >= 8,
        input@.subrange(0, 8) == enc_u64(UPDATE_USER_CUSTOM_MARGIN_RATIO_TAG),
    ensures
        r matches Ok(d) ==> input@ == encoding_of(d) && wf_instr(d),
        r matches Err(e) ==> e == DecodeError::InvalidEncoding,
        forall|i: DriftV2Instruction| wf_instr(i) && input@ == encoding_of(i)
            ==> (r matches Ok(d) && instr_eqv(d, i)),
{
    proof {
        lemma_enc_lens();
        lemma_auto_spec_u64_to_from_le_bytes();
        assert forall|i: DriftV2Instruction| wf_instr(i) && input@ == encoding_of(i) implies (
            i matches DriftV2Instruction::UpdateUserCustomMarginRatio(_) && is_prefix_at(input@, 8, payload_enc(i))
            && input@.len() == 8 + payload_enc(i).len()
        ) by {
            lemma_prefix_whole(input@);
            lemma_split_prefix(input@, 0, enc_u64(tag_of(i)), payload_enc(i));
            assert(input@.subrange(0, 8) == enc_u64(tag_of(i)));
            assert(tag_of(i) == UPDATE_USER_CUSTOM_MARGIN_RATIO_TAG);
            lemma_variant_of_tag(i);
        }
    }
    match read_update_user_custom_margin_ratio(input, 8) {
        None => {
            proof {
                assert forall|i: DriftV2Instruction| !(wf_instr(i) && input@ == encoding_of(i)) by {
                    if wf_instr(i) && input@ == encoding_of(i) {
                        match i {
                            DriftV2Instruction::UpdateUserCustomMarginRatio(q) => {
                                assert(is_prefix_at(input@, 8, enc_update_user_custom_margin_ratio(q)));
                            }
                            _ => {}
                        }
                    }
                }
            }
            Err(DecodeError::InvalidEncoding)
        }
        Some((p, end)) => {
            if end == input.len() {
                let d = DriftV2Instruction::UpdateUserCustomMarginRatio(p);
                proof {
                    assert(input@.subrange(0, input@.len() as int) =~= input@);
                    lemma_join_at(input@, 0, 8, end as int);
                    assert(input@ == encoding_of(d));
                    assert forall|i: DriftV2Instruction| wf_instr(i) && input@ == encoding_of(i)
                        implies instr_eqv(d, i) by {
                        match i {
                            DriftV2Instruction::UpdateUserCustomMarginRatio(q) => {
                                assert(is_prefix_at(input@, 8, enc_update_user_custom_margin_ratio(q)));
                            }
                            _ => {}
                        }
                    }
                }
                Ok(d)
            } else {
                proof {
                    assert forall|i: DriftV2Instruction| !(wf_instr(i) && input@ == encoding_of(i)) by {
                        if wf_instr(i) && input@ == encoding_of(i) {
                            match i {
                                DriftV2Instruction::UpdateUserCustomMarginRatio(q) => {
                                    assert(is_prefix_at(input@, 8, enc_update_user_custom_margin_ratio(q)));
                                }
                                _ => {}
                            }
                        }
                    }
                }
                Err(DecodeError::InvalidEncoding)
            }
        }
    }
}

fn finish_update_user_margin_trading_enabled(input: &[u8]) -> (r: Result<DriftV2Instruction, DecodeError>)
    requires
        input@.len() >= 8,
        input@.subrange(0, 8) == enc_u64(UPDATE_USER_MARGIN_TRADING_ENABLED_TAG),
    ensures
        r matches Ok(d) ==> input@ == encoding_of(d) && wf_instr(d),
        r matches Err(e) ==> e == DecodeError::InvalidEncoding,
        forall|i: DriftV2Instruction| wf_instr(i) && input@ == encoding_of(i)
            ==> (r matches Ok(d) && instr_eqv(d, i)),
{
    proof {
        lemma_enc_lens();
        lemma_auto_spec_u64_to_from_le_bytes();
        assert forall|i: DriftV2Instruction| wf_instr(i) && input@ == encoding_of(i) implies (
            i matches DriftV2Instruction::UpdateUserMarginTradingEnabled(_) && is_prefix_at(input@, 8, payload_enc(i))
            && input@.len() == 8 + payload_enc(i).len()
        ) by {
            lemma_prefix_whole(input@);
            lemma_split_prefix(input@, 0, enc_u64(tag_of(i)), payload_enc(i));
            assert(input@.subrange(0, 8) == enc_u64(tag_of(i)));
            assert(tag_of(i) == UPDATE_USER_MARGIN_TRADING_ENABLED_TAG);
            lemma_variant_of_tag(i);
        }
    }
    match read_update_user_margin_trading_enabled(input, 8) {
        None => {
            proof {
                assert forall|i: DriftV2Instruction| !(wf_instr(i) && input@ == encoding_of(i)) by {
                    if wf_instr(i) && input@ == encoding_of(i) {
                        match i {
                            DriftV2Instruction::UpdateUserMarginTradingEnabled(q) => {
                                assert(is_prefix_at(input@, 8, enc_update_user_margin_trading_enabled(q)));
                            }
                            _ => {}
                        }
                    }
                }
            }
            Err(DecodeError::InvalidEncoding)
        }
        Some((p, end)) => {
            if end == input.len() {
                let d = DriftV2Instruction::UpdateUserMarginTradingEnabled(p);
                proof {
                    assert(input@.subrange(0, input@.len() as int) =~= input@);
                    lemma_join_at(input@, 0, 8, end as int);
                    assert(input@ == encoding_of(d));
                    assert forall|i: DriftV2Instruction| wf_instr(i) && input@ == encoding_of(i)
                        implies instr_eqv(d, i) by {
                        match i {
                            DriftV2Instruction::UpdateUserMarginTradingEnabled(q) => {
                                assert(is_prefix_at(input@, 8, enc_update_user_margin_trading_enabled(q)));
                            }
                            _ => {}
                        }
                    }
                }
                Ok(d)
            } else {
                proof {
                    assert forall|i: DriftV2Instruction| !(wf_instr(i) && input@ == encoding_of(i)) by {
                        if wf_instr(i) && input@ == encoding_of(i) {
                            match i {
                                DriftV2Instruction::UpdateUserMarginTradingEnabled(q) => {
                                    assert(is_prefix_at(input@, 8, enc_update_user_margin_trading_enabled(q)));
                                }
                                _ => {}
                            }
                        }
                    }
                }
                Err(DecodeError::InvalidEncoding)
            }
        }
    }
}

fn finish_delete_user(input: &[u8]) -> (r: Result<DriftV2Instruction, DecodeError>)
    requires
        input@.len() >= 8,
        input@.subrange(0, 8) == enc_u64(DELETE_USER_TAG),
    ensures
        r matches Ok(d) ==> input@ == encoding_of(d) && wf_instr(d),
        r matches Err(e) ==> e == DecodeError::InvalidEncoding,
        forall|i: DriftV2Instruction| wf_instr(i) && input@ == encoding_of(i)
            ==> (r matches Ok(d) && instr_eqv(d, i)),
{
    proof {
        lemma_enc_lens();
        lemma_auto_spec_u64_to_from_le_bytes();
        assert forall|i: DriftV2Instruction| wf_instr(i) && input@ == encoding_of(i) implies (
            i matches DriftV2Instruction::DeleteUser && is_prefix_at(input@, 8, payload_enc(i))
            && input@.len() == 8 + payload_enc(i).len()
        ) by {
            lemma_prefix_whole(input@);
            lemma_split_prefix(input@, 0, enc_u64(tag_of(i)), payload_enc(i));
            assert(input@.subrange(0, 8) == enc_u64(tag_of(i)));
            assert(tag_of(i) == DELETE_USER_TAG);
            lemma_variant_of_tag(i);
        }
    }
    if input.len() == 8 {
        let d = DriftV2Instruction::DeleteUser;
        proof {
            assert(input@ =~= input@.subrange(0, 8));
            assert(enc_u64(DELETE_USER_TAG) + Seq::<u8>::empty() =~= enc_u64(DELETE_USER_TAG));
            assert(input@ == encoding_of(d));
        }
        Ok(d)
    } else {
        Err(DecodeError::InvalidEncoding)
    }
}

fn finish_reclaim_rent(input: &[u8]) -> (r: Result<DriftV2Instruction, DecodeError>)
    requires
        input@.len() >= 8,
        input@.subrange(0, 8) == enc_u64(RECLAIM_RENT_TAG),
    ensures
        r matches Ok(d) ==> input@ == encoding_of(d) && wf_instr(d),
        r matches Err(e) ==> e == DecodeError::InvalidEncoding,
        forall|i: DriftV2Instruction| wf_instr(i) && input@ == encoding_of(i)
            ==> (r matches Ok(d) && instr_eqv(d, i)),
{
    proof {
        lemma_enc_lens();
        lemma_auto_spec_u64_to_from_le_bytes();
        assert forall|i: DriftV2Instruction| wf_instr(i) && input@ == encoding_of(i) implies (
            i matches DriftV2Instruction::ReclaimRent && is_prefix_at(input@, 8, payload_enc(i))
            && input@.len() == 8 + payload_enc(i).len()
        ) by {
            lemma_prefix_whole(input@);
            lemma_split_prefix(input@, 0, enc_u64(tag_of(i)), payload_enc(i));
            assert(input@.subrange(0, 8) == enc_u64(tag_of(i)));
            assert(tag_of(i) == RECLAIM_RENT_TAG);
            lemma_variant_of_tag(i);
        }
    }
    if input.len() == 8 {
        let d = DriftV2Instruction::ReclaimRent;
        proof {
            assert(input@ =~= input@.subrange(0, 8));
            assert(enc_u64(RECLAIM_RENT_TAG) + Seq::<u8>::empty() =~= enc_u64(RECLAIM_RENT_TAG));
            assert(input@ == encoding_of(d));
        }
        Ok(d)
    } else {
        Err(DecodeError::InvalidEncoding)
    }
}

fn finish_fill_perp_order(input: &[u8]) -> (r: Result<DriftV2Instruction, DecodeError>)
    requires
        input@.len() >= 8,
        input@.subrange(0, 8) == enc_u64(FILL_PERP_ORDER_TAG),
    ensures
        r matches Ok(d) ==> input@ == encoding_of(d) && wf_instr(d),
        r matches Err(e) ==> e == DecodeError::InvalidEncoding,
        forall|i: DriftV2Instruction| wf_instr(i) && input@ == encoding_of(i)
            ==> (r matches Ok(d) && instr_eqv(d, i)),
{
    proof {
        lemma_enc_lens();
        lemma_auto_spec_u64_to_from_le_bytes();
        assert forall|i: DriftV2Instruction| wf_instr(i) && input@ == encoding_of(i) implies (
            i matches DriftV2Instruction::FillPerpOrder(_) && is_prefix_at(input@, 8, payload_enc(i))
            && input@.len() == 8 + payload_enc(i).len()
        ) by {
            lemma_prefix_whole(input@);
            lemma_split_prefix(input@, 0, enc_u64(tag_of(i)), payload_enc(i));
            assert(input@.subrange(0, 8) == enc_u64(tag_of(i)));
            assert(tag_of(i) == FILL_PERP_ORDER_TAG);
            lemma_variant_of_tag(i);
        }
    }
    match read_fill_perp_order(input, 8) {
        None => {
            proof {
                assert forall|i: DriftV2Instruction| !(wf_instr(i) && input@ == encoding_of(i)) by {
                    if wf_instr(i) && input@ == encoding_of(i) {
                        match i {
                            DriftV2Instruction::FillPerpOrder(q) => {
                                assert(is_prefix_at(input@, 8, enc_fill_perp_order(q)));
                            }
                            _ => {}
                        }
                    }
                }
            }
            Err(DecodeError::InvalidEncoding)
        }
        Some((p, end)) => {
            if end == input.len() {
                let d = DriftV2Instruction::FillPerpOrder(p);
                proof {
                    assert(input@.subrange(0, input@.len() as int) =~= input@);
                    lemma_join_at(input@, 0, 8, end as int);
                    assert(input@ == encoding_of(d));
                    assert forall|i: DriftV2Instruction| wf_instr(i) && input@ == encoding_of(i)
                        implies instr_eqv(d, i) by {
                        match i {
                            DriftV2Instruction::FillPerpOrder(q) => {
                                assert(is_prefix_at(input@, 8, enc_fill_perp_order(q)));
                            }
                            _ => {}
                        }
                    }
                }
                Ok(d)
            } else {
                proof {
                    assert forall|i: DriftV2Instruction| !(wf_instr(i) && input@ == encoding_of(i)) by {
                        if wf_instr(i) && input@ == encoding_of(i) {
                            match i {
                                DriftV2Instruction::FillPerpOrder(q) => {
                                    assert(is_prefix_at(input@, 8, enc_fill_perp_order(q)));
                                }
                                _ => {}
                            }
                        }
                    }
                }
                Err(DecodeError::InvalidEncoding)
            }
        }
    }
}

fn finish_revert_fill(input: &[u8]) -> (r: Result<DriftV2Instruction, DecodeError>)
    requires
        input@.len() >= 8,
        input@.subrange(0, 8) == enc_u64(REVERT_FILL_TAG),
    ensures
        r matches Ok(d) ==> input@ == encoding_of(d) && wf_instr(d),
        r matches Err(e) ==> e == DecodeError::InvalidEncoding,
        forall|i: DriftV2Instruction| wf_instr(i) && input@ == encoding_of(i)
            ==> (r matches Ok(d) && instr_eqv(d, i)),
{
    proof {
        lemma_enc_lens();
        lemma_auto_spec_u64_to_from_le_bytes();
        assert forall|i: DriftV2Instruction| wf_instr(i) && input@ == encoding_of(i) implies (
            i matches DriftV2Instruction::RevertFill && is_prefix_at(input@, 8, payload_enc(i))
            && input@.len() == 8 + payload_enc(i).len()
        ) by {
            lemma_prefix_whole(input@);
            lemma_split_prefix(input@, 0, enc_u64(tag_of(i)), payload_enc(i));
            assert(input@.subrange(0, 8) == enc_u64(tag_of(i)));
            assert(tag_of(i) == REVERT_FILL_TAG);
            lemma_variant_of_tag(i);
        }
    }
    if input.len() == 8 {
        let d = DriftV2Instruction::RevertFill;
        proof {
            assert(input@ =~= input@.subrange(0, 8));
            assert(enc_u64(REVERT_FILL_TAG) + Seq::<u8>::empty() =~= enc_u64(REVERT_FILL_TAG));
            assert(input@ == encoding_of(d));
        }
        Ok(d)
    } else {
        Err(DecodeError::InvalidEncoding)
    }
}

fn finish_fill_spot_order(input: &[u8]) -> (r: Result<DriftV2Instruction, DecodeError>)
    requires
        input@.len() >= 8,
        input@.subrange(0, 8) == enc_u64(FILL_SPOT_ORDER_TAG),
    ensures
        r matches Ok(d) ==> input@ == encoding_of(d) && wf_instr(d),
        r matches Err(e) ==> e == DecodeError::InvalidEncoding,
        forall|i: DriftV2Instruction| wf_instr(i) && input@ == encoding_of(i)
            ==> (r matches Ok(d) && instr_eqv(d, i)),
{
    proof {
        lemma_enc_lens();
        lemma_auto_spec_u64_to_from_le_bytes();
        assert forall|i: DriftV2Instruction| wf_instr(i) && input@ == encoding_of(i) implies (
            i matches DriftV2Instruction::FillSpotOrder(_) && is_prefix_at(input@, 8, payload_enc(i))
            && input@.len() == 8 + payload_enc(i).len()
        ) by {
            lemma_prefix_whole(input@);
            lemma_split_prefix(input@, 0, enc_u64(tag_of(i)), payload_enc(i));
            assert(input@.subrange(0, 8) == enc_u64(tag_of(i)));
            assert(tag_of(i) == FILL_SPOT_ORDER_TAG);
            lemma_variant_of_tag(i);
        }
    }
    match read_fill_spot_order(input, 8) {
        None => {
            proof {
                assert forall|i: DriftV2Instruction| !(wf_instr(i) && input@ == encoding_of(i)) by {
                    if wf_instr(i) && input@ == encoding_of(i) {
                        match i {
                            DriftV2Instruction::FillSpotOrder(q) => {
                                assert(is_prefix_at(input@, 8, enc_fill_spot_order(q)));
                            }
                            _ => {}
                        }
                    }
                }
            }
            Err(DecodeError::InvalidEncoding)
        }
        Some((p, end)) => {
            if end == input.len() {
                let d = DriftV2Instruction::FillSpotOrder(p);
                proof {
                    assert(input@.subrange(0, input@.len() as int) =~= input@);
                    lemma_join_at(input@, 0, 8, end as int);
                    assert(input@ == encoding_of(d));
                    assert forall|i: DriftV2Instruction| wf_instr(i) && input@ == encoding_of(i)
                        implies instr_eqv(d, i) by {
                        match i {
                            DriftV2Instruction::FillSpotOrder(q) => {
                                assert(is_prefix_at(input@, 8, enc_fill_spot_order(q)));
                            }
                            _ => {}
                        }
                    }
                }
                Ok(d)
            } else {
                proof {
                    assert forall|i: DriftV2Instruction| !(wf_instr(i) && input@ == encoding_of(i)) by {
                        if wf_instr(i) && input@ == encoding_of(i) {
                            match i {
                                DriftV2Instruction::FillSpotOrder(q) => {
                                    assert(is_prefix_at(input@, 8, enc_fill_spot_order(q)));
                                }
                                _ => {}
                            }
                        }
                    }
                }
                Err(DecodeError::InvalidEncoding)
            }
        }
    }
}

fn finish_trigger_order(input: &[u8]) -> (r: Result<DriftV2Instruction, DecodeError>)
    requires
        input@.len() >= 8,
        input@.subrange(0, 8) == enc_u64(TRIGGER_ORDER_TAG),
    ensures
        r matches Ok(d) ==> input@ == encoding_of(d) && wf_instr(d),
        r matches Err(e) ==> e == DecodeError::InvalidEncoding,
        forall|i: DriftV2Instruction| wf_instr(i) && input@ == encoding_of(i)
            ==> (r matches Ok(d) && instr_eqv(d, i)),
{
    proof {
        lemma_enc_lens();
        lemma_auto_spec_u64_to_from_le_bytes();
        assert forall|i: DriftV2Instruction| wf_instr(i) && input@ == encoding_of(i) implies (
            i matches DriftV2Instruction::TriggerOrder(_) && is_prefix_at(input@, 8, payload_enc(i))
            && input@.len() == 8 + payload_enc(i).len()
        ) by {
            lemma_prefix_whole(input@);
            lemma_split_prefix(input@, 0, enc_u64(tag_of(i)), payload_enc(i));
            assert(input@.subrange(0, 8) == enc_u64(tag_of(i)));
            assert(tag_of(i) == TRIGGER_ORDER_TAG);
            lemma_variant_of_tag(i);
        }
    }
    match read_trigger_order(input, 8) {
        None => {
            proof {
                assert forall|i: DriftV2Instruction| !(wf_instr(i) && input@ == encoding_of(i)) by {
                    if wf_instr(i) && input@ == encoding_of(i) {
                        match i {
                            DriftV2Instruction::TriggerOrder(q) => {
                                assert(is_prefix_at(input@, 8, enc_trigger_order(q)));
                            }
                            _ => {}
                        }
                    }
                }
            }
            Err(DecodeError::InvalidEncoding)
        }
        Some((p, end)) => {
            if end == input.len() {
                let d = DriftV2Instruction::TriggerOrder(p);
                proof {
                    assert(input@.subrange(0, input@.len() as int) =~= input@);
                    lemma_join_at(input@, 0, 8, end as int);
                    assert(input@ == encoding_of(d));
                    assert forall|i: DriftV2Instruction| wf_instr(i) && input@ == encoding_of(i)
                        implies instr_eqv(d, i) by {
                        match i {
                            DriftV2Instruction::TriggerOrder(q) => {
                                assert(is_prefix_at(input@, 8, enc_trigger_order(q)));
                            }
                            _ => {}
                        }
                    }
                }
                Ok(d)
            } else {
                proof {
                    assert forall|i: DriftV2Instruction| !(wf_instr(i) && input@ == encoding_of(i)) by {
                        if wf_instr(i) && input@ == encoding_of(i) {
                            match i {
                                DriftV2Instruction::TriggerOrder(q) => {
                                    assert(is_prefix_at(input@, 8, enc_trigger_order(q)));
                                }
                                _ => {}
                            }
                        }
                    }
                }
                Err(DecodeError::InvalidEncoding)
            }
        }
    }
}

fn finish_update_user_idle(input: &[u8]) -> (r: Result<DriftV2Instruction, DecodeError>)
    requires
        input@.len() >= 8,
        input@.subrange(0, 8) == enc_u64(UPDATE_USER_IDLE_TAG),
    ensures
        r matches Ok(d) ==> input@ == encoding_of(d) && wf_instr(d),
        r matches Err(e) ==> e == DecodeError::InvalidEncoding,
        forall|i: DriftV2Instruction| wf_instr(i) && input@ == encoding_of(i)
            ==> (r matches Ok(d) && instr_eqv(d, i)),
{
    proof {
        lemma_enc_lens();
        lemma_auto_spec_u64_to_from_le_bytes();
        assert forall|i: DriftV2Instruction| wf_instr(i) && input@ == encoding_of(i) implies (
            i matches DriftV2Instruction::UpdateUserIdle && is_prefix_at(input@, 8, payload_enc(i))
            && input@.len() == 8 + payload_enc(i).len()
        ) by {
            lemma_prefix_whole(input@);
            lemma_split_prefix(input@, 0, enc_u64(tag_of(i)), payload_enc(i));
            assert(input@.subrange(0, 8) == enc_u64(tag_of(i)));
            assert(tag_of(i) == UPDATE_USER_IDLE_TAG);
            lemma_variant_of_tag(i);
        }
    }
    if input.len() == 8 {
        let d = DriftV2Instruction::UpdateUserIdle;
        proof {
            assert(input@ =~= input@.subrange(0, 8));
            assert(enc_u64(UPDATE_USER_IDLE_TAG) + Seq::<u8>::empty() =~= enc_u64(UPDATE_USER_IDLE_TAG));
            assert(input@ == encoding_of(d));
        }
        Ok(d)
    } else {
        Err(DecodeError::InvalidEncoding)
    }
}

fn finish_settle_pnl(input: &[u8]) -> (r: Result<DriftV2Instruction, DecodeError>)
    requires
        input@.len() >= 8,
        input@.subrange(0, 8) == enc_u64(SETTLE_PNL_TAG),
    ensures
        r matches Ok(d) ==> input@ == encoding_of(d) && wf_instr(d),
        r matches Err(e) ==> e == DecodeError::InvalidEncoding,
        forall|i: DriftV2Instruction| wf_instr(i) && input@ == encoding_of(i)
            ==> (r matches Ok(d) && instr_eqv(d, i)),
{
    proof {
        lemma_enc_lens();
        lemma_auto_spec_u64_to_from_le_bytes();
        assert forall|i: DriftV2Instruction| wf_instr(i) && input@ == encoding_of(i) implies (
            i matches DriftV2Instruction::SettlePnl(_) && is_prefix_at(input@, 8, payload_enc(i))
            && input@.len() == 8 + payload_enc(i).len()
        ) by {
            lemma_prefix_whole(input@);
            lemma_split_prefix(input@, 0, enc_u64(tag_of(i)), payload_enc(i));
            assert(input@.subrange(0, 8) == enc_u64(tag_of(i)));
            assert(tag_of(i) == SETTLE_PNL_TAG);
            lemma_variant_of_tag(i);
        }
    }
    match read_settle_pnl(input, 8) {
        None => {
            proof {
                assert forall|i: DriftV2Instruction| !(wf_instr(i) && input@ == encoding_of(i)) by {
                    if wf_instr(i) && input@ == encoding_of(i) {
                        match i {
                            DriftV2Instruction::SettlePnl(q) => {
                                assert(is_prefix_at(input@, 8, enc_settle_pnl(q)));
                            }
                            _ => {}
                        }
                    }
                }
            }
            Err(DecodeError::InvalidEncoding)
        }
        Some((p, end)) => {
            if end == input.len() {
                let d = DriftV2Instruction::SettlePnl(p);
                proof {
                    assert(input@.subrange(0, input@.len() as int) =~= input@);
                    lemma_join_at(input@, 0, 8, end as int);
                    assert(input@ == encoding_of(d));
                    assert forall|i: DriftV2Instruction| wf_instr(i) && input@ == encoding_of(i)
                        implies instr_eqv(d, i) by {
                        match i {
                            DriftV2Instruction::SettlePnl(q) => {
                                assert(is_prefix_at(input@, 8, enc_settle_pnl(q)));
                            }
                            _ => {}
                        }
                    }
                }
                Ok(d)
            } else {
                proof {
                    assert forall|i: DriftV2Instruction| !(wf_instr(i) && input@ == encoding_of(i)) by {
                        if wf_instr(i) && input@ == encoding_of(i) {
                            match i {
                                DriftV2Instruction::SettlePnl(q) => {
                                    assert(is_prefix_at(input@, 8, enc_settle_pnl(q)));
                                }
                                _ => {}
                            }
                        }
                    }
                }
                Err(DecodeError::InvalidEncoding)
            }
        }
    }
}

fn finish_settle_multiple_pnls(input: &[u8]) -> (r: Result<DriftV2Instruction, DecodeError>)
    requires
        input@.len() >= 8,
        input@.subrange(0, 8) == enc_u64(SETTLE_MULTIPLE_PNLS_TAG),
    ensures
        r matches Ok(d) ==> input@ == encoding_of(d) && wf_instr(d),
        r matches Err(e) ==> e == DecodeError::InvalidEncoding,
        forall|i: DriftV2Instruction| wf_instr(i) && input@ == encoding_of(i)
            ==> (r matches Ok(d) && instr_eqv(d, i)),
{
    proof {
        lemma_enc_lens();
        lemma_auto_spec_u64_to_from_le_bytes();
        assert forall|i: DriftV2Instruction| wf_instr(i) && input@ == encoding_of(i) implies (
            i matches DriftV2Instruction::SettleMultiplePnls(_) && is_prefix_at(input@, 8, payload_enc(i))
            && input@.len() == 8 + payload_enc(i).len()
        ) by {
            lemma_prefix_whole(input@);
            lemma_split_prefix(input@, 0, enc_u64(tag_of(i)), payload_enc(i));
            assert(input@.subrange(0, 8) == enc_u64(tag_of(i)));
            assert(tag_of(i) == SETTLE_MULTIPLE_PNLS_TAG);
            lemma_variant_of_tag(i);
        }
    }
    match read_settle_multiple_pnls(input, 8) {
        None => {
            proof {
                assert forall|i: DriftV2Instruction| !(wf_instr(i) && input@ == encoding_of(i)) by {
                    if wf_instr(i) && input@ == encoding_of(i) {
                        match i {
                            DriftV2Instruction::SettleMultiplePnls(q) => {
                                assert(is_prefix_at(input@, 8, enc_settle_multiple_pnls(q)));
                            }
                            _ => {}
                        }
                    }
                }
            }
            Err(DecodeError::InvalidEncoding)
        }
        Some((p, end)) => {
            if end == input.len() {
                let d = DriftV2Instruction::SettleMultiplePnls(p);
                proof {
                    assert(input@.subrange(0, input@.len() as int) =~= input@);
                    lemma_join_at(input@, 0, 8, end as int);
                    assert(input@ == encoding_of(d));
                    assert forall|i: DriftV2Instruction| wf_instr(i) && input@ == encoding_of(i)
                        implies instr_eqv(d, i) by {
                        match i {
                            DriftV2Instruction::SettleMultiplePnls(q) => {
                                assert(is_prefix_at(input@, 8, enc_settle_multiple_pnls(q)));
                            }
                            _ => {}
                        }
                    }
                }
                Ok(d)
            } else {
                proof {
                    assert forall|i: DriftV2Instruction| !(wf_instr(i) && input@ == encoding_of(i)) by {
                        if wf_instr(i) && input@ == encoding_of(i) {
                            match i {
                                DriftV2Instruction::SettleMultiplePnls(q) => {
                                    assert(is_prefix_at(input@, 8, enc_settle_multiple_pnls(q)));
                                }
                                _ => {}
                            }
                        }
                    }
                }
                Err(DecodeError::InvalidEncoding)
            }
        }
    }
}

fn finish_settle_funding_payment(input: &[u8]) -> (r: Result<DriftV2Instruction, DecodeError>)
    requires
        input@.len() >= 8,
        input@.subrange(0, 8) == enc_u64(SETTLE_FUNDING_PAYMENT_TAG),
    ensures
        r matches Ok(d) ==> input@ == encoding_of(d) && wf_instr(d),
        r matches Err(e) ==> e == DecodeError::InvalidEncoding,
        forall|i: DriftV2Instruction| wf_instr(i) && input@ == encoding_of(i)
            ==> (r matches Ok(d) && instr_eqv(d, i)),
{
    proof {
        lemma_enc_lens();
        lemma_auto_spec_u64_to_from_le_bytes();
        assert forall|i: DriftV2Instruction| wf_instr(i) && input@ == encoding_of(i) implies (
            i matches DriftV2Instruction::SettleFundingPayment && is_prefix_at(input@, 8, payload_enc(i))
            && input@.len() == 8 + payload_enc(i).len()
        ) by {
            lemma_prefix_whole(input@);
            lemma_split_prefix(input@, 0, enc_u64(tag_of(i)), payload_enc(i));
            assert(input@.subrange(0, 8) == enc_u64(tag_of(i)));
            assert(tag_of(i) == SETTLE_FUNDING_PAYMENT_TAG);
            lemma_variant_of_tag(i);
        }
    }
    if input.len() == 8 {
        let d = DriftV2Instruction::SettleFundingPayment;
        proof {
            assert(input@ =~= input@.subrange(0, 8));
            assert(enc_u64(SETTLE_FUNDING_PAYMENT_TAG) + Seq::<u8>::empty() =~= enc_u64(SETTLE_FUNDING_PAYMENT_TAG));
            assert(input@ == encoding_of(d));
        }
        Ok(d)
    } else {
        Err(DecodeError::InvalidEncoding)
    }
}

fn finish_settle_lp(input: &[u8]) -> (r: Result<DriftV2Instruction, DecodeError>)
    requires
        input@.len() >= 8,
        input@.subrange(0, 8) == enc_u64(SETTLE_LP_TAG),
    ensures
        r matches Ok(d) ==> input@ == encoding_of(d) && wf_instr(d),
        r matches Err(e) ==> e == DecodeError::InvalidEncoding,
        forall|i: DriftV2Instruction| wf_instr(i) && input@ == encoding_of(i)
            ==> (r matches Ok(d) && instr_eqv(d, i)),
{
    proof {
        lemma_enc_lens();
        lemma_auto_spec_u64_to_from_le_bytes();
        assert forall|i: DriftV2Instruction| wf_instr(i) && input@ == encoding_of(i) implies (
            i matches DriftV2Instruction::SettleLp(_) && is_prefix_at(input@, 8, payload_enc(i))
            && input@.len() == 8 + payload_enc(i).len()
        ) by {
            lemma_prefix_whole(input@);
            lemma_split_prefix(input@, 0, enc_u64(tag_of(i)), payload_enc(i));
            assert(input@.subrange(0, 8) == enc_u64(tag_of(i)));
            assert(tag_of(i) == SETTLE_LP_TAG);
            lemma_variant_of_tag(i);
        }
    }
    match read_settle_lp(input, 8) {
        None => {
            proof {
                assert forall|i: DriftV2Instruction| !(wf_instr(i) && input@ == encoding_of(i)) by {
                    if wf_instr(i) && input@ == encoding_of(i) {
                        match i {
                            DriftV2Instruction::SettleLp(q) => {
                                assert(is_prefix_at(input@, 8, enc_settle_lp(q)));
                            }
                            _ => {}
                        }
                    }
                }
            }
            Err(DecodeError::InvalidEncoding)
        }
        Some((p, end)) => {
            if end == input.len() {
                let d = DriftV2Instruction::SettleLp(p);
                proof {
                    assert(input@.subrange(0, input@.len() as int) =~= input@);
                    lemma_join_at(input@, 0, 8, end as int);
                    assert(input@ == encoding_of(d));
                    assert forall|i: DriftV2Instruction| wf_instr(i) && input@ == encoding_of(i)
                        implies instr_eqv(d, i) by {
                        match i {
                            DriftV2Instruction::SettleLp(q) => {
                                assert(is_prefix_at(input@, 8, enc_settle_lp(q)));
                            }
                            _ => {}
                        }
                    }
                }
                Ok(d)
            } else {
                proof {
                    assert forall|i: DriftV2Instruction| !(wf_instr(i) && input@ == encoding_of(i)) by {
                        if wf_instr(i) && input@ == encoding_of(i) {
                            match i {
                                DriftV2Instruction::SettleLp(q) => {
                                    assert(is_prefix_at(input@, 8, enc_settle_lp(q)));
                                }
                                _ => {}
                            }
                        }
                    }
                }
                Err(DecodeError::InvalidEncoding)
            }
        }
    }
}

fn finish_liquidate_perp(input: &[u8]) -> (r: Result<DriftV2Instruction, DecodeError>)
    requires
        input@.len() >= 8,
        input@.subrange(0, 8) == enc_u64(LIQUIDATE_PERP_TAG),
    ensures
        r matches Ok(d) ==> input@ == encoding_of(d) && wf_instr(d),
        r matches Err(e) ==> e == DecodeError::InvalidEncoding,
        forall|i: DriftV2Instruction| wf_instr(i) && input@ == encoding_of(i)
            ==> (r matches Ok(d) && instr_eqv(d, i)),
{
    proof {
        lemma_enc_lens();
        lemma_auto_spec_u64_to_from_le_bytes();
        assert forall|i: DriftV2Instruction| wf_instr(i) && input@ == encoding_of(i) implies (
            i matches DriftV2Instruction::LiquidatePerp(_) && is_prefix_at(input@, 8, payload_enc(i))
            && input@.len() == 8 + payload_enc(i).len()
        ) by {
            lemma_prefix_whole(input@);
            lemma_split_prefix(input@, 0, enc_u64(tag_of(i)), payload_enc(i));
            assert(input@.subrange(0, 8) == enc_u64(tag_of(i)));
            assert(tag_of(i) == LIQUIDATE_PERP_TAG);
            lemma_variant_of_tag(i);
        }
    }
    match read_liquidate_perp(input, 8) {
        None => {
            proof {
                assert forall|i: DriftV2Instruction| !(wf_instr(i) && input@ == encoding_of(i)) by {
                    if wf_instr(i) && input@ == encoding_of(i) {
                        match i {
                            DriftV2Instruction::LiquidatePerp(q) => {
                                assert(is_prefix_at(input@, 8, enc_liquidate_perp(q)));
                            }
                            _ => {}
                        }
                    }
                }
            }
            Err(DecodeError::InvalidEncoding)
        }
        Some((p, end)) => {
            if end == input.len() {
                let d = DriftV2Instruction::LiquidatePerp(p);
                proof {
                    assert(input@.subrange(0, input@.len() as int) =~= input@);
                    lemma_join_at(input@, 0, 8, end as int);
                    assert(input@ == encoding_of(d));
                    assert forall|i: DriftV2Instruction| wf_instr(i) && input@ == encoding_of(i)
                        implies instr_eqv(d, i) by {
                        match i {
                            DriftV2Instruction::LiquidatePerp(q) => {
                                assert(is_prefix_at(input@, 8, enc_liquidate_perp(q)));
                            }
                            _ => {}
                        }
                    }
                }
                Ok(d)
            } else {
                proof {
                    assert forall|i: DriftV2Instruction| !(wf_instr(i) && input@ == encoding_of(i)) by {
                        if wf_instr(i) && input@ == encoding_of(i) {
                            match i {
                                DriftV2Instruction::LiquidatePerp(q) => {
                                    assert(is_prefix_at(input@, 8, enc_liquidate_perp(q)));
                                }
                                _ => {}
                            }
                        }
                    }
                }
                Err(DecodeError::InvalidEncoding)
            }
        }
    }
}

fn finish_settle_revenue_to_insurance_fund(input: &[u8]) -> (r: Result<DriftV2Instruction, DecodeError>)
    requires
        input@.len() >= 8,
        input@.subrange(0, 8) == enc_u64(SETTLE_REVENUE_TO_INSURANCE_FUND_TAG),
    ensures
        r matches Ok(d) ==> input@ == encoding_of(d) && wf_instr(d),
        r matches Err(e) ==> e == DecodeError::InvalidEncoding,
        forall|i: DriftV2Instruction| wf_instr(i) && input@ == encoding_of(i)
            ==> (r matches Ok(d) && instr_eqv(d, i)),
{
    proof {
        lemma_enc_lens();
        lemma_auto_spec_u64_to_from_le_bytes();
        assert forall|i: DriftV2Instruction| wf_instr(i) && input@ == encoding_of(i) implies (
            i matches DriftV2Instruction::SettleRevenueToInsuranceFund(_) && is_prefix_at(input@, 8, payload_enc(i))
            && input@.len() == 8 + payload_enc(i).len()
        ) by {
            lemma_prefix_whole(input@);
            lemma_split_prefix(input@, 0, enc_u64(tag_of(i)), payload_enc(i));
            assert(input@.subrange(0, 8) == enc_u64(tag_of(i)));
            assert(tag_of(i) == SETTLE_REVENUE_TO_INSURANCE_FUND_TAG);
            lemma_variant_of_tag(i);
        }
    }
    match read_settle_revenue_to_insurance_fund(input, 8) {
        None => {
            proof {
                assert forall|i: DriftV2Instruction| !(wf_instr(i) && input@ == encoding_of(i)) by {
                    if wf_instr(i) && input@ == encoding_of(i) {
                        match i {
                            DriftV2Instruction::SettleRevenueToInsuranceFund(q) => {
                                assert(is_prefix_at(input@, 8, enc_settle_revenue_to_insurance_fund(q)));
                            }
                            _ => {}
                        }
                    }
                }
            }
            Err(DecodeError::InvalidEncoding)
        }
        Some((p, end)) => {
            if end == input.len() {
                let d = DriftV2Instruction::SettleRevenueToInsuranceFund(p);
                proof {
                    assert(input@.subrange(0, input@.len() as int) =~= input@);
                    lemma_join_at(input@, 0, 8, end as int);
                    assert(input@ == encoding_of(d));
                    assert forall|i: DriftV2Instruction| wf_instr(i) && input@ == encoding_of(i)
                        implies instr_eqv(d, i) by {
                        match i {
                            DriftV2Instruction::SettleRevenueToInsuranceFund(q) => {
                                assert(is_prefix_at(input@, 8, enc_settle_revenue_to_insurance_fund(q)));
                            }
                            _ => {}
                        }
                    }
                }
                Ok(d)
            } else {
                proof {
                    assert forall|i: DriftV2Instruction| !(wf_instr(i) && input@ == encoding_of(i)) by {
                        if wf_instr(i) && input@ == encoding_of(i) {
                            match i {
                                DriftV2Instruction::SettleRevenueToInsuranceFund(q) => {
                                    assert(is_prefix_at(input@, 8, enc_settle_revenue_to_insurance_fund(q)));
                                }
                                _ => {}
                            }
                        }
                    }
                }
                Err(DecodeError::InvalidEncoding)
            }
        }
    }
}

fn finish_update_funding_rate(input: &[u8]) -> (r: Result<DriftV2Instruction, DecodeError>)
    requires
        input@.len() >= 8,
        input@.subrange(0, 8) == enc_u64(UPDATE_FUNDING_RATE_TAG),
    ensures
        r matches Ok(d) ==> input@ == encoding_of(d) && wf_instr(d),
        r matches Err(e) ==> e == DecodeError::InvalidEncoding,
        forall|i: DriftV2Instruction| wf_instr(i) && input@ == encoding_of(i)
            ==> (r matches Ok(d) && instr_eqv(d, i)),
{
    proof {
        lemma_enc_lens();
        lemma_auto_spec_u64_to_from_le_bytes();
        assert forall|i: DriftV2Instruction| wf_instr(i) && input@ == encoding_of(i) implies (
            i matches DriftV2Instruction::UpdateFundingRate(_) && is_prefix_at(input@, 8, payload_enc(i))
            && input@.len() == 8 + payload_enc(i).len()
        ) by {
            lemma_prefix_whole(input@);
            lemma_split_prefix(input@, 0, enc_u64(tag_of(i)), payload_enc(i));
            assert(input@.subrange(0, 8) == enc_u64(tag_of(i)));
            assert(tag_of(i) == UPDATE_FUNDING_RATE_TAG);
            lemma_variant_of_tag(i);
        }
    }
    match read_update_funding_rate(input, 8) {
        None => {
            proof {
                assert forall|i: DriftV2Instruction| !(wf_instr(i) && input@ == encoding_of(i)) by {
                    if wf_instr(i) && input@ == encoding_of(i) {
                        match i {
                            DriftV2Instruction::UpdateFundingRate(q) => {
                                assert(is_prefix_at(input@, 8, enc_update_funding_rate(q)));
                            }
                            _ => {}
                        }
                    }
                }
            }
            Err(DecodeError::InvalidEncoding)
        }
        Some((p, end)) => {
            if end == input.len() {
                let d = DriftV2Instruction::UpdateFundingRate(p);
                proof {
                    assert(input@.subrange(0, input@.len() as int) =~= input@);
                    lemma_join_at(input@, 0, 8, end as int);
                    assert(input@ == encoding_of(d));
                    assert forall|i: DriftV2Instruction| wf_instr(i) && input@ == encoding_of(i)
                        implies instr_eqv(d, i) by {
                        match i {
                            DriftV2Instruction::UpdateFundingRate(q) => {
                                assert(is_prefix_at(input@, 8, enc_update_funding_rate(q)));
                            }
                            _ => {}
                        }
                    }
                }
                Ok(d)
            } else {
                proof {
                    assert forall|i: DriftV2Instruction| !(wf_instr(i) && input@ == encoding_of(i)) by {
                        if wf_instr(i) && input@ == encoding_of(i) {
                            match i {
                                DriftV2Instruction::UpdateFundingRate(q) => {
                                    assert(is_prefix_at(input@, 8, enc_update_funding_rate(q)));
                                }
                                _ => {}
                            }
                        }
                    }
                }
                Err(DecodeError::InvalidEncoding)
            }
        }
    }
}

fn finish_update_prelaunch_oracle(input: &[u8]) -> (r: Result<DriftV2Instruction, DecodeError>)
    requires
        input@.len() >= 8,
        input@.subrange(0, 8) == enc_u64(UPDATE_PRELAUNCH_ORACLE_TAG),
    ensures
        r matches Ok(d) ==> input@ == encoding_of(d) && wf_instr(d),
        r matches Err(e) ==> e == DecodeError::InvalidEncoding,
        forall|i: DriftV2Instruction| wf_instr(i) && input@ == encoding_of(i)
            ==> (r matches Ok(d) && instr_eqv(d, i)),
{
    proof {
        lemma_enc_lens();
        lemma_auto_spec_u64_to_from_le_bytes();
        assert forall|i: DriftV2Instruction| wf_instr(i) && input@ == encoding_of(i) implies (
            i matches DriftV2Instruction::UpdatePrelaunchOracle && is_prefix_at(input@, 8, payload_enc(i))
            && input@.len() == 8 + payload_enc(i).len()
        ) by {
            lemma_prefix_whole(input@);
            lemma_split_prefix(input@, 0, enc_u64(tag_of(i)), payload_enc(i));
            assert(input@.subrange(0, 8) == enc_u64(tag_of(i)));
            assert(tag_of(i) == UPDATE_PRELAUNCH_ORACLE_TAG);
            lemma_variant_of_tag(i);
        }
    }
    if input.len() == 8 {
        let d = DriftV2Instruction::UpdatePrelaunchOracle;
        proof {
            assert(input@ =~= input@.subrange(0, 8));
            assert(enc_u64(UPDATE_PRELAUNCH_ORACLE_TAG) + Seq::<u8>::empty() =~= enc_u64(UPDATE_PRELAUNCH_ORACLE_TAG));
            assert(input@ == encoding_of(d));
        }
        Ok(d)
    } else {
        Err(DecodeError::InvalidEncoding)
    }
}

fn finish_update_perp_bid_ask_twap(input: &[u8]) -> (r: Result<DriftV2Instruction, DecodeError>)
    requires
        input@.len() >= 8,
        input@.subrange(0, 8) == enc_u64(UPDATE_PERP_BID_ASK_TWAP_TAG),
    ensures
        r matches Ok(d) ==> input@ == encoding_of(d) && wf_instr(d),
        r matches Err(e) ==> e == DecodeError::InvalidEncoding,
        forall|i: DriftV2Instruction| wf_instr(i) && input@ == encoding_of(i)
            ==> (r matches Ok(d) && instr_eqv(d, i)),
{
    proof {
        lemma_enc_lens();
        lemma_auto_spec_u64_to_from_le_bytes();
        assert forall|i: DriftV2Instruction| wf_instr(i) && input@ == encoding_of(i) implies (
            i matches DriftV2Instruction::UpdatePerpBidAskTwap && is_prefix_at(input@, 8, payload_enc(i))
            && input@.len() == 8 + payload_enc(i).len()
        ) by {
            lemma_prefix_whole(input@);
            lemma_split_prefix(input@, 0, enc_u64(tag_of(i)), payload_enc(i));
            assert(input@.subrange(0, 8) == enc_u64(tag_of(i)));
            assert(tag_of(i) == UPDATE_PERP_BID_ASK_TWAP_TAG);
            lemma_variant_of_tag(i);
        }
    }
    if input.len() == 8 {
        let d = DriftV2Instruction::UpdatePerpBidAskTwap;
        proof {
            assert(input@ =~= input@.subrange(0, 8));
            assert(enc_u64(UPDATE_PERP_BID_ASK_TWAP_TAG) + Seq::<u8>::empty() =~= enc_u64(UPDATE_PERP_BID_ASK_TWAP_TAG));
            assert(input@ == encoding_of(d));
        }
        Ok(d)
    } else {
        Err(DecodeError::InvalidEncoding)
    }
}

fn finish_update_amms(input: &[u8]) -> (r: Result<DriftV2Instruction, DecodeError>)
    requires
        input@.len() >= 8,
        input@.subrange(0, 8) == enc_u64(UPDATE_AMMS_TAG),
    ensures
        r matches Ok(d) ==> input@ == encoding_of(d) && wf_instr(d),
        r matches Err(e) ==> e == DecodeError::InvalidEncoding,
        forall|i: DriftV2Instruction| wf_instr(i) && input@ == encoding_of(i)
            ==> (r matches Ok(d) && instr_eqv(d, i)),
{
    proof {
        lemma_enc_lens();
        lemma_auto_spec_u64_to_from_le_bytes();
        assert forall|i: DriftV2Instruction| wf_instr(i) && input@ == encoding_of(i) implies (
            i matches DriftV2Instruction::UpdateAmms(_) && is_prefix_at(input@, 8, payload_enc(i))
            && input@.len() == 8 + payload_enc(i).len()
        ) by {
            lemma_prefix_whole(input@);
            lemma_split_prefix(input@, 0, enc_u64(tag_of(i)), payload_enc(i));
            assert(input@.subrange(0, 8) == enc_u64(tag_of(i)));
            assert(tag_of(i) == UPDATE_AMMS_TAG);
            lemma_variant_of_tag(i);
        }
    }
    match read_update_amms(input, 8) {
        None => {
            proof {
                assert forall|i: DriftV2Instruction| !(wf_instr(i) && input@ == encoding_of(i)) by {
                    if wf_instr(i) && input@ == encoding_of(i) {
                        match i {
                            DriftV2Instruction::UpdateAmms(q) => {
                                assert(is_prefix_at(input@, 8, enc_update_amms(q)));
                            }
                            _ => {}
                        }
                    }
                }
            }
            Err(DecodeError::InvalidEncoding)
        }
        Some((p, end)) => {
            if end == input.len() {
                let d = DriftV2Instruction::UpdateAmms(p);
                proof {
                    assert(input@.subrange(0, input@.len() as int) =~= input@);
                    lemma_join_at(input@, 0, 8, end as int);
                    assert(input@ == encoding_of(d));
                    assert forall|i: DriftV2Instruction| wf_instr(i) && input@ == encoding_of(i)
                        implies instr_eqv(d, i) by {
                        match i {
                            DriftV2Instruction::UpdateAmms(q) => {
                                assert(is_prefix_at(input@, 8, enc_update_amms(q)));
                            }
                            _ => {}
                        }
                    }
                }
                Ok(d)
            } else {
                proof {
                    assert forall|i: DriftV2Instruction| !(wf_instr(i) && input@ == encoding_of(i)) by {
                        if wf_instr(i) && input@ == encoding_of(i) {
                            match i {
                                DriftV2Instruction::UpdateAmms(q) => {
                                    assert(is_prefix_at(input@, 8, enc_update_amms(q)));
                                }
                                _ => {}
                            }
                        }
                    }
                }
                Err(DecodeError::InvalidEncoding)
            }
        }
    }
}

fn finish_initialize_insurance_fund_stake(input: &[u8]) -> (r: Result<DriftV2Instruction, DecodeError>)
    requires
        input@.len() >= 8,
        input@.subrange(0, 8) == enc_u64(INITIALIZE_INSURANCE_FUND_STAKE_TAG),
    ensures
        r matches Ok(d) ==> input@ == encoding_of(d) && wf_instr(d),
        r matches Err(e) ==> e == DecodeError::InvalidEncoding,
        forall|i: DriftV2Instruction| wf_instr(i) && input@ == encoding_of(i)
            ==> (r matches Ok(d) && instr_eqv(d, i)),
{
    proof {
        lemma_enc_lens();
        lemma_auto_spec_u64_to_from_le_bytes();
        assert forall|i: DriftV2Instruction| wf_instr(i) && input@ == encoding_of(i) implies (
            i matches DriftV2Instruction::InitializeInsuranceFundStake(_) && is_prefix_at(input@, 8, payload_enc(i))
            && input@.len() == 8 + payload_enc(i).len()
        ) by {
            lemma_prefix_whole(input@);
            lemma_split_prefix(input@, 0, enc_u64(tag_of(i)), payload_enc(i));
            assert(input@.subrange(0, 8) == enc_u64(tag_of(i)));
            assert(tag_of(i) == INITIALIZE_INSURANCE_FUND_STAKE_TAG);
            lemma_variant_of_tag(i);
        }
    }
    match read_initialize_insurance_fund_stake(input, 8) {
        None => {
            proof {
                assert forall|i: DriftV2Instruction| !(wf_instr(i) && input@ == encoding_of(i)) by {
                    if wf_instr(i) && input@ == encoding_of(i) {
                        match i {
                            DriftV2Instruction::InitializeInsuranceFundStake(q) => {
                                assert(is_prefix_at(input@, 8, enc_initialize_insurance_fund_stake(q)));
                            }
                            _ => {}
                        }
                    }
                }
            }
            Err(DecodeError::InvalidEncoding)
        }
        Some((p, end)) => {
            if end == input.len() {
                let d = DriftV2Instruction::InitializeInsuranceFundStake(p);
                proof {
                    assert(input@.subrange(0, input@.len() as int) =~= input@);
                    lemma_join_at(input@, 0, 8, end as int);
                    assert(input@ == encoding_of(d));
                    assert forall|i: DriftV2Instruction| wf_instr(i) && input@ == encoding_of(i)
                        implies instr_eqv(d, i) by {
                        match i {
                            DriftV2Instruction::InitializeInsuranceFundStake(q) => {
                                assert(is_prefix_at(input@, 8, enc_initialize_insurance_fund_stake(q)));
                            }
                            _ => {}
                        }
                    }
                }
                Ok(d)
            } else {
                proof {
                    assert forall|i: DriftV2Instruction| !(wf_instr(i) && input@ == encoding_of(i)) by {
                        if wf_instr(i) && input@ == encoding_of(i) {
                            match i {
                                DriftV2Instruction::InitializeInsuranceFundStake(q) => {
                                    assert(is_prefix_at(input@, 8, enc_initialize_insurance_fund_stake(q)));
                                }
                                _ => {}
                            }
                        }
                    }
                }
                Err(DecodeError::InvalidEncoding)
            }
        }
    }
}

fn finish_add_insurance_fund_stake(input: &[u8]) -> (r: Result<DriftV2Instruction, DecodeError>)
    requires
        input@.len() >= 8,
        input@.subrange(0, 8) == enc_u64(ADD_INSURANCE_FUND_STAKE_TAG),
    ensures
        r matches Ok(d) ==> input@ == encoding_of(d) && wf_instr(d),
        r matches Err(e) ==> e == DecodeError::InvalidEncoding,
        forall|i: DriftV2Instruction| wf_instr(i) && input@ == encoding_of(i)
            ==> (r matches Ok(d) && instr_eqv(d, i)),
{
    proof {
        lemma_enc_lens();
        lemma_auto_spec_u64_to_from_le_bytes();
        assert forall|i: DriftV2Instruction| wf_instr(i) && input@ == encoding_of(i) implies (
            i matches DriftV2Instruction::AddInsuranceFundStake(_) && is_prefix_at(input@, 8, payload_enc(i))
            && input@.len() == 8 + payload_enc(i).len()
        ) by {
            lemma_prefix_whole(input@);
            lemma_split_prefix(input@, 0, enc_u64(tag_of(i)), payload_enc(i));
            assert(input@.subrange(0, 8) == enc_u64(tag_of(i)));
            assert(tag_of(i) == ADD_INSURANCE_FUND_STAKE_TAG);
            lemma_variant_of_tag(i);
        }
    }
    match read_add_insurance_fund_stake(input, 8) {
        None => {
            proof {
                assert forall|i: DriftV2Instruction| !(wf_instr(i) && input@ == encoding_of(i)) by {
                    if wf_instr(i) && input@ == encoding_of(i) {
                        match i {
                            DriftV2Instruction::AddInsuranceFundStake(q) => {
                                assert(is_prefix_at(input@, 8, enc_add_insurance_fund_stake(q)));
                            }
                            _ => {}
                        }
                    }
                }
            }
            Err(DecodeError::InvalidEncoding)
        }
        Some((p, end)) => {
            if end == input.len() {
                let d = DriftV2Instruction::AddInsuranceFundStake(p);
                proof {
                    assert(input@.subrange(0, input@.len() as int) =~= input@);
                    lemma_join_at(input@, 0, 8, end as int);
                    assert(input@ == encoding_of(d));
                    assert forall|i: DriftV2Instruction| wf_instr(i) && input@ == encoding_of(i)
                        implies instr_eqv(d, i) by {
                        match i {
                            DriftV2Instruction::AddInsuranceFundStake(q) => {
                                assert(is_prefix_at(input@, 8, enc_add_insurance_fund_stake(q)));
                            }
                            _ => {}
                        }
                    }
                }
                Ok(d)
            } else {
                proof {
                    assert forall|i: DriftV2Instruction| !(wf_instr(i) && input@ == encoding_of(i)) by {
                        if wf_instr(i) && input@ == encoding_of(i) {
                            match i {
                                DriftV2Instruction::AddInsuranceFundStake(q) => {
                                    assert(is_prefix_at(input@, 8, enc_add_insurance_fund_stake(q)));
                                }
                                _ => {}
                            }
                        }
                    }
                }
                Err(DecodeError::InvalidEncoding)
            }
        }
    }
}

fn finish_request_remove_insurance_fund_stake(input: &[u8]) -> (r: Result<DriftV2Instruction, DecodeError>)
    requires
        input@.len() >= 8,
        input@.subrange(0, 8) == enc_u64(REQUEST_REMOVE_INSURANCE_FUND_STAKE_TAG),
    ensures
        r matches Ok(d) ==> input@ == encoding_of(d) && wf_instr(d),
        r matches Err(e) ==> e == DecodeError::InvalidEncoding,
        forall|i: DriftV2Instruction| wf_instr(i) && input@ == encoding_of(i)
            ==> (r matches Ok(d) && instr_eqv(d, i)),
{
    proof {
        lemma_enc_lens();
        lemma_auto_spec_u64_to_from_le_bytes();
        assert forall|i: DriftV2Instruction| wf_instr(i) && input@ == encoding_of(i) implies (
            i matches DriftV2Instruction::RequestRemoveInsuranceFundStake(_) && is_prefix_at(input@, 8, payload_enc(i))
            && input@.len() == 8 + payload_enc(i).len()
        ) by {
            lemma_prefix_whole(input@);
            lemma_split_prefix(input@, 0, enc_u64(tag_of(i)), payload_enc(i));
            assert(input@.subrange(0, 8) == enc_u64(tag_of(i)));
            assert(tag_of(i) == REQUEST_REMOVE_INSURANCE_FUND_STAKE_TAG);
            lemma_variant_of_tag(i);
        }
    }
    match read_request_remove_insurance_fund_stake(input, 8) {
        None => {
            proof {
                assert forall|i: DriftV2Instruction| !(wf_instr(i) && input@ == encoding_of(i)) by {
                    if wf_instr(i) && input@ == encoding_of(i) {
                        match i {
                            DriftV2Instruction::RequestRemoveInsuranceFundStake(q) => {
                                assert(is_prefix_at(input@, 8, enc_request_remove_insurance_fund_stake(q)));
                            }
                            _ => {}
                        }
                    }
                }
            }
            Err(DecodeError::InvalidEncoding)
        }
        Some((p, end)) => {
            if end == input.len() {
                let d = DriftV2Instruction::RequestRemoveInsuranceFundStake(p);
                proof {
                    assert(input@.subrange(0, input@.len() as int) =~= input@);
                    lemma_join_at(input@, 0, 8, end as int);
                    assert(input@ == encoding_of(d));
                    assert forall|i: DriftV2Instruction| wf_instr(i) && input@ == encoding_of(i)
                        implies instr_eqv(d, i) by {
                        match i {
                            DriftV2Instruction::RequestRemoveInsuranceFundStake(q) => {
                                assert(is_prefix_at(input@, 8, enc_request_remove_insurance_fund_stake(q)));
                            }
                            _ => {}
                        }
                    }
                }
                Ok(d)
            } else {
                proof {
                    assert forall|i: DriftV2Instruction| !(wf_instr(i) && input@ == encoding_of(i)) by {
                        if wf_instr(i) && input@ == encoding_of(i) {
                            match i {
                                DriftV2Instruction::RequestRemoveInsuranceFundStake(q) => {
                                    assert(is_prefix_at(input@, 8, enc_request_remove_insurance_fund_stake(q)));
                                }
                                _ => {}
                            }
                        }
                    }
                }
                Err(DecodeError::InvalidEncoding)
            }
        }
    }
}

fn finish_cancel_request_remove_insurance_fund_stake(input: &[u8]) -> (r: Result<DriftV2Instruction, DecodeError>)
    requires
        input@.len() >= 8,
        input@.subrange(0, 8) == enc_u64(CANCEL_REQUEST_REMOVE_INSURANCE_FUND_STAKE_TAG),
    ensures
        r matches Ok(d) ==> input@ == encoding_of(d) && wf_instr(d),
        r matches Err(e) ==> e == DecodeError::InvalidEncoding,
        forall|i: DriftV2Instruction| wf_instr(i) && input@ == encoding_of(i)
            ==> (r matches Ok(d) && instr_eqv(d, i)),
{
    proof {
        lemma_enc_lens();
        lemma_auto_spec_u64_to_from_le_bytes();
        assert forall|i: DriftV2Instruction| wf_instr(i) && input@ == encoding_of(i) implies (
            i matches DriftV2Instruction::CancelRequestRemoveInsuranceFundStake(_) && is_prefix_at(input@, 8, payload_enc(i))
            && input@.len() == 8 + payload_enc(i).len()
        ) by {
            lemma_prefix_whole(input@);
            lemma_split_prefix(input@, 0, enc_u64(tag_of(i)), payload_enc(i));
            assert(input@.subrange(0, 8) == enc_u64(tag_of(i)));
            assert(tag_of(i) == CANCEL_REQUEST_REMOVE_INSURANCE_FUND_STAKE_TAG);
            lemma_variant_of_tag(i);
        }
    }
    match read_cancel_request_remove_insurance_fund_stake(input, 8) {
        None => {
            proof {
                assert forall|i: DriftV2Instruction| !(wf_instr(i) && input@ == encoding_of(i)) by {
                    if wf_instr(i) && input@ == encoding_of(i) {
                        match i {
                            DriftV2Instruction::CancelRequestRemoveInsuranceFundStake(q) => {
                                assert(is_prefix_at(input@, 8, enc_cancel_request_remove_insurance_fund_stake(q)));
                            }
                            _ => {}
                        }
                    }
                }
            }
            Err(DecodeError::InvalidEncoding)
        }
        Some((p, end)) => {
            if end == input.len() {
                let d = DriftV2Instruction::CancelRequestRemoveInsuranceFundStake(p);
                proof {
                    assert(input@.subrange(0, input@.len() as int) =~= input@);
                    lemma_join_at(input@, 0, 8, end as int);
                    assert(input@ == encoding_of(d));
                    assert forall|i: DriftV2Instruction| wf_instr(i) && input@ == encoding_of(i)
                        implies instr_eqv(d, i) by {
                        match i {
                            DriftV2Instruction::CancelRequestRemoveInsuranceFundStake(q) => {
                                assert(is_prefix_at(input@, 8, enc_cancel_request_remove_insurance_fund_stake(q)));
                            }
                            _ => {}
                        }
                    }
                }
                Ok(d)
            } else {
                proof {
                    assert forall|i: DriftV2Instruction| !(wf_instr(i) && input@ == encoding_of(i)) by {
                        if wf_instr(i) && input@ == encoding_of(i) {
                            match i {
                                DriftV2Instruction::CancelRequestRemoveInsuranceFundStake(q) => {
                                    assert(is_prefix_at(input@, 8, enc_cancel_request_remove_insurance_fund_stake(q)));
                                }
                                _ => {}
                            }
                        }
                    }
                }
                Err(DecodeError::InvalidEncoding)
            }
        }
    }
}

fn finish_remove_insurance_fund_stake(input: &[u8]) -> (r: Result<DriftV2Instruction, DecodeError>)
    requires
        input@.len() >= 8,
        input@.subrange(0, 8) == enc_u64(REMOVE_INSURANCE_FUND_STAKE_TAG),
    ensures
        r matches Ok(d) ==> input@ == encoding_of(d) && wf_instr(d),
        r matches Err(e) ==> e == DecodeError::InvalidEncoding,
        forall|i: DriftV2Instruction| wf_instr(i) && input@ == encoding_of(i)
            ==> (r matches Ok(d) && instr_eqv(d, i)),
{
    proof {
        lemma_enc_lens();
        lemma_auto_spec_u64_to_from_le_bytes();
        assert forall|i: DriftV2Instruction| wf_instr(i) && input@ == encoding_of(i) implies (
            i matches DriftV2Instruction::RemoveInsuranceFundStake(_) && is_prefix_at(input@, 8, payload_enc(i))
            && input@.len() == 8 + payload_enc(i).len()
        ) by {
            lemma_prefix_whole(input@);
            lemma_split_prefix(input@, 0, enc_u64(tag_of(i)), payload_enc(i));
            assert(input@.subrange(0, 8) == enc_u64(tag_of(i)));
            assert(tag_of(i) == REMOVE_INSURANCE_FUND_STAKE_TAG);
            lemma_variant_of_tag(i);
        }
    }
    match read_remove_insurance_fund_stake(input, 8) {
        None => {
            proof {
                assert forall|i: DriftV2Instruction| !(wf_instr(i) && input@ == encoding_of(i)) by {
                    if wf_instr(i) && input@ == encoding_of(i) {
                        match i {
                            DriftV2Instruction::RemoveInsuranceFundStake(q) => {
                                assert(is_prefix_at(input@, 8, enc_remove_insurance_fund_stake(q)));
                            }
                            _ => {}
                        }
                    }
                }
            }
            Err(DecodeError::InvalidEncoding)
        }
        Some((p, end)) => {
            if end == input.len() {
                let d = DriftV2Instruction::RemoveInsuranceFundStake(p);
                proof {
                    assert(input@.subrange(0, input@.len() as int) =~= input@);
                    lemma_join_at(input@, 0, 8, end as int);
                    assert(input@ == encoding_of(d));
                    assert forall|i: DriftV2Instruction| wf_instr(i) && input@ == encoding_of(i)
                        implies instr_eqv(d, i) by {
                        match i {
                            DriftV2Instruction::RemoveInsuranceFundStake(q) => {
                                assert(is_prefix_at(input@, 8, enc_remove_insurance_fund_stake(q)));
                            }
                            _ => {}
                        }
                    }
                }
                Ok(d)
            } else {
                proof {
                    assert forall|i: DriftV2Instruction| !(wf_instr(i) && input@ == encoding_of(i)) by {
                        if wf_instr(i) && input@ == encoding_of(i) {
                            match i {
                                DriftV2Instruction::RemoveInsuranceFundStake(q) => {
                                    assert(is_prefix_at(input@, 8, enc_remove_insurance_fund_stake(q)));
                                }
                                _ => {}
                            }
                        }
                    }
                }
                Err(DecodeError::InvalidEncoding)
            }
        }
    }
}

fn finish_deposit_into_spot_market_revenue_pool(input: &[u8]) -> (r: Result<DriftV2Instruction, DecodeError>)
    requires
        input@.len() >= 8,
        input@.subrange(0, 8) == enc_u64(DEPOSIT_INTO_SPOT_MARKET_REVENUE_POOL_TAG),
    ensures
        r matches Ok(d) ==> input@ == encoding_of(d) && wf_instr(d),
        r matches Err(e) ==> e == DecodeError::InvalidEncoding,
        forall|i: DriftV2Instruction| wf_instr(i) && input@ == encoding_of(i)
            ==> (r matches Ok(d) && instr_eqv(d, i)),
{
    proof {
        lemma_enc_lens();
        lemma_auto_spec_u64_to_from_le_bytes();
        assert forall|i: DriftV2Instruction| wf_instr(i) && input@ == encoding_of(i) implies (
            i matches DriftV2Instruction::DepositIntoSpotMarketRevenuePool(_) && is_prefix_at(input@, 8, payload_enc(i))
            && input@.len() == 8 + payload_enc(i).len()
        ) by {
            lemma_prefix_whole(input@);
            lemma_split_prefix(input@, 0, enc_u64(tag_of(i)), payload_enc(i));
            assert(input@.subrange(0, 8) == enc_u64(tag_of(i)));
            assert(tag_of(i) == DEPOSIT_INTO_SPOT_MARKET_REVENUE_POOL_TAG);
            lemma_variant_of_tag(i);
        }
    }
    match read_deposit_into_spot_market_revenue_pool(input, 8) {
        None => {
            proof {
                assert forall|i: DriftV2Instruction| !(wf_instr(i) && input@ == encoding_of(i)) by {
                    if wf_instr(i) && input@ == encoding_of(i) {
                        match i {
                            DriftV2Instruction::DepositIntoSpotMarketRevenuePool(q) => {
                                assert(is_prefix_at(input@, 8, enc_deposit_into_spot_market_revenue_pool(q)));
                            }
                            _ => {}
                        }
                    }
                }
            }
            Err(DecodeError::InvalidEncoding)
        }
        Some((p, end)) => {
            if end == input.len() {
                let d = DriftV2Instruction::DepositIntoSpotMarketRevenuePool(p);
                proof {
                    assert(input@.subrange(0, input@.len() as int) =~= input@);
                    lemma_join_at(input@, 0, 8, end as int);
                    assert(input@ == encoding_of(d));
                    assert forall|i: DriftV2Instruction| wf_instr(i) && input@ == encoding_of(i)
                        implies instr_eqv(d, i) by {
                        match i {
                            DriftV2Instruction::DepositIntoSpotMarketRevenuePool(q) => {
                                assert(is_prefix_at(input@, 8, enc_deposit_into_spot_market_revenue_pool(q)));
                            }
                            _ => {}
                        }
                    }
                }
                Ok(d)
            } else {
                proof {
                    assert forall|i: DriftV2Instruction| !(wf_instr(i) && input@ == encoding_of(i)) by {
                        if wf_instr(i) && input@ == encoding_of(i) {
                            match i {
                                DriftV2Instruction::DepositIntoSpotMarketRevenuePool(q) => {
                                    assert(is_prefix_at(input@, 8, enc_deposit_into_spot_market_revenue_pool(q)));
                                }
                                _ => {}
                            }
                        }
                    }
                }
                Err(DecodeError::InvalidEncoding)
            }
        }
    }
}

/// Decode one raw instruction buffer against the catalog.
///
/// A buffer shorter than one tag fails with `InvalidEncoding`; a tag
/// outside the catalog fails with `UnknownInstruction`, and a known tag
/// whose payload is malformed, truncated, or not fully consumed fails
/// with `InvalidEncoding`.  Every byte of a well-formed buffer is
/// consumed, and decoding inverts `pack`.
pub fn unpack(input: &[u8]) -> (r: Result<DriftV2Instruction, DecodeError>)
    ensures
        input@.len() < 8 ==> r == Err::<DriftV2Instruction, DecodeError>(
            DecodeError::InvalidEncoding,
        ),
        input@.len() >= 8 ==> ((r == Err::<DriftV2Instruction, DecodeError>(
            DecodeError::UnknownInstruction,
        )) <==> !known_tag(spec_u64_from_le_bytes(input@.subrange(0, 8)))),
        r matches Ok(d) ==> input@ == encoding_of(d) && wf_instr(d),
        forall|i: DriftV2Instruction| wf_instr(i) && input@ == encoding_of(i)
            ==> (r matches Ok(d) && instr_eqv(d, i)),
{
    proof {
        lemma_enc_lens();
        lemma_auto_spec_u64_to_from_le_bytes();
    }
    if input.len() < 8 {
        proof {
            assert forall|i: DriftV2Instruction| !(wf_instr(i) && input@ == encoding_of(i)) by {
                if wf_instr(i) && input@ == encoding_of(i) {
                    assert(encoding_of(i).len() >= 8);
                }
            }
        }
        return Err(DecodeError::InvalidEncoding);
    }
    match read_u64(input, 0) {
        None => {
            proof {
                assert(false);
            }
            Err(DecodeError::InvalidEncoding)
        }
        Some((tag, _rest_start)) => {
            if tag == INITIALIZE_USER_TAG {
                finish_initialize_user(input)
            } else if tag == INITIALIZE_USER_STATS_TAG {
                finish_initialize_user_stats(input)
            } else if tag == INITIALIZE_REFERRER_NAME_TAG {
                finish_initialize_referrer_name(input)
            } else if tag == DEPOSIT_TAG {
                finish_deposit(input)
            } else if tag == WITHDRAW_TAG {
                finish_withdraw(input)
            } else if tag == TRANSFER_DEPOSIT_TAG {
                finish_transfer_deposit(input)
            } else if tag == PLACE_PERP_ORDER_TAG {
                finish_place_perp_order(input)
            } else if tag == CANCEL_ORDER_TAG {
                finish_cancel_order(input)
            } else if tag == CANCEL_ORDER_BY_USER_ID_TAG {
                finish_cancel_order_by_user_id(input)
            } else if tag == CANCEL_ORDERS_TAG {
                finish_cancel_orders(input)
            } else if tag == CANCEL_ORDERS_BY_IDS_TAG {
                finish_cancel_orders_by_ids(input)
            } else if tag == MODIFY_ORDER_TAG {
                finish_modify_order(input)
            } else if tag == PLACE_AND_TAKE_PERP_ORDER_TAG {
                finish_place_and_take_perp_order(input)
            } else if tag == PLACE_AND_MAKE_PERP_ORDER_TAG {
                finish_place_and_make_perp_order(input)
            } else if tag == PLACE_SPOT_ORDER_TAG {
                finish_place_spot_order(input)
            } else if tag == PLACE_ORDERS_TAG {
                finish_place_orders(input)
            } else if tag == BEGIN_SWAP_TAG {
                finish_begin_swap(input)
            } else if tag == END_SWAP_TAG {
                finish_end_swap(input)
            } else if tag == ADD_PERP_LP_SHARES_TAG {
                finish_add_perp_lp_shares(input)
            } else if tag == REMOVE_PERP_LP_SHARES_TAG {
                finish_remove_perp_lp_shares(input)
            } else if tag == UPDATE_USER_CUSTOM_MARGIN_RATIO_TAG {
                finish_update_user_custom_margin_ratio(input)
            } else if tag == UPDATE_USER_MARGIN_TRADING_ENABLED_TAG {
                finish_update_user_margin_trading_enabled(input)
            } else if tag == DELETE_USER_TAG {
                finish_delete_user(input)
            } else if tag == RECLAIM_RENT_TAG {
                finish_reclaim_rent(input)
            } else if tag == FILL_PERP_ORDER_TAG {
                finish_fill_perp_order(input)
            } else if tag == REVERT_FILL_TAG {
                finish_revert_fill(input)
            } else if tag == FILL_SPOT_ORDER_TAG {
                finish_fill_spot_order(input)
            } else if tag == TRIGGER_ORDER_TAG {
                finish_trigger_order(input)
            } else if tag == UPDATE_USER_IDLE_TAG {
                finish_update_user_idle(input)
            } else if tag == SETTLE_PNL_TAG {
                finish_settle_pnl(input)
            } else if tag == SETTLE_MULTIPLE_PNLS_TAG {
                finish_settle_multiple_pnls(input)
            } else if tag == SETTLE_FUNDING_PAYMENT_TAG {
                finish_settle_funding_payment(input)
            } else if tag == SETTLE_LP_TAG {
                finish_settle_lp(input)
            } else if tag == LIQUIDATE_PERP_TAG {
                finish_liquidate_perp(input)
            } else if tag == SETTLE_REVENUE_TO_INSURANCE_FUND_TAG {
                finish_settle_revenue_to_insurance_fund(input)
            } else if tag == UPDATE_FUNDING_RATE_TAG {
                finish_update_funding_rate(input)
            } else if tag == UPDATE_PRELAUNCH_ORACLE_TAG {
                finish_update_prelaunch_oracle(input)
            } else if tag == UPDATE_PERP_BID_ASK_TWAP_TAG {
                finish_update_perp_bid_ask_twap(input)
            } else if tag == UPDATE_AMMS_TAG {
                finish_update_amms(input)
            } else if tag == INITIALIZE_INSURANCE_FUND_STAKE_TAG {
                finish_initialize_insurance_fund_stake(input)
            } else if tag == ADD_INSURANCE_FUND_STAKE_TAG {
                finish_add_insurance_fund_stake(input)
            } else if tag == REQUEST_REMOVE_INSURANCE_FUND_STAKE_TAG {
                finish_request_remove_insurance_fund_stake(input)
            } else if tag == CANCEL_REQUEST_REMOVE_INSURANCE_FUND_STAKE_TAG {
                finish_cancel_request_remove_insurance_fund_stake(input)
            } else if tag == REMOVE_INSURANCE_FUND_STAKE_TAG {
                finish_remove_insurance_fund_stake(input)
            } else if tag == DEPOSIT_INTO_SPOT_MARKET_REVENUE_POOL_TAG {
                finish_deposit_into_spot_market_revenue_pool(input)
            } else {
                proof {
                    assert forall|i: DriftV2Instruction| !(wf_instr(i) && input@ == encoding_of(i)) by {
                        if wf_instr(i) && input@ == encoding_of(i) {
                            lemma_prefix_whole(input@);
                            lemma_split_prefix(input@, 0, enc_u64(tag_of(i)), payload_enc(i));
                            assert(input@.subrange(0, 8) == enc_u64(tag_of(i)));
                            assert(tag_of(i) == tag);
                            lemma_known_tags(i);
                        }
                    }
                }
                Err(DecodeError::UnknownInstruction)
            }
        }
    }
}

/// Lay one instruction down as its exact wire bytes: the 8-byte tag of
/// its variant followed by the little-endian payload fields.
pub fn pack(instr: &DriftV2Instruction) -> (r: Vec<u8>)
    requires
        wf_instr(*instr),
    ensures
        r@ == encoding_of(*instr),
{
    let mut out: Vec<u8> = Vec::new();
    match instr {
        DriftV2Instruction::InitializeUser(p) => {
            write_u64(&mut out, INITIALIZE_USER_TAG);
            write_initialize_user(&mut out, p);
            proof {
                assert(out@ =~= encoding_of(*instr));
            }
        }
        DriftV2Instruction::InitializeUserStats => {
            write_u64(&mut out, INITIALIZE_USER_STATS_TAG);
            proof {
                assert(out@ =~= encoding_of(*instr));
            }
        }
        DriftV2Instruction::InitializeReferrerName(p) => {
            write_u64(&mut out, INITIALIZE_REFERRER_NAME_TAG);
            write_initialize_referrer_name(&mut out, p);
            proof {
                assert(out@ =~= encoding_of(*instr));
            }
        }
        DriftV2Instruction::Deposit(p) => {
            write_u64(&mut out, DEPOSIT_TAG);
            write_deposit(&mut out, p);
            proof {
                assert(out@ =~= encoding_of(*instr));
            }
        }
        DriftV2Instruction::Withdraw(p) => {
            write_u64(&mut out, WITHDRAW_TAG);
            write_withdraw(&mut out, p);
            proof {
                assert(out@ =~= encoding_of(*instr));
            }
        }
        DriftV2Instruction::TransferDeposit(p) => {
            write_u64(&mut out, TRANSFER_DEPOSIT_TAG);
            write_transfer_deposit(&mut out, p);
            proof {
                assert(out@ =~= encoding_of(*instr));
            }
        }
        DriftV2Instruction::PlacePerpOrder(p) => {
            write_u64(&mut out, PLACE_PERP_ORDER_TAG);
            write_place_perp_order(&mut out, p);
            proof {
                assert(out@ =~= encoding_of(*instr));
            }
        }
        DriftV2Instruction::CancelOrder(p) => {
            write_u64(&mut out, CANCEL_ORDER_TAG);
            write_cancel_order(&mut out, p);
            proof {
                assert(out@ =~= encoding_of(*instr));
            }
        }
        DriftV2Instruction::CancelOrderByUserId(p) => {
            write_u64(&mut out, CANCEL_ORDER_BY_USER_ID_TAG);
            write_cancel_order_by_user_id(&mut out, p);
            proof {
                assert(out@ =~= encoding_of(*instr));
            }
        }
        DriftV2Instruction::CancelOrders(p) => {
            write_u64(&mut out, CANCEL_ORDERS_TAG);
            write_cancel_orders(&mut out, p);
            proof {
                assert(out@ =~= encoding_of(*instr));
            }
        }
        DriftV2Instruction::CancelOrdersByIds(p) => {
            write_u64(&mut out, CANCEL_ORDERS_BY_IDS_TAG);
            write_cancel_orders_by_ids(&mut out, p);
            proof {
                assert(out@ =~= encoding_of(*instr));
            }
        }
        DriftV2Instruction::ModifyOrder(p) => {
            write_u64(&mut out, MODIFY_ORDER_TAG);
            write_modify_order(&mut out, p);
            proof {
                assert(out@ =~= encoding_of(*instr));
            }
        }
        DriftV2Instruction::PlaceAndTakePerpOrder(p) => {
            write_u64(&mut out, PLACE_AND_TAKE_PERP_ORDER_TAG);
            write_place_and_take_perp_order(&mut out, p);
            proof {
                assert(out@ =~= encoding_of(*instr));
            }
        }
        DriftV2Instruction::PlaceAndMakePerpOrder(p) => {
            write_u64(&mut out, PLACE_AND_MAKE_PERP_ORDER_TAG);
            write_place_and_make_perp_order(&mut out, p);
            proof {
                assert(out@ =~= encoding_of(*instr));
            }
        }
        DriftV2Instruction::PlaceSpotOrder(p) => {
            write_u64(&mut out, PLACE_SPOT_ORDER_TAG);
            write_place_spot_order(&mut out, p);
            proof {
                assert(out@ =~= encoding_of(*instr));
            }
        }
        DriftV2Instruction::PlaceOrders(p) => {
            write_u64(&mut out, PLACE_ORDERS_TAG);
            write_place_orders(&mut out, p);
            proof {
                assert(out@ =~= encoding_of(*instr));
            }
        }
        DriftV2Instruction::BeginSwap(p) => {
            write_u64(&mut out, BEGIN_SWAP_TAG);
            write_begin_swap(&mut out, p);
            proof {
                assert(out@ =~= encoding_of(*instr));
            }
        }
        DriftV2Instruction::EndSwap(p) => {
            write_u64(&mut out, END_SWAP_TAG);
            write_end_swap(&mut out, p);
            proof {
                assert(out@ =~= encoding_of(*instr));
            }
        }
        DriftV2Instruction::AddPerpLpShares(p) => {
            write_u64(&mut out, ADD_PERP_LP_SHARES_TAG);
            write_add_perp_lp_shares(&mut out, p);
            proof {
                assert(out@ =~= encoding_of(*instr));
            }
        }
        DriftV2Instruction::RemovePerpLpShares(p) => {
            write_u64(&mut out, REMOVE_PERP_LP_SHARES_TAG);
            write_remove_perp_lp_shares(&mut out, p);
            proof {
                assert(out@ =~= encoding_of(*instr));
            }
        }
        DriftV2Instruction::UpdateUserCustomMarginRatio(p) => {
            write_u64(&mut out, UPDATE_USER_CUSTOM_MARGIN_RATIO_TAG);
            write_update_user_custom_margin_ratio(&mut out, p);
            proof {
                assert(out@ =~= encoding_of(*instr));
            }
        }
        DriftV2Instruction::UpdateUserMarginTradingEnabled(p) => {
            write_u64(&mut out, UPDATE_USER_MARGIN_TRADING_ENABLED_TAG);
            write_update_user_margin_trading_enabled(&mut out, p);
            proof {
                assert(out@ =~= encoding_of(*instr));
            }
        }
        DriftV2Instruction::DeleteUser => {
            write_u64(&mut out, DELETE_USER_TAG);
            proof {
                assert(out@ =~= encoding_of(*instr));
            }
        }
        DriftV2Instruction::ReclaimRent => {
            write_u64(&mut out, RECLAIM_RENT_TAG);
            proof {
                assert(out@ =~= encoding_of(*instr));
            }
        }
        DriftV2Instruction::FillPerpOrder(p) => {
            write_u64(&mut out, FILL_PERP_ORDER_TAG);
            write_fill_perp_order(&mut out, p);
            proof {
                assert(out@ =~= encoding_of(*instr));
            }
        }
        DriftV2Instruction::RevertFill => {
            write_u64(&mut out, REVERT_FILL_TAG);
            proof {
                assert(out@ =~= encoding_of(*instr));
            }
        }
        DriftV2Instruction::FillSpotOrder(p) => {
            write_u64(&mut out, FILL_SPOT_ORDER_TAG);
            write_fill_spot_order(&mut out, p);
            proof {
                assert(out@ =~= encoding_of(*instr));
            }
        }
        DriftV2Instruction::TriggerOrder(p) => {
            write_u64(&mut out, TRIGGER_ORDER_TAG);
            write_trigger_order(&mut out, p);
            proof {
                assert(out@ =~= encoding_of(*instr));
            }
        }
        DriftV2Instruction::UpdateUserIdle => {
            write_u64(&mut out, UPDATE_USER_IDLE_TAG);
            proof {
                assert(out@ =~= encoding_of(*instr));
            }
        }
        DriftV2Instruction::SettlePnl(p) => {
            write_u64(&mut out, SETTLE_PNL_TAG);
            write_settle_pnl(&mut out, p);
            proof {
                assert(out@ =~= encoding_of(*instr));
            }
        }
        DriftV2Instruction::SettleMultiplePnls(p) => {
            write_u64(&mut out, SETTLE_MULTIPLE_PNLS_TAG);
            write_settle_multiple_pnls(&mut out, p);
            proof {
                assert(out@ =~= encoding_of(*instr));
            }
        }
        DriftV2Instruction::SettleFundingPayment => {
            write_u64(&mut out, SETTLE_FUNDING_PAYMENT_TAG);
            proof {
                assert(out@ =~= encoding_of(*instr));
            }
        }
        DriftV2Instruction::SettleLp(p) => {
            write_u64(&mut out, SETTLE_LP_TAG);
            write_settle_lp(&mut out, p);
            proof {
                assert(out@ =~= encoding_of(*instr));
            }
        }
        DriftV2Instruction::LiquidatePerp(p) => {
            write_u64(&mut out, LIQUIDATE_PERP_TAG);
            write_liquidate_perp(&mut out, p);
            proof {
                assert(out@ =~= encoding_of(*instr));
            }
        }
        DriftV2Instruction::SettleRevenueToInsuranceFund(p) => {
            write_u64(&mut out, SETTLE_REVENUE_TO_INSURANCE_FUND_TAG);
            write_settle_revenue_to_insurance_fund(&mut out, p);
            proof {
                assert(out@ =~= encoding_of(*instr));
            }
        }
        DriftV2Instruction::UpdateFundingRate(p) => {
            write_u64(&mut out, UPDATE_FUNDING_RATE_TAG);
            write_update_funding_rate(&mut out, p);
            proof {
                assert(out@ =~= encoding_of(*instr));
            }
        }
        DriftV2Instruction::UpdatePrelaunchOracle => {
            write_u64(&mut out, UPDATE_PRELAUNCH_ORACLE_TAG);
            proof {
                assert(out@ =~= encoding_of(*instr));
            }
        }
        DriftV2Instruction::UpdatePerpBidAskTwap => {
            write_u64(&mut out, UPDATE_PERP_BID_ASK_TWAP_TAG);
            proof {
                assert(out@ =~= encoding_of(*instr));
            }
        }
        DriftV2Instruction::UpdateAmms(p) => {
            write_u64(&mut out, UPDATE_AMMS_TAG);
            write_update_amms(&mut out, p);
            proof {
                assert(out@ =~= encoding_of(*instr));
            }
        }
        DriftV2Instruction::InitializeInsuranceFundStake(p) => {
            write_u64(&mut out, INITIALIZE_INSURANCE_FUND_STAKE_TAG);
            write_initialize_insurance_fund_stake(&mut out, p);
            proof {
                assert(out@ =~= encoding_of(*instr));
            }
        }
        DriftV2Instruction::AddInsuranceFundStake(p) => {
            write_u64(&mut out, ADD_INSURANCE_FUND_STAKE_TAG);
            write_add_insurance_fund_stake(&mut out, p);
            proof {
                assert(out@ =~= encoding_of(*instr));
            }
        }
        DriftV2Instruction::RequestRemoveInsuranceFundStake(p) => {
            write_u64(&mut out, REQUEST_REMOVE_INSURANCE_FUND_STAKE_TAG);
            write_request_remove_insurance_fund_stake(&mut out, p);
            proof {
                assert(out@ =~= encoding_of(*instr));
            }
        }
        DriftV2Instruction::CancelRequestRemoveInsuranceFundStake(p) => {
            write_u64(&mut out, CANCEL_REQUEST_REMOVE_INSURANCE_FUND_STAKE_TAG);
            write_cancel_request_remove_insurance_fund_stake(&mut out, p);
            proof {
                assert(out@ =~= encoding_of(*instr));
            }
        }
        DriftV2Instruction::RemoveInsuranceFundStake(p) => {
            write_u64(&mut out, REMOVE_INSURANCE_FUND_STAKE_TAG);
            write_remove_insurance_fund_stake(&mut out, p);
            proof {
                assert(out@ =~= encoding_of(*instr));
            }
        }
        DriftV2Instruction::DepositIntoSpotMarketRevenuePool(p) => {
            write_u64(&mut out, DEPOSIT_INTO_SPOT_MARKET_REVENUE_POOL_TAG);
            write_deposit_into_spot_market_revenue_pool(&mut out, p);
            proof {
                assert(out@ =~= encoding_of(*instr));
            }
        }
    }
    out
}

} // verus!
