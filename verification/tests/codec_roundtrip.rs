//! Round-trip checks: packing any cataloged instruction and decoding the
//! bytes yields the original value, for every variant of the catalog.

use drift_ingest::instructions::{pack, unpack, DriftV2Instruction};
use drift_ingest::payloads::{
    AddInsuranceFundStake, AddPerpLpShares, BeginSwap, CancelOrder, CancelOrderByUserId,
    CancelOrders, CancelOrdersByIds, CancelRequestRemoveInsuranceFundStake, DeleteUser,
    Deposit, DepositIntoSpotMarketRevenuePool, EndSwap, FillPerpOrder, FillSpotOrder,
    InitializeInsuranceFundStake, InitializeReferrerName, InitializeUser,
    InitializeUserStats, LiquidatePerp, ModifyOrder, PlaceAndMakePerpOrder,
    PlaceAndTakePerpOrder, PlaceOrders, PlacePerpOrder, PlaceSpotOrder, ReclaimRent,
    RemoveInsuranceFundStake, RemovePerpLpShares, RequestRemoveInsuranceFundStake,
    RevertFill, SettleFundingPayment, SettleLp, SettleMultiplePnls, SettlePnl,
    SettleRevenueToInsuranceFund, TransferDeposit, TriggerOrder, UpdateAmms,
    UpdateFundingRate, UpdatePerpBidAskTwap, UpdatePrelaunchOracle,
    UpdateUserCustomMarginRatio, UpdateUserIdle, UpdateUserMarginTradingEnabled, Withdraw,
};
use drift_ingest::orders::{
    MarketType, ModifyOrderParams, ModifyOrderPolicy, OrderParams, OrderTriggerCondition,
    OrderType, PositionDirection, PostOnlyParam, SettlePnlMode, SpotFulfillmentType,
    SwapReduceOnly,
};

fn sample_order_params() -> OrderParams {
    OrderParams {
        order_type: OrderType::Limit,
        market_type: MarketType::Perp,
        direction: PositionDirection::Short,
        user_order_id: 7u8,
        base_asset_amount: 5000000001u64,
        price: 5000000001u64,
        market_index: 258u16,
        reduce_only: true,
        post_only: PostOnlyParam::MustPostOnly,
        immediate_or_cancel: true,
        max_ts: Some(-9876543210i64),
        trigger_price: Some(5000000001u64),
        trigger_condition: OrderTriggerCondition::Below,
        oracle_price_offset: Some(-12345i32),
        auction_duration: Some(7u8),
        auction_start_price: Some(-9876543210i64),
        auction_end_price: Some(-9876543210i64),
    }
}

fn sample_modify_order_params() -> ModifyOrderParams {
    ModifyOrderParams {
        direction: Some(PositionDirection::Short),
        base_asset_amount: Some(5000000001u64),
        price: Some(5000000001u64),
        reduce_only: Some(true),
        post_only: Some(PostOnlyParam::MustPostOnly),
        immediate_or_cancel: Some(true),
        max_ts: Some(-9876543210i64),
        trigger_price: Some(5000000001u64),
        trigger_condition: Some(OrderTriggerCondition::Below),
        oracle_price_offset: Some(-12345i32),
        auction_duration: Some(7u8),
        auction_start_price: Some(-9876543210i64),
        auction_end_price: Some(-9876543210i64),
        policy: Some(ModifyOrderPolicy::MustModify),
    }
}

fn check_roundtrip(v: DriftV2Instruction) {
    let bytes = pack(&v);
    assert_eq!(unpack(&bytes), Ok(v));
}

#[test]
fn roundtrip_initialize_user() {
    check_roundtrip(DriftV2Instruction::InitializeUser(InitializeUser {
        sub_account_id: 258u16,
        name: std::array::from_fn(|i| i as u8),
    }));
}

#[test]
fn roundtrip_initialize_user_stats() {
    check_roundtrip(DriftV2Instruction::InitializeUserStats);
}

#[test]
fn roundtrip_initialize_referrer_name() {
    check_roundtrip(DriftV2Instruction::InitializeReferrerName(InitializeReferrerName {
        name: std::array::from_fn(|i| i as u8),
    }));
}

#[test]
fn roundtrip_deposit() {
    check_roundtrip(DriftV2Instruction::Deposit(Deposit {
        market_index: 258u16,
        amount: 5000000001u64,
        reduce_only: true,
    }));
}

#[test]
fn roundtrip_withdraw() {
    check_roundtrip(DriftV2Instruction::Withdraw(Withdraw {
        market_index: 258u16,
        amount: 5000000001u64,
        reduce_only: true,
    }));
}

#[test]
fn roundtrip_transfer_deposit() {
    check_roundtrip(DriftV2Instruction::TransferDeposit(TransferDeposit {
        market_index: 258u16,
        amount: 5000000001u64,
    }));
}

#[test]
fn roundtrip_place_perp_order() {
    check_roundtrip(DriftV2Instruction::PlacePerpOrder(PlacePerpOrder {
        params: sample_order_params(),
    }));
}

#[test]
fn roundtrip_cancel_order() {
    check_roundtrip(DriftV2Instruction::CancelOrder(CancelOrder {
        order_id: Some(70000u32),
    }));
}

#[test]
fn roundtrip_cancel_order_by_user_id() {
    check_roundtrip(DriftV2Instruction::CancelOrderByUserId(CancelOrderByUserId {
        user_order_id: 7u8,
    }));
}

#[test]
fn roundtrip_cancel_orders() {
    check_roundtrip(DriftV2Instruction::CancelOrders(CancelOrders {
        market_type: Some(MarketType::Perp),
        market_index: Some(258u16),
        direction: Some(PositionDirection::Short),
    }));
}

#[test]
fn roundtrip_cancel_orders_by_ids() {
    check_roundtrip(DriftV2Instruction::CancelOrdersByIds(CancelOrdersByIds {
        order_ids: vec![10, 20, 30],
    }));
}

#[test]
fn roundtrip_modify_order() {
    check_roundtrip(DriftV2Instruction::ModifyOrder(ModifyOrder {
        order_id: Some(70000u32),
        modify_order_params: sample_modify_order_params(),
    }));
}

#[test]
fn roundtrip_place_and_take_perp_order() {
    check_roundtrip(DriftV2Instruction::PlaceAndTakePerpOrder(PlaceAndTakePerpOrder {
        params: sample_order_params(),
        maker_order_id: Some(70000u32),
    }));
}

#[test]
fn roundtrip_place_and_make_perp_order() {
    check_roundtrip(DriftV2Instruction::PlaceAndMakePerpOrder(PlaceAndMakePerpOrder {
        params: sample_order_params(),
        taker_order_id: 70000u32,
    }));
}

#[test]
fn roundtrip_place_spot_order() {
    check_roundtrip(DriftV2Instruction::PlaceSpotOrder(PlaceSpotOrder {
        params: sample_order_params(),
    }));
}

#[test]
fn roundtrip_place_orders() {
    check_roundtrip(DriftV2Instruction::PlaceOrders(PlaceOrders {
        params: vec![sample_order_params(), sample_order_params()],
    }));
}

#[test]
fn roundtrip_begin_swap() {
    check_roundtrip(DriftV2Instruction::BeginSwap(BeginSwap {
        in_market_index: 258u16,
        out_market_index: 258u16,
        amount_in: 5000000001u64,
    }));
}

#[test]
fn roundtrip_end_swap() {
    check_roundtrip(DriftV2Instruction::EndSwap(EndSwap {
        in_market_index: 258u16,
        out_market_index: 258u16,
        limit_price: Some(5000000001u64),
        reduce_only: Some(SwapReduceOnly::Out),
    }));
}

#[test]
fn roundtrip_add_perp_lp_shares() {
    check_roundtrip(DriftV2Instruction::AddPerpLpShares(AddPerpLpShares {
        n_shares: 5000000001u64,
        market_index: 258u16,
    }));
}

#[test]
fn roundtrip_remove_perp_lp_shares() {
    check_roundtrip(DriftV2Instruction::RemovePerpLpShares(RemovePerpLpShares {
        shares_to_burn: 5000000001u64,
        market_index: 258u16,
    }));
}

#[test]
fn roundtrip_update_user_custom_margin_ratio() {
    check_roundtrip(DriftV2Instruction::UpdateUserCustomMarginRatio(UpdateUserCustomMarginRatio {
        sub_account_id: 258u16,
        margin_ratio: 70000u32,
    }));
}

#[test]
fn roundtrip_update_user_margin_trading_enabled() {
    check_roundtrip(DriftV2Instruction::UpdateUserMarginTradingEnabled(UpdateUserMarginTradingEnabled {
        sub_account_id: 258u16,
        margin_trading_enabled: true,
    }));
}

#[test]
fn roundtrip_delete_user() {
    check_roundtrip(DriftV2Instruction::DeleteUser);
}

#[test]
fn roundtrip_reclaim_rent() {
    check_roundtrip(DriftV2Instruction::ReclaimRent);
}

#[test]
fn roundtrip_fill_perp_order() {
    check_roundtrip(DriftV2Instruction::FillPerpOrder(FillPerpOrder {
        order_id: Some(70000u32),
        maker_order_id: Some(70000u32),
    }));
}

#[test]
fn roundtrip_revert_fill() {
    check_roundtrip(DriftV2Instruction::RevertFill);
}

#[test]
fn roundtrip_fill_spot_order() {
    check_roundtrip(DriftV2Instruction::FillSpotOrder(FillSpotOrder {
        order_id: Some(70000u32),
        fulfillment_type: Some(SpotFulfillmentType::Match),
        maker_order_id: Some(70000u32),
    }));
}

#[test]
fn roundtrip_trigger_order() {
    check_roundtrip(DriftV2Instruction::TriggerOrder(TriggerOrder {
        order_id: 70000u32,
    }));
}

#[test]
fn roundtrip_update_user_idle() {
    check_roundtrip(DriftV2Instruction::UpdateUserIdle);
}

#[test]
fn roundtrip_settle_pnl() {
    check_roundtrip(DriftV2Instruction::SettlePnl(SettlePnl {
        market_index: 258u16,
    }));
}

#[test]
fn roundtrip_settle_multiple_pnls() {
    check_roundtrip(DriftV2Instruction::SettleMultiplePnls(SettleMultiplePnls {
        market_indexes: vec![5, 6],
        mode: SettlePnlMode::TrySettle,
    }));
}

#[test]
fn roundtrip_settle_funding_payment() {
    check_roundtrip(DriftV2Instruction::SettleFundingPayment);
}

#[test]
fn roundtrip_settle_lp() {
    check_roundtrip(DriftV2Instruction::SettleLp(SettleLp {
        market_index: 258u16,
    }));
}

#[test]
fn roundtrip_liquidate_perp() {
    check_roundtrip(DriftV2Instruction::LiquidatePerp(LiquidatePerp {
        market_index: 258u16,
        liquidator_max_base_asset_amount: 5000000001u64,
        limit_price: Some(5000000001u64),
    }));
}

#[test]
fn roundtrip_settle_revenue_to_insurance_fund() {
    check_roundtrip(DriftV2Instruction::SettleRevenueToInsuranceFund(SettleRevenueToInsuranceFund {
        spot_market_index: 258u16,
    }));
}

#[test]
fn roundtrip_update_funding_rate() {
    check_roundtrip(DriftV2Instruction::UpdateFundingRate(UpdateFundingRate {
        market_index: 258u16,
    }));
}

#[test]
fn roundtrip_update_prelaunch_oracle() {
    check_roundtrip(DriftV2Instruction::UpdatePrelaunchOracle);
}

#[test]
fn roundtrip_update_perp_bid_ask_twap() {
    check_roundtrip(DriftV2Instruction::UpdatePerpBidAskTwap);
}

#[test]
fn roundtrip_update_amms() {
    check_roundtrip(DriftV2Instruction::UpdateAmms(UpdateAmms {
        market_indexes: [1, 2, 3, 4, 5],
    }));
}

#[test]
fn roundtrip_initialize_insurance_fund_stake() {
    check_roundtrip(DriftV2Instruction::InitializeInsuranceFundStake(InitializeInsuranceFundStake {
        market_index: 258u16,
    }));
}

#[test]
fn roundtrip_add_insurance_fund_stake() {
    check_roundtrip(DriftV2Instruction::AddInsuranceFundStake(AddInsuranceFundStake {
        market_index: 258u16,
        amount: 5000000001u64,
    }));
}

#[test]
fn roundtrip_request_remove_insurance_fund_stake() {
    check_roundtrip(DriftV2Instruction::RequestRemoveInsuranceFundStake(RequestRemoveInsuranceFundStake {
        market_index: 258u16,
        amount: 5000000001u64,
    }));
}

#[test]
fn roundtrip_cancel_request_remove_insurance_fund_stake() {
    check_roundtrip(DriftV2Instruction::CancelRequestRemoveInsuranceFundStake(CancelRequestRemoveInsuranceFundStake {
        market_index: 258u16,
    }));
}

#[test]
fn roundtrip_remove_insurance_fund_stake() {
    check_roundtrip(DriftV2Instruction::RemoveInsuranceFundStake(RemoveInsuranceFundStake {
        market_index: 258u16,
    }));
}

#[test]
fn roundtrip_deposit_into_spot_market_revenue_pool() {
    check_roundtrip(DriftV2Instruction::DepositIntoSpotMarketRevenuePool(DepositIntoSpotMarketRevenuePool {
        amount: 5000000001u64,
    }));
}

#[test]
fn roundtrip_cancel_order_without_id() {
    check_roundtrip(DriftV2Instruction::CancelOrder(CancelOrder { order_id: None }));
}

#[test]
fn roundtrip_cancel_orders_all_unset() {
    check_roundtrip(DriftV2Instruction::CancelOrders(CancelOrders {
        market_type: None,
        market_index: None,
        direction: None,
    }));
}

#[test]
fn roundtrip_cancel_orders_by_ids_empty() {
    check_roundtrip(DriftV2Instruction::CancelOrdersByIds(CancelOrdersByIds {
        order_ids: vec![],
    }));
}
