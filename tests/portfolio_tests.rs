use portfolio_backend::address::check_address;
use portfolio_backend::cache::{data_from_row, summarize, view_from_store, PortfolioCache};
use portfolio_backend::config::{load_wallets, WalletConfig};
use portfolio_backend::error::AppError;
use portfolio_backend::history::{bucket_of, history, HistoryBucket};
use portfolio_backend::portfolio::{
    positions_value, refresh_all, value_wallet, MarketBody, PortfolioData, PortfolioSnapshot,
    ValueField, WalletFetch,
};

const TEN_AM: i64 = 1_704_103_200_000;
const ADDR_A: &str = "0x1111111111111111111111111111111111111111";
const ADDR_B: &str = "0x2222222222222222222222222222222222222222";

fn wallet(id: &str, address: &str) -> WalletConfig {
    WalletConfig {
        wallet_id: id.to_string(),
        name: format!("wallet {}", id),
        proxy_address: address.to_string(),
    }
}

fn row(id: i32, timestamp: i64, address: &str, usdc: u64, positions: u64) -> PortfolioSnapshot {
    PortfolioSnapshot {
        id,
        timestamp,
        proxy_address: address.to_string(),
        portfolio_total: usdc as u128 + positions as u128,
        usdc_balance: usdc,
        positions_value: positions,
    }
}

fn data(address: &str, usdc: u64, positions: u64, at: i64) -> PortfolioData {
    value_wallet(address, &Ok(usdc), &Ok(positions), at)
}

fn value_of(b: &HistoryBucket, address: &str) -> Option<u64> {
    b.wallets.iter().find(|w| w.address == address).map(|w| w.value)
}

#[test]
fn snapshot_total_is_sum_of_components() {
    let d = value_wallet(ADDR_A, &Ok(1_500_000), &Ok(2_250_000), 42);
    assert_eq!(d.usdc_balance, 1_500_000);
    assert_eq!(d.positions_value, 2_250_000);
    assert_eq!(d.portfolio_total, 3_750_000);
    assert_eq!(d.proxy_address, ADDR_A);
    assert_eq!(d.last_updated, 42);
}

#[test]
fn snapshot_total_of_largest_components() {
    let d = value_wallet(ADDR_A, &Ok(u64::MAX), &Ok(u64::MAX), 0);
    assert_eq!(d.portfolio_total, 2 * (u64::MAX as u128));
}

#[test]
fn failed_sources_degrade_to_zero() {
    let d = value_wallet(
        ADDR_A,
        &Err(AppError::RpcError("node down".to_string())),
        &Ok(7_000_000),
        1,
    );
    assert_eq!(d.usdc_balance, 0);
    assert_eq!(d.portfolio_total, 7_000_000);
    let e = value_wallet(ADDR_A, &Ok(5), &Err(AppError::ApiError("timeout".to_string())), 1);
    assert_eq!(e.positions_value, 0);
    assert_eq!(e.portfolio_total, 5);
}

#[test]
fn refresh_failed_balance_keeps_other_wallets() {
    let wallets = vec![wallet("1", ADDR_A), wallet("2", ADDR_B)];
    let fetches = vec![
        WalletFetch {
            balance: Err(AppError::RpcError("unreachable".to_string())),
            positions: Ok(4_000_000),
            observed_at: TEN_AM,
        },
        WalletFetch { balance: Ok(1_000_000), positions: Ok(2_000_000), observed_at: TEN_AM + 1 },
    ];
    let r = refresh_all(&wallets, &fetches, TEN_AM + 2);
    assert_eq!(r.snapshots.len(), 2);
    assert_eq!(r.snapshots[0].proxy_address, ADDR_A);
    assert_eq!(r.snapshots[0].usdc_balance, 0);
    assert_eq!(r.snapshots[0].portfolio_total, 4_000_000);
    assert_eq!(r.snapshots[1].proxy_address, ADDR_B);
    assert_eq!(r.snapshots[1].portfolio_total, 3_000_000);
    assert_eq!(r.fleet_total, 7_000_000);
    assert_eq!(r.timestamp, TEN_AM + 2);
}

#[test]
fn refresh_fleet_total_is_sum_of_parts() {
    let wallets = vec![wallet("1", ADDR_A), wallet("2", ADDR_B), wallet("3", ADDR_A)];
    let fetches = vec![
        WalletFetch { balance: Ok(1), positions: Ok(2), observed_at: 0 },
        WalletFetch { balance: Ok(10), positions: Ok(20), observed_at: 0 },
        WalletFetch { balance: Ok(100), positions: Ok(200), observed_at: 0 },
    ];
    let r = refresh_all(&wallets, &fetches, 0);
    let sum: u128 = r.snapshots.iter().map(|d| d.portfolio_total).sum();
    assert_eq!(r.fleet_total, sum);
    assert_eq!(r.fleet_total, 333);
}

#[test]
fn refresh_of_empty_fleet_is_empty() {
    let r = refresh_all(&Vec::new(), &Vec::new(), 9);
    assert!(r.snapshots.is_empty());
    assert_eq!(r.fleet_total, 0);
}

#[test]
fn cache_is_empty_before_any_refresh() {
    let cache = PortfolioCache::new();
    assert!(cache.is_empty());
    assert!(cache.cached_view().is_none());
}

#[test]
fn cache_serves_reads_after_refresh() {
    let mut cache = PortfolioCache::new();
    let snapshots = vec![data(ADDR_A, 1_000_000, 500_000, 1), data(ADDR_B, 2_000_000, 0, 1)];
    cache.write_through(&snapshots);
    let v = cache.cached_view().expect("cached");
    assert_eq!(v.wallets.len(), 2);
    assert_eq!(v.total_portfolio, 3_500_000);
    assert_eq!(v.total_usdc_balance, 3_000_000);
    assert_eq!(v.total_positions_value, 500_000);
}

#[test]
fn cache_overwrites_entry_of_same_address() {
    let mut cache = PortfolioCache::new();
    cache.insert(data(ADDR_A, 1, 1, 1));
    cache.insert(data(ADDR_B, 5, 5, 1));
    cache.insert(data(ADDR_A, 7, 0, 2));
    assert_eq!(cache.len(), 2);
    let v = cache.cached_view().expect("cached");
    assert_eq!(v.wallets[0].proxy_address, ADDR_A);
    assert_eq!(v.wallets[0].usdc_balance, 7);
    assert_eq!(v.wallets[0].last_updated, 2);
    assert_eq!(v.total_portfolio, 17);
}

#[test]
fn store_fallback_reads_latest_rows() {
    let rows = vec![row(1, TEN_AM, ADDR_A, 3_000_000, 1_000_000), row(2, TEN_AM, ADDR_B, 2, 0)];
    let v = view_from_store(Ok(rows));
    assert_eq!(v.wallets.len(), 2);
    assert_eq!(v.wallets[0].portfolio_total, 4_000_000);
    assert_eq!(v.wallets[0].last_updated, TEN_AM);
    assert_eq!(v.total_portfolio, 4_000_002);
    assert_eq!(v.total_usdc_balance, 3_000_002);
    assert_eq!(v.total_positions_value, 1_000_000);
}

#[test]
fn store_failure_reads_as_no_data() {
    let v = view_from_store(Err(AppError::DbError("gone".to_string())));
    assert!(v.wallets.is_empty());
    assert_eq!(v.total_portfolio, 0);
    assert_eq!(v.total_usdc_balance, 0);
    assert_eq!(v.total_positions_value, 0);
}

#[test]
fn row_total_is_kept_as_stored() {
    let mut r = row(3, 5, ADDR_A, 10, 20);
    r.portfolio_total = 999;
    let d = data_from_row(&r);
    assert_eq!(d.portfolio_total, 999);
    assert_eq!(d.usdc_balance, 10);
    assert_eq!(d.positions_value, 20);
    let v = view_from_store(Ok(vec![r]));
    assert_eq!(v.total_portfolio, 999);
}

#[test]
fn store_fallback_keeps_latest_row_per_address() {
    let rows = vec![
        row(1, TEN_AM, ADDR_A, 1, 0),
        row(2, TEN_AM + 10, ADDR_B, 50, 0),
        row(3, TEN_AM + 20, ADDR_A, 2, 0),
        row(4, TEN_AM + 5, ADDR_A, 3, 0),
    ];
    let v = view_from_store(Ok(rows));
    assert_eq!(v.wallets.len(), 2);
    assert_eq!(v.wallets[0].proxy_address, ADDR_A);
    assert_eq!(v.wallets[0].usdc_balance, 2);
    assert_eq!(v.wallets[0].last_updated, TEN_AM + 20);
    assert_eq!(v.total_usdc_balance, 52);
}

#[test]
fn store_fallback_tie_keeps_last_row() {
    let rows = vec![row(1, TEN_AM, ADDR_A, 4, 0), row(2, TEN_AM, ADDR_A, 6, 0)];
    let v = view_from_store(Ok(rows));
    assert_eq!(v.wallets.len(), 1);
    assert_eq!(v.wallets[0].usdc_balance, 6);
    assert_eq!(v.total_portfolio, 6);
}

#[test]
fn summarize_sums_each_column() {
    let v = summarize(vec![data(ADDR_A, 1, 2, 0), data(ADDR_B, 3, 4, 0)]);
    assert_eq!(v.total_portfolio, 10);
    assert_eq!(v.total_usdc_balance, 4);
    assert_eq!(v.total_positions_value, 6);
}

#[test]
fn history_merges_addresses_in_one_minute() {
    let rows = vec![row(1, TEN_AM + 5_000, ADDR_A, 5, 0), row(2, TEN_AM + 50_000, ADDR_B, 7, 0)];
    let h = history(&rows);
    assert_eq!(h.len(), 1);
    assert_eq!(h[0].timestamp, TEN_AM);
    assert_eq!(h[0].wallets.len(), 2);
    assert_eq!(value_of(&h[0], ADDR_A), Some(5));
    assert_eq!(value_of(&h[0], ADDR_B), Some(7));
    assert_eq!(h[0].total, 12);
}

#[test]
fn history_same_address_in_one_minute_keeps_later() {
    let rows = vec![row(1, TEN_AM + 5_000, ADDR_A, 3, 0), row(2, TEN_AM + 40_000, ADDR_A, 9, 0)];
    let h = history(&rows);
    assert_eq!(h.len(), 1);
    assert_eq!(h[0].wallets.len(), 1);
    assert_eq!(value_of(&h[0], ADDR_A), Some(9));
    assert_eq!(h[0].total, 9);
}

#[test]
fn history_buckets_ascend_without_carry_over() {
    let rows = vec![
        row(1, TEN_AM + 125_000, ADDR_B, 4, 100),
        row(2, TEN_AM + 1_000, ADDR_A, 2, 100),
        row(3, TEN_AM + 61_000, ADDR_A, 6, 100),
    ];
    let h = history(&rows);
    let starts: Vec<i64> = h.iter().map(|b| b.timestamp).collect();
    assert_eq!(starts, vec![TEN_AM, TEN_AM + 60_000, TEN_AM + 120_000]);
    assert_eq!(h[0].total, 2);
    assert_eq!(h[1].total, 6);
    assert_eq!(value_of(&h[2], ADDR_A), None);
    assert_eq!(h[2].total, 4);
}

#[test]
fn history_of_no_rows_is_empty() {
    assert!(history(&Vec::new()).is_empty());
}

#[test]
fn bucket_start_truncates_down() {
    assert_eq!(bucket_of(TEN_AM + 59_999), TEN_AM);
    assert_eq!(bucket_of(TEN_AM), TEN_AM);
    assert_eq!(bucket_of(-1), -60_000);
}

#[test]
fn null_value_and_unavailable_status_read_as_zero() {
    assert_eq!(positions_value(200, Ok(MarketBody::Object(ValueField::NotNumber))), Ok(0));
    assert_eq!(positions_value(503, Ok(MarketBody::Object(ValueField::Number(8_000_000)))), Ok(0));
    assert_eq!(positions_value(503, Err(AppError::ParseError("html".to_string()))), Ok(0));
}

#[test]
fn value_of_object_and_list_bodies() {
    assert_eq!(positions_value(200, Ok(MarketBody::Object(ValueField::Number(1_250_000)))), Ok(1_250_000));
    let list = MarketBody::List(vec![ValueField::Absent, ValueField::Number(42), ValueField::Number(7)]);
    assert_eq!(positions_value(200, Ok(list)), Ok(42));
    assert_eq!(positions_value(200, Ok(MarketBody::List(vec![ValueField::Absent]))), Ok(0));
    assert_eq!(positions_value(200, Ok(MarketBody::Object(ValueField::Absent))), Ok(0));
    assert_eq!(positions_value(200, Ok(MarketBody::Scalar)), Ok(0));
    assert_eq!(positions_value(200, Ok(MarketBody::Object(ValueField::Number(-5)))), Ok(0));
}

#[test]
fn unparseable_body_is_an_error() {
    let r = positions_value(200, Err(AppError::ParseError("bad json".to_string())));
    assert_eq!(r, Err(AppError::ParseError("bad json".to_string())));
}

#[test]
fn addresses_are_checked() {
    assert!(check_address(ADDR_A).is_ok());
    assert!(check_address("2791Bca1f2de4661ED88A30C99A7a9449Aa84174").is_ok());
    assert!(check_address("0X2791Bca1f2de4661ED88A30C99A7a9449Aa84174").is_ok());
    assert!(matches!(check_address("0x1234"), Err(AppError::ParseError(_))));
    assert!(check_address("0xZZ91Bca1f2de4661ED88A30C99A7a9449Aa84174").is_err());
    assert!(check_address("").is_err());
}

#[test]
fn wallets_without_address_are_dropped() {
    let loaded = load_wallets(vec![wallet("1", ADDR_A), wallet("2", ""), wallet("3", ADDR_B)]);
    let ids: Vec<&str> = loaded.iter().map(|w| w.wallet_id.as_str()).collect();
    assert_eq!(ids, vec!["1", "3"]);
}

#[test]
fn error_message_is_its_text() {
    assert_eq!(AppError::DbError("down".to_string()).message(), "down");
}

#[test]
fn refresh_writes_through_to_cache() {
    let mut cache = PortfolioCache::new();
    cache.insert(data(ADDR_B, 9, 9, 0));
    let wallets = vec![wallet("1", ADDR_A), wallet("2", ADDR_B)];
    let fetches = vec![
        WalletFetch { balance: Ok(1_000_000), positions: Ok(0), observed_at: 5 },
        WalletFetch { balance: Ok(2), positions: Err(AppError::ApiError("503".to_string())), observed_at: 6 },
    ];
    let r = cache.refresh(&wallets, &fetches, 7);
    assert_eq!(r.fleet_total, 1_000_002);
    assert_eq!(cache.len(), 2);
    let v = cache.cached_view().expect("cached");
    assert_eq!(v.wallets[0].proxy_address, ADDR_B);
    assert_eq!(v.wallets[0].portfolio_total, 2);
    assert_eq!(v.wallets[1].proxy_address, ADDR_A);
    assert_eq!(v.total_portfolio, 1_000_002);
}
