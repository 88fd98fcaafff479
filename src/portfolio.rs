use vstd::prelude::*;
use vstd::string::StringExecFns;
use crate::config::WalletConfig;
use crate::error::AppError;

verus! {

/// The largest number of records summed in one pass; it keeps every sum
/// of snapshot totals inside `u128`.
pub const MAX_WALLETS: usize = 0xffff_ffff;

/// Twice the largest `u64`, rounded up: a bound on one snapshot's total.
pub const TOTAL_BOUND: u128 = 0x2_0000_0000_0000_0000;

/// One point-in-time valuation of one wallet, in micro-units.
#[derive(Debug, Clone)]
pub struct PortfolioData {
    pub proxy_address: String,
    pub usdc_balance: u64,
    pub positions_value: u64,
    pub portfolio_total: u128,
    pub last_updated: i64,
}

impl PortfolioData {
    /// A field-by-field copy.
    pub fn copy(&self) -> (r: PortfolioData)
        ensures
            r == *self,
    {
        PortfolioData {
            proxy_address: self.proxy_address.clone(),
            usdc_balance: self.usdc_balance,
            positions_value: self.positions_value,
            portfolio_total: self.portfolio_total,
            last_updated: self.last_updated,
        }
    }

    /// The total is the sum of the two components.
    pub open spec fn wf(&self) -> bool {
        self.portfolio_total == self.usdc_balance as int + self.positions_value as int
    }
}

/// A failed sub-fetch counts as zero.
pub open spec fn or_zero(r: Result<u64, AppError>) -> u64 {
    match r {
        Ok(v) => v,
        Err(_) => 0,
    }
}

/// `d` is the valuation of `address` from the two sub-fetch outcomes,
/// observed at `at`.
pub open spec fn is_valuation(
    d: PortfolioData,
    address: Seq<char>,
    balance: Result<u64, AppError>,
    positions: Result<u64, AppError>,
    at: i64,
) -> bool {
    &&& d.wf()
    &&& d.proxy_address@ == address
    &&& d.usdc_balance == or_zero(balance)
    &&& d.positions_value == or_zero(positions)
    &&& d.last_updated == at
}

/// Maps a sub-fetch outcome to its value, substituting zero for a failure.
pub fn component_or_zero(r: &Result<u64, AppError>) -> (v: u64)
    ensures
        v == or_zero(*r),
{
    match r {
        Ok(v) => *v,
        Err(_) => 0,
    }
}

/// Merges the balance and position-value outcomes of one wallet into a
/// snapshot; a failed source contributes zero and never fails the whole.
pub fn value_wallet(
    proxy_address: &str,
    balance: &Result<u64, AppError>,
    positions: &Result<u64, AppError>,
    observed_at: i64,
) -> (d: PortfolioData)
    ensures
        is_valuation(d, proxy_address@, *balance, *positions, observed_at),
{
    let usdc_balance = component_or_zero(balance);
    let positions_value = component_or_zero(positions);
    PortfolioData {
        proxy_address: String::from_str(proxy_address),
        usdc_balance,
        positions_value,
        portfolio_total: usdc_balance as u128 + positions_value as u128,
        last_updated: observed_at,
    }
}

/// What a market-data object holds under its `value` key.
#[derive(Debug, Clone, PartialEq, Eq)]
pub enum ValueField {
    /// The object has no `value` key.
    Absent,
    /// A number, in micro-units.
    Number(i64),
    /// A `null`, a string, or anything else that is not a number.
    NotNumber,
}

/// The shape of a parsed market-data response body.
#[derive(Debug, Clone, PartialEq, Eq)]
pub enum MarketBody {
    /// An array; each element's `value` field, in order.
    List(Vec<ValueField>),
    /// A single object and its `value` field.
    Object(ValueField),
    /// Any other JSON value.
    Scalar,
}

/// The amount a `value` field stands for: a number, with negatives
/// clamped to zero; anything else is zero.
pub open spec fn field_amount(f: ValueField) -> u64 {
    match f {
        ValueField::Number(n) => if n > 0 { n as u64 } else { 0 },
        _ => 0,
    }
}

/// The first field of `items` that is present, if any.
pub open spec fn first_present(items: Seq<ValueField>) -> Option<ValueField>
    decreases items.len(),
{
    if items.len() == 0 {
        None
    } else if items[0] != ValueField::Absent {
        Some(items[0])
    } else {
        first_present(items.drop_first())
    }
}

/// The position value a response body reports.
pub open spec fn body_amount(b: MarketBody) -> u64 {
    match b {
        MarketBody::List(items) => match first_present(items@) {
            Some(f) => field_amount(f),
            None => 0,
        },
        MarketBody::Object(f) => field_amount(f),
        MarketBody::Scalar => 0,
    }
}

/// An HTTP status in the success range.
pub open spec fn is_success(status: u16) -> bool {
    200 <= status <= 299
}

/// The amount of one `value` field.
pub fn amount_of_field(f: &ValueField) -> (r: u64)
    ensures
        r == field_amount(*f),
{
    match f {
        ValueField::Number(n) => if *n > 0 { *n as u64 } else { 0 },
        _ => 0,
    }
}

/// The position value of a response: zero for a non-success status,
/// whatever the body; otherwise the body's reading, or the parse failure.
pub fn positions_value(status: u16, body: Result<MarketBody, AppError>) -> (r: Result<u64, AppError>)
    ensures
        !is_success(status) ==> r == Ok::<u64, AppError>(0),
        is_success(status) ==> r == match body {
            Ok(b) => Ok::<u64, AppError>(body_amount(b)),
            Err(e) => Err::<u64, AppError>(e),
        },
{
    if !(200 <= status && status <= 299) {
        return Ok(0);
    }
    match body {
        Err(e) => Err(e),
        Ok(MarketBody::Object(f)) => Ok(amount_of_field(&f)),
        Ok(MarketBody::Scalar) => Ok(0),
        Ok(MarketBody::List(items)) => Ok(first_field_amount(&items)),
    }
}

/// The amount of the first present field of `items`, or zero.
pub fn first_field_amount(items: &Vec<ValueField>) -> (r: u64)
    ensures
        r == match first_present(items@) {
            Some(f) => field_amount(f),
            None => 0,
        },
{
    let mut i: usize = 0;
    assert(items@.subrange(0, items.len() as int) =~= items@);
    while i < items.len()
        invariant
            i <= items.len(),
            first_present(items@) == first_present(items@.subrange(i as int, items.len() as int)),
        decreases items.len() - i,
    {
        let ghost rest = items@.subrange(i as int, items.len() as int);
        assert(rest.drop_first() =~= items@.subrange(i as int + 1, items.len() as int));
        match &items[i] {
            ValueField::Absent => {},
            f => {
                return amount_of_field(f);
            },
        }
        i = i + 1;
    }
    0
}

/// The sum of the totals of `s`.
pub open spec fn sum_totals(s: Seq<PortfolioData>) -> int
    decreases s.len(),
{
    if s.len() == 0 { 0 } else { sum_totals(s.drop_last()) + s.last().portfolio_total }
}

/// The sum of the balances of `s`.
pub open spec fn sum_balances(s: Seq<PortfolioData>) -> int
    decreases s.len(),
{
    if s.len() == 0 { 0 } else { sum_balances(s.drop_last()) + s.last().usdc_balance }
}

/// The sum of the position values of `s`.
pub open spec fn sum_positions(s: Seq<PortfolioData>) -> int
    decreases s.len(),
{
    if s.len() == 0 { 0 } else { sum_positions(s.drop_last()) + s.last().positions_value }
}

/// Every record of `s` keeps its total equal to its components.
pub open spec fn all_wf(s: Seq<PortfolioData>) -> bool {
    forall|i: int| 0 <= i < s.len() ==> #[trigger] s[i].wf()
}

/// One row of the durable store, as the library reads it.
#[derive(Debug, Clone)]
pub struct PortfolioSnapshot {
    pub id: i32,
    pub timestamp: i64,
    pub proxy_address: String,
    pub portfolio_total: u128,
    pub usdc_balance: u64,
    pub positions_value: u64,
}

/// The outcome of both sub-fetches of one wallet.
#[derive(Debug)]
pub struct WalletFetch {
    pub balance: Result<u64, AppError>,
    pub positions: Result<u64, AppError>,
    pub observed_at: i64,
}

/// The answer to a refresh of the whole fleet.
#[derive(Debug, Clone)]
pub struct RefreshResult {
    pub snapshots: Vec<PortfolioData>,
    pub fleet_total: u128,
    pub timestamp: i64,
}

/// Values every wallet from its fetch outcomes: one snapshot per wallet,
/// in order, and the fleet total as the sum of the snapshot totals.
pub fn refresh_all(wallets: &Vec<WalletConfig>, fetches: &Vec<WalletFetch>, timestamp: i64) -> (r: RefreshResult)
    requires
        fetches.len() == wallets.len(),
        wallets.len() <= MAX_WALLETS,
    ensures
        r.snapshots.len() == wallets.len(),
        forall|i: int| 0 <= i < wallets.len() ==> is_valuation(
            #[trigger] r.snapshots[i],
            wallets[i].proxy_address@,
            fetches[i].balance,
            fetches[i].positions,
            fetches[i].observed_at,
        ),
        forall|i: int| 0 <= i < wallets.len() && fetches[i].balance is Err
            ==> #[trigger] r.snapshots[i].usdc_balance == 0,
        r.fleet_total == sum_totals(r.snapshots@),
        r.timestamp == timestamp,
{
    let mut snapshots: Vec<PortfolioData> = Vec::new();
    let mut total: u128 = 0;
    let mut i: usize = 0;
    while i < wallets.len()
        invariant
            i <= wallets.len(),
            fetches.len() == wallets.len(),
            wallets.len() <= MAX_WALLETS,
            snapshots.len() == i,
            forall|k: int| 0 <= k < i ==> is_valuation(
                #[trigger] snapshots[k],
                wallets[k].proxy_address@,
                fetches[k].balance,
                fetches[k].positions,
                fetches[k].observed_at,
            ),
            total == sum_totals(snapshots@),
            total <= i as int * TOTAL_BOUND,
        decreases wallets.len() - i,
    {
        let f = &fetches[i];
        let d = value_wallet(wallets[i].proxy_address.as_str(), &f.balance, &f.positions, f.observed_at);
        assert(d.portfolio_total < TOTAL_BOUND);
        assert((i as int + 1) * TOTAL_BOUND == i as int * TOTAL_BOUND + TOTAL_BOUND) by (nonlinear_arith);
        assert(i as int * TOTAL_BOUND + TOTAL_BOUND <= MAX_WALLETS as int * TOTAL_BOUND) by (nonlinear_arith)
            requires i < MAX_WALLETS;
        total = total + d.portfolio_total;
        let ghost before = snapshots@;
        snapshots.push(d);
        assert(snapshots@.drop_last() =~= before);
        i = i + 1;
    }
    RefreshResult { snapshots, fleet_total: total, timestamp }
}

} // verus!
