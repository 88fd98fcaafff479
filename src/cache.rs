use vstd::prelude::*;
use crate::error::AppError;
use crate::config::WalletConfig;
use crate::portfolio::{
    all_wf, is_valuation, refresh_all, sum_balances, sum_positions, sum_totals, PortfolioData,
    PortfolioSnapshot, RefreshResult, WalletFetch, MAX_WALLETS, TOTAL_BOUND,
};

verus! {

/// No two records of `s` share an address.
pub open spec fn unique_addresses(s: Seq<PortfolioData>) -> bool {
    forall|i: int, j: int|
        0 <= i < s.len() && 0 <= j < s.len() && i != j
            ==> #[trigger] s[i].proxy_address@ != #[trigger] s[j].proxy_address@
}

/// Some record of `s` carries address `a`.
pub open spec fn has_address(s: Seq<PortfolioData>, a: Seq<char>) -> bool {
    exists|i: int| 0 <= i < s.len() && #[trigger] s[i].proxy_address@ == a
}

/// `s` after storing `d`: it replaces the record of the same address in
/// place, or is appended when the address is new.
pub open spec fn inserted(s: Seq<PortfolioData>, d: PortfolioData) -> Seq<PortfolioData> {
    if has_address(s, d.proxy_address@) {
        let i = choose|i: int| 0 <= i < s.len() && #[trigger] s[i].proxy_address@ == d.proxy_address@;
        s.update(i, d)
    } else {
        s.push(d)
    }
}

/// `s` after storing each record of `ds` in turn.
pub open spec fn inserted_all(s: Seq<PortfolioData>, ds: Seq<PortfolioData>) -> Seq<PortfolioData>
    decreases ds.len(),
{
    if ds.len() == 0 {
        s
    } else {
        inserted(inserted_all(s, ds.drop_last()), ds.last())
    }
}

/// The last-known-good snapshot of each address.
pub struct PortfolioCache {
    entries: Vec<PortfolioData>,
}

impl PortfolioCache {
    /// The cached snapshots, in order of first insertion.
    pub closed spec fn entries(&self) -> Seq<PortfolioData> {
        self.entries@
    }

    /// Each address is cached at most once, and every entry is consistent.
    pub open spec fn wf(&self) -> bool {
        unique_addresses(self.entries()) && all_wf(self.entries())
    }

    /// An empty cache.
    pub fn new() -> (c: Self)
        ensures
            c.wf(),
            c.entries() == Seq::<PortfolioData>::empty(),
    {
        PortfolioCache { entries: Vec::new() }
    }

    /// The number of cached addresses.
    pub fn len(&self) -> (n: usize)
        ensures
            n == self.entries().len(),
    {
        self.entries.len()
    }

    /// Whether no address is cached yet.
    pub fn is_empty(&self) -> (r: bool)
        ensures
            r == (self.entries().len() == 0),
    {
        self.entries.len() == 0
    }

    /// Stores `d`, overwriting the entry of the same address.
    pub fn insert(&mut self, d: PortfolioData)
        requires
            old(self).wf(),
            d.wf(),
        ensures
            final(self).wf(),
            final(self).entries() == inserted(old(self).entries(), d),
    {
        let mut i: usize = 0;
        while i < self.entries.len()
            invariant
                i <= self.entries.len(),
                self.entries@ == old(self).entries@,
                unique_addresses(self.entries@),
                all_wf(self.entries@),
                d.wf(),
                forall|k: int| 0 <= k < i ==> #[trigger] self.entries@[k].proxy_address@ != d.proxy_address@,
            decreases self.entries.len() - i,
        {
            if self.entries[i].proxy_address == d.proxy_address {
                let ghost s = self.entries@;
                assert(has_address(s, d.proxy_address@));
                let ghost j = choose|j: int| 0 <= j < s.len() && #[trigger] s[j].proxy_address@ == d.proxy_address@;
                assert(j == i as int);
                self.entries.set(i, d);
                proof {
                    assert forall|a: int, b: int|
                        0 <= a < self.entries@.len() && 0 <= b < self.entries@.len() && a != b
                        implies #[trigger] self.entries@[a].proxy_address@
                            != #[trigger] self.entries@[b].proxy_address@ by {
                        if a != i as int && b != i as int {
                            assert(s[a] == self.entries@[a]);
                        } else if a == i as int {
                            assert(s[b].proxy_address@ != s[a].proxy_address@);
                        } else {
                            assert(s[a].proxy_address@ != s[b].proxy_address@);
                        }
                    }
                }
                return;
            }
            i = i + 1;
        }
        let ghost s = self.entries@;
        self.entries.push(d);
        proof {
            assert(!has_address(s, d.proxy_address@));
            assert forall|a: int, b: int|
                0 <= a < self.entries@.len() && 0 <= b < self.entries@.len() && a != b
                implies #[trigger] self.entries@[a].proxy_address@
                    != #[trigger] self.entries@[b].proxy_address@ by {
                if a < s.len() && b < s.len() {
                    assert(s[a] == self.entries@[a]);
                }
            }
        }
    }

    /// Writes every snapshot of a refresh through to the cache, in order.
    pub fn write_through(&mut self, snapshots: &Vec<PortfolioData>)
        requires
            old(self).wf(),
            all_wf(snapshots@),
        ensures
            final(self).wf(),
            final(self).entries() == inserted_all(old(self).entries(), snapshots@),
    {
        let mut i: usize = 0;
        while i < snapshots.len()
            invariant
                i <= snapshots.len(),
                all_wf(snapshots@),
                self.wf(),
                self.entries() == inserted_all(old(self).entries(), snapshots@.subrange(0, i as int)),
            decreases snapshots.len() - i,
        {
            let ghost prefix = snapshots@.subrange(0, i as int + 1);
            assert(prefix.drop_last() =~= snapshots@.subrange(0, i as int));
            let d = snapshots[i].copy();
            assert(snapshots@[i as int].wf());
            self.insert(d);
            i = i + 1;
        }
        assert(snapshots@.subrange(0, snapshots.len() as int) =~= snapshots@);
    }
}

/// The current view: the snapshots shown and their summed totals.
#[derive(Debug, Clone)]
pub struct CurrentView {
    pub wallets: Vec<PortfolioData>,
    pub total_portfolio: u128,
    pub total_usdc_balance: u128,
    pub total_positions_value: u128,
}

/// `v` shows exactly `s`, with the three sums of `s`.
pub open spec fn shows(v: CurrentView, s: Seq<PortfolioData>) -> bool {
    &&& v.wallets@ == s
    &&& v.total_portfolio == sum_totals(s)
    &&& v.total_usdc_balance == sum_balances(s)
    &&& v.total_positions_value == sum_positions(s)
}

/// Every total of `s` is below `TOTAL_BOUND`, as that of a consistent
/// snapshot is.
pub open spec fn totals_bounded(s: Seq<PortfolioData>) -> bool {
    forall|i: int| 0 <= i < s.len() ==> #[trigger] s[i].portfolio_total < TOTAL_BOUND
}

/// Consistent snapshots have bounded totals.
pub proof fn lemma_wf_totals_bounded(s: Seq<PortfolioData>)
    requires
        all_wf(s),
    ensures
        totals_bounded(s),
{
    assert forall|i: int| 0 <= i < s.len() implies #[trigger] s[i].portfolio_total < TOTAL_BOUND by {
        assert(s[i].wf());
    }
}

/// Builds the view of `wallets`, summing each column.
pub fn summarize(wallets: Vec<PortfolioData>) -> (v: CurrentView)
    requires
        wallets.len() <= MAX_WALLETS,
        totals_bounded(wallets@),
    ensures
        shows(v, wallets@),
{
    let mut total: u128 = 0;
    let mut usdc: u128 = 0;
    let mut positions: u128 = 0;
    let mut i: usize = 0;
    while i < wallets.len()
        invariant
            i <= wallets.len(),
            wallets.len() <= MAX_WALLETS,
            totals_bounded(wallets@),
            total == sum_totals(wallets@.subrange(0, i as int)),
            usdc == sum_balances(wallets@.subrange(0, i as int)),
            positions == sum_positions(wallets@.subrange(0, i as int)),
            total <= i as int * TOTAL_BOUND,
            usdc <= i as int * TOTAL_BOUND,
            positions <= i as int * TOTAL_BOUND,
        decreases wallets.len() - i,
    {
        let ghost next = wallets@.subrange(0, i as int + 1);
        assert(next.drop_last() =~= wallets@.subrange(0, i as int));
        let d = &wallets[i];
        assert(wallets@[i as int].portfolio_total < TOTAL_BOUND);
        assert((i as int + 1) * TOTAL_BOUND == i as int * TOTAL_BOUND + TOTAL_BOUND) by (nonlinear_arith);
        assert(i as int * TOTAL_BOUND + TOTAL_BOUND <= MAX_WALLETS as int * TOTAL_BOUND) by (nonlinear_arith)
            requires i < MAX_WALLETS;
        total = total + d.portfolio_total;
        usdc = usdc + d.usdc_balance as u128;
        positions = positions + d.positions_value as u128;
        i = i + 1;
    }
    assert(wallets@.subrange(0, wallets.len() as int) =~= wallets@);
    CurrentView {
        wallets,
        total_portfolio: total,
        total_usdc_balance: usdc,
        total_positions_value: positions,
    }
}

/// The empty view, with every total zero.
pub fn empty_view() -> (v: CurrentView)
    ensures
        shows(v, Seq::<PortfolioData>::empty()),
{
    let v = CurrentView {
        wallets: Vec::new(),
        total_portfolio: 0,
        total_usdc_balance: 0,
        total_positions_value: 0,
    };
    assert(v.wallets@ =~= Seq::<PortfolioData>::empty());
    v
}

/// `d` is exactly what a stored row holds.
pub open spec fn reads_as(d: PortfolioData, row: PortfolioSnapshot) -> bool {
    &&& d.proxy_address@ == row.proxy_address@
    &&& d.usdc_balance == row.usdc_balance
    &&& d.positions_value == row.positions_value
    &&& d.portfolio_total == row.portfolio_total
    &&& d.last_updated == row.timestamp
}

/// The snapshot that a stored row holds, total included.
pub fn data_from_row(row: &PortfolioSnapshot) -> (d: PortfolioData)
    ensures
        reads_as(d, *row),
{
    PortfolioData {
        proxy_address: row.proxy_address.clone(),
        usdc_balance: row.usdc_balance,
        positions_value: row.positions_value,
        portfolio_total: row.portfolio_total,
        last_updated: row.timestamp,
    }
}

/// Among the first `n` rows, row `k` is the latest of its address: no row
/// of that address is later, and of those observed at the same instant it
/// comes last.
pub open spec fn is_latest(rows: Seq<PortfolioSnapshot>, n: int, k: int) -> bool {
    forall|j: int|
        0 <= j < n && #[trigger] rows[j].proxy_address@ == rows[k].proxy_address@
            ==> rows[j].timestamp < rows[k].timestamp || (rows[j].timestamp == rows[k].timestamp && j <= k)
}

/// Every row of `rows` has a total below `TOTAL_BOUND`.
pub open spec fn rows_bounded(rows: Seq<PortfolioSnapshot>) -> bool {
    forall|k: int| 0 <= k < rows.len() ==> #[trigger] rows[k].portfolio_total < TOTAL_BOUND
}

/// The view read from the store: one entry per address, holding that
/// address's latest row as stored; a failed query reads as no data yet,
/// never as an error.
pub fn view_from_store(rows: Result<Vec<PortfolioSnapshot>, AppError>) -> (v: CurrentView)
    requires
        rows is Ok ==> rows->Ok_0.len() <= MAX_WALLETS,
        rows is Ok ==> rows_bounded(rows->Ok_0@),
    ensures
        rows is Err ==> shows(v, Seq::<PortfolioData>::empty()),
        rows is Ok ==> {
            &&& unique_addresses(v.wallets@)
            &&& forall|i: int| 0 <= i < v.wallets.len() ==> exists|k: int|
                0 <= k < rows->Ok_0.len() && is_latest(rows->Ok_0@, rows->Ok_0.len() as int, k)
                    && reads_as(#[trigger] v.wallets[i], rows->Ok_0[k])
            &&& forall|k: int| 0 <= k < rows->Ok_0.len() ==> has_address(v.wallets@, #[trigger] rows->Ok_0[k].proxy_address@)
            &&& shows(v, v.wallets@)
        },
{
    match rows {
        Err(_) => empty_view(),
        Ok(rows) => {
            let mut wallets: Vec<PortfolioData> = Vec::new();
            let ghost mut idx: Seq<int> = Seq::empty();
            let mut n: usize = 0;
            while n < rows.len()
                invariant
                    n <= rows.len(),
                    rows_bounded(rows@),
                    wallets.len() == idx.len(),
                    wallets.len() <= n,
                    unique_addresses(wallets@),
                    forall|i: int| 0 <= i < wallets.len() ==> 0 <= #[trigger] idx[i] < n,
                    forall|i: int| 0 <= i < wallets.len() ==> is_latest(rows@, n as int, #[trigger] idx[i]),
                    forall|i: int| 0 <= i < wallets.len() ==> reads_as(#[trigger] wallets[i], rows[idx[i]]),
                    forall|k: int| 0 <= k < n ==> has_address(wallets@, #[trigger] rows[k].proxy_address@),
                decreases rows.len() - n,
            {
                let row = &rows[n];
                let mut i: usize = 0;
                while i < wallets.len() && wallets[i].proxy_address != row.proxy_address
                    invariant
                        i <= wallets.len(),
                        forall|q: int| 0 <= q < i ==> #[trigger] wallets@[q].proxy_address@ != row.proxy_address@,
                    decreases wallets.len() - i,
                {
                    i = i + 1;
                }
                let ghost old_w = wallets@;
                let ghost old_idx = idx;
                if i < wallets.len() {
                    proof {
                        assert(reads_as(old_w[i as int], rows[old_idx[i as int]]));
                    }
                    if row.timestamp >= wallets[i].last_updated {
                        wallets.set(i, data_from_row(row));
                        proof {
                            idx = idx.update(i as int, n as int);
                            assert forall|a: int, b: int|
                                0 <= a < wallets@.len() && 0 <= b < wallets@.len() && a != b
                                implies #[trigger] wallets@[a].proxy_address@ != #[trigger] wallets@[b].proxy_address@ by {
                                if a != i as int && b != i as int {
                                    assert(old_w[a] == wallets@[a] && old_w[b] == wallets@[b]);
                                } else if a == i as int {
                                    assert(old_w[b].proxy_address@ != old_w[a].proxy_address@);
                                } else {
                                    assert(old_w[a].proxy_address@ != old_w[b].proxy_address@);
                                }
                            }
                        }
                    }
                } else {
                    wallets.push(data_from_row(row));
                    proof {
                        idx = idx.push(n as int);
                        assert forall|a: int, b: int|
                            0 <= a < wallets@.len() && 0 <= b < wallets@.len() && a != b
                            implies #[trigger] wallets@[a].proxy_address@ != #[trigger] wallets@[b].proxy_address@ by {
                            if a < old_w.len() && b < old_w.len() {
                                assert(old_w[a] == wallets@[a] && old_w[b] == wallets@[b]);
                            } else if a < old_w.len() {
                                assert(old_w[a] == wallets@[a]);
                            } else {
                                assert(old_w[b] == wallets@[b]);
                            }
                        }
                    }
                }
                proof {
                    assert forall|q: int| 0 <= q < wallets.len() implies is_latest(rows@, n + 1, #[trigger] idx[q]) by {
                        if q < old_w.len() && idx[q] == old_idx[q] {
                            assert(is_latest(rows@, n as int, old_idx[q]));
                            assert(reads_as(old_w[q], rows[old_idx[q]]));
                            if q != i as int || i >= old_w.len() {
                                assert(wallets@[q] == old_w[q]);
                            }
                            assert forall|j: int|
                                0 <= j < n + 1 && #[trigger] rows[j].proxy_address@ == rows[idx[q]].proxy_address@
                                implies rows[j].timestamp < rows[idx[q]].timestamp
                                    || (rows[j].timestamp == rows[idx[q]].timestamp && j <= idx[q]) by {
                                if j == n as int {
                                    if q != i as int {
                                        assert(old_w[q].proxy_address@ != row.proxy_address@);
                                    }
                                }
                            }
                        } else {
                            assert(idx[q] == n as int);
                            assert forall|j: int|
                                0 <= j < n + 1 && #[trigger] rows[j].proxy_address@ == rows[idx[q]].proxy_address@
                                implies rows[j].timestamp < rows[idx[q]].timestamp
                                    || (rows[j].timestamp == rows[idx[q]].timestamp && j <= idx[q]) by {
                                if j < n {
                                    assert(has_address(old_w, rows[j].proxy_address@));
                                    let w = choose|w: int| 0 <= w < old_w.len() && #[trigger] old_w[w].proxy_address@ == rows[j].proxy_address@;
                                    if i < old_w.len() {
                                        if w != i as int {
                                            assert(old_w[w].proxy_address@ != old_w[i as int].proxy_address@);
                                        }
                                        assert(is_latest(rows@, n as int, old_idx[i as int]));
                                        assert(reads_as(old_w[i as int], rows[old_idx[i as int]]));
                                        assert(rows[j].proxy_address@ == rows[old_idx[i as int]].proxy_address@);
                                    } else {
                                        assert(old_w[w].proxy_address@ != row.proxy_address@);
                                    }
                                }
                            }
                        }
                    }
                    assert forall|q: int| 0 <= q < wallets.len() implies reads_as(#[trigger] wallets[q], rows[idx[q]]) by {
                        if q < old_w.len() && idx[q] == old_idx[q] {
                            assert(wallets@[q] == old_w[q]);
                        }
                    }
                    assert forall|k: int| 0 <= k < n + 1 implies has_address(wallets@, #[trigger] rows[k].proxy_address@) by {
                        if k == n as int {
                            if i < old_w.len() {
                                assert(wallets@[i as int].proxy_address@ == row.proxy_address@);
                            } else {
                                assert(wallets@[old_w.len() as int].proxy_address@ == row.proxy_address@);
                            }
                        } else {
                            assert(has_address(old_w, rows[k].proxy_address@));
                            let w = choose|w: int| 0 <= w < old_w.len() && #[trigger] old_w[w].proxy_address@ == rows[k].proxy_address@;
                            assert(wallets@[w].proxy_address@ == rows[k].proxy_address@);
                        }
                    }
                }
                n = n + 1;
            }
            assert(totals_bounded(wallets@)) by {
                assert forall|q: int| 0 <= q < wallets.len() implies #[trigger] wallets@[q].portfolio_total < TOTAL_BOUND by {
                    assert(reads_as(wallets[q], rows[idx[q]]));
                }
            }
            let v = summarize(wallets);
            assert forall|q: int| 0 <= q < v.wallets.len() implies exists|k: int|
                0 <= k < rows.len() && is_latest(rows@, rows.len() as int, k) && reads_as(#[trigger] v.wallets[q], rows[k]) by {
                assert(is_latest(rows@, rows.len() as int, idx[q]));
                assert(reads_as(v.wallets[q], rows[idx[q]]));
            }
            v
        },
    }
}

impl PortfolioCache {
    /// The cached view, served without touching any upstream source or the
    /// store; `None` while nothing is cached, when the caller falls back to
    /// the store.
    pub fn cached_view(&self) -> (r: Option<CurrentView>)
        requires
            self.wf(),
            self.entries().len() <= MAX_WALLETS,
        ensures
            r is None <==> self.entries().len() == 0,
            r is Some ==> shows(r->Some_0, self.entries()),
    {
        if self.entries.len() == 0 {
            return None;
        }
        let mut wallets: Vec<PortfolioData> = Vec::new();
        let mut i: usize = 0;
        while i < self.entries.len()
            invariant
                i <= self.entries.len(),
                wallets@ == self.entries@.subrange(0, i as int),
            decreases self.entries.len() - i,
        {
            wallets.push(self.entries[i].copy());
            assert(wallets@ =~= self.entries@.subrange(0, i as int + 1));
            i = i + 1;
        }
        assert(wallets@ =~= self.entries@);
        proof {
            lemma_wf_totals_bounded(wallets@);
        }
        Some(summarize(wallets))
    }
}

impl PortfolioCache {
    /// Refreshes the whole fleet from its fetch outcomes and writes every
    /// snapshot through to the cache, overwriting by address.
    pub fn refresh(&mut self, wallets: &Vec<WalletConfig>, fetches: &Vec<WalletFetch>, timestamp: i64) -> (r: RefreshResult)
        requires
            old(self).wf(),
            fetches.len() == wallets.len(),
            wallets.len() <= MAX_WALLETS,
        ensures
            r.snapshots.len() == wallets.len(),
            forall|i: int| 0 <= i < wallets.len() ==> is_valuation(
                #[trigger] r.snapshots[i],
                wallets[i].proxy_address@,
                fetches[i].balance,
                fetches[i].positions,
                fetches[i].observed_at,
            ),
            r.fleet_total == sum_totals(r.snapshots@),
            r.timestamp == timestamp,
            final(self).wf(),
            final(self).entries() == inserted_all(old(self).entries(), r.snapshots@),
    {
        let r = refresh_all(wallets, fetches, timestamp);
        assert forall|k: int| 0 <= k < r.snapshots.len() implies #[trigger] r.snapshots@[k].wf() by {
            assert(is_valuation(r.snapshots[k], wallets[k].proxy_address@, fetches[k].balance, fetches[k].positions, fetches[k].observed_at));
        }
        self.write_through(&r.snapshots);
        r
    }
}

/// Storing `d` keeps every address already cached and adds that of `d`.
pub proof fn lemma_inserted_addresses(s: Seq<PortfolioData>, d: PortfolioData, a: Seq<char>)
    ensures
        has_address(inserted(s, d), a) <==> (has_address(s, a) || a == d.proxy_address@),
{
    let t = inserted(s, d);
    if has_address(s, d.proxy_address@) {
        let i = choose|i: int| 0 <= i < s.len() && #[trigger] s[i].proxy_address@ == d.proxy_address@;
        if has_address(s, a) {
            let j = choose|j: int| 0 <= j < s.len() && #[trigger] s[j].proxy_address@ == a;
            if j == i {
                assert(t[i].proxy_address@ == d.proxy_address@);
            } else {
                assert(t[j] == s[j]);
            }
        }
        if has_address(t, a) {
            let j = choose|j: int| 0 <= j < t.len() && #[trigger] t[j].proxy_address@ == a;
            if j != i {
                assert(s[j] == t[j]);
            }
        }
        assert(t[i].proxy_address@ == d.proxy_address@);
    } else {
        if has_address(s, a) {
            let j = choose|j: int| 0 <= j < s.len() && #[trigger] s[j].proxy_address@ == a;
            assert(t[j] == s[j]);
        }
        if has_address(t, a) {
            let j = choose|j: int| 0 <= j < t.len() && #[trigger] t[j].proxy_address@ == a;
            if j < s.len() {
                assert(s[j] == t[j]);
            }
        }
        assert(t[s.len() as int] == d);
    }
}

/// After a refresh that produced at least one snapshot, the cache holds
/// every refreshed address, so later reads are served from memory; before
/// any refresh the cache is empty and reads fall back to the store.
pub proof fn lemma_refresh_serves_reads(s: Seq<PortfolioData>, ds: Seq<PortfolioData>)
    ensures
        forall|k: int| 0 <= k < ds.len() ==> has_address(inserted_all(s, ds), #[trigger] ds[k].proxy_address@),
        ds.len() > 0 ==> inserted_all(s, ds).len() > 0,
    decreases ds.len(),
{
    if ds.len() > 0 {
        let prev = ds.drop_last();
        lemma_refresh_serves_reads(s, prev);
        assert forall|k: int| 0 <= k < ds.len() implies has_address(inserted_all(s, ds), #[trigger] ds[k].proxy_address@) by {
            lemma_inserted_addresses(inserted_all(s, prev), ds.last(), ds[k].proxy_address@);
            if k < prev.len() {
                assert(prev[k] == ds[k]);
            }
        }
        lemma_inserted_addresses(inserted_all(s, prev), ds.last(), ds.last().proxy_address@);
    }
}

} // verus!
