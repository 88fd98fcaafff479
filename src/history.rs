use vstd::prelude::*;
use crate::portfolio::PortfolioSnapshot;

verus! {

/// The width of one history bucket, in milliseconds.
pub const BUCKET_MILLIS: i64 = 60000;

/// The start of the one-minute bucket that holds instant `ts`: `ts`
/// truncated down to a whole minute.
pub open spec fn bucket_start(ts: int) -> int {
    (ts / 60000) * 60000
}

/// Row `r` falls in the bucket that starts at `start`.
pub open spec fn in_bucket(r: PortfolioSnapshot, start: int) -> bool {
    bucket_start(r.timestamp as int) == start
}

/// One of the first `n` rows falls in the bucket that starts at `start`.
pub open spec fn has_bucket(rows: Seq<PortfolioSnapshot>, n: int, start: int) -> bool {
    exists|k: int| 0 <= k < n && #[trigger] in_bucket(rows[k], start)
}

/// The balance of the last row of `rows` for address `a` in the bucket
/// that starts at `start`: later rows overwrite earlier ones.
pub open spec fn last_value(rows: Seq<PortfolioSnapshot>, start: int, a: Seq<char>) -> Option<u64>
    decreases rows.len(),
{
    if rows.len() == 0 {
        None
    } else if in_bucket(rows.last(), start) && rows.last().proxy_address@ == a {
        Some(rows.last().usdc_balance)
    } else {
        last_value(rows.drop_last(), start, a)
    }
}

/// One address's value within a bucket.
#[derive(Debug, Clone)]
pub struct WalletValue {
    pub address: String,
    pub value: u64,
}

/// One minute of history: the value per reporting address and their sum.
#[derive(Debug, Clone)]
pub struct HistoryBucket {
    pub timestamp: i64,
    pub wallets: Vec<WalletValue>,
    pub total: u128,
}

/// No two entries of `ws` share an address.
pub open spec fn unique_wallets(ws: Seq<WalletValue>) -> bool {
    forall|i: int, j: int|
        0 <= i < ws.len() && 0 <= j < ws.len() && i != j
            ==> #[trigger] ws[i].address@ != #[trigger] ws[j].address@
}

/// The value that `ws` records for address `a`, if any.
pub open spec fn value_in(ws: Seq<WalletValue>, a: Seq<char>) -> Option<u64> {
    if exists|i: int| 0 <= i < ws.len() && #[trigger] ws[i].address@ == a {
        Some(ws[choose|i: int| 0 <= i < ws.len() && #[trigger] ws[i].address@ == a].value)
    } else {
        None
    }
}

/// The sum of the values of `ws`.
pub open spec fn sum_values(ws: Seq<WalletValue>) -> int
    decreases ws.len(),
{
    if ws.len() == 0 { 0 } else { sum_values(ws.drop_last()) + ws.last().value }
}

/// Bucket `b` holds, for each address, the last balance reported in its
/// minute, and their sum.
pub open spec fn bucket_matches(b: HistoryBucket, rows: Seq<PortfolioSnapshot>) -> bool {
    &&& unique_wallets(b.wallets@)
    &&& forall|a: Seq<char>| #[trigger] value_in(b.wallets@, a) == last_value(rows, b.timestamp as int, a)
    &&& b.total == sum_values(b.wallets@)
}

/// Some element of `r` equals `t`.
pub open spec fn covers(r: Seq<i64>, t: int) -> bool {
    exists|i: int| 0 <= i < r.len() && r[i] == t
}

/// Some bucket of `r` starts at `t`.
pub open spec fn has_start(r: Seq<HistoryBucket>, t: int) -> bool {
    exists|i: int| 0 <= i < r.len() && r[i].timestamp == t
}

/// Every row's bucket start fits in an `i64`.
pub open spec fn starts_fit(rows: Seq<PortfolioSnapshot>) -> bool {
    forall|k: int| 0 <= k < rows.len() ==> bucket_start(#[trigger] rows[k].timestamp as int) >= i64::MIN
}

/// The start of the bucket that holds `ts`.
pub fn bucket_of(ts: i64) -> (r: i64)
    requires
        bucket_start(ts as int) >= i64::MIN,
    ensures
        r == bucket_start(ts as int),
{
    assert(i64::MIN <= ts as int / 60000 <= i64::MAX);
    let q = ts.checked_div_euclid(BUCKET_MILLIS).unwrap();
    q * BUCKET_MILLIS
}

/// In a bucket without duplicate addresses, each entry is what it records.
proof fn lemma_value_in_at(ws: Seq<WalletValue>, i: int)
    requires
        unique_wallets(ws),
        0 <= i < ws.len(),
    ensures
        value_in(ws, ws[i].address@) == Some(ws[i].value),
{
    let a = ws[i].address@;
    assert(exists|j: int| 0 <= j < ws.len() && #[trigger] ws[j].address@ == a);
    let j = choose|j: int| 0 <= j < ws.len() && #[trigger] ws[j].address@ == a;
    assert(j == i);
}

/// The distinct bucket starts of `rows`, in ascending order.
pub fn bucket_starts(rows: &Vec<PortfolioSnapshot>) -> (r: Vec<i64>)
    requires
        starts_fit(rows@),
    ensures
        forall|i: int, j: int| 0 <= i < j < r.len() ==> r[i] < r[j],
        forall|i: int| 0 <= i < r.len() ==> has_bucket(rows@, rows.len() as int, #[trigger] r[i] as int),
        forall|k: int| 0 <= k < rows.len() ==> covers(r@, bucket_start(#[trigger] rows[k].timestamp as int)),
{
    let mut starts: Vec<i64> = Vec::new();
    let mut k: usize = 0;
    while k < rows.len()
        invariant
            k <= rows.len(),
            starts_fit(rows@),
            forall|i: int, j: int| 0 <= i < j < starts.len() ==> starts[i] < starts[j],
            forall|i: int| 0 <= i < starts.len() ==> has_bucket(rows@, k as int, #[trigger] starts[i] as int),
            forall|m: int| 0 <= m < k ==> covers(starts@, bucket_start(#[trigger] rows[m].timestamp as int)),
        decreases rows.len() - k,
    {
        assert(bucket_start(rows@[k as int].timestamp as int) >= i64::MIN);
        let s = bucket_of(rows[k].timestamp);
        assert(in_bucket(rows@[k as int], s as int));
        let mut p: usize = 0;
        while p < starts.len() && starts[p] < s
            invariant
                p <= starts.len(),
                forall|q: int| 0 <= q < p ==> starts[q] < s,
            decreases starts.len() - p,
        {
            p = p + 1;
        }
        let ghost old_starts = starts@;
        if p < starts.len() && starts[p] == s {
        } else {
            starts.insert(p, s);
            proof {
                assert forall|i: int, j: int| 0 <= i < j < starts.len() implies starts[i] < starts[j] by {
                    if j < p {
                    } else if j == p {
                    } else if i < p {
                        assert(starts[j] == old_starts[j - 1]);
                        assert(old_starts[p as int] > s || p == j - 1);
                    } else if i == p {
                        assert(starts[j] == old_starts[j - 1]);
                        assert(old_starts[p as int] >= s);
                        assert(old_starts[p as int] != s);
                    } else {
                        assert(starts[j] == old_starts[j - 1]);
                        assert(starts[i] == old_starts[i - 1]);
                    }
                }
            }
        }
        proof {
            assert forall|i: int| 0 <= i < starts.len() implies has_bucket(rows@, k + 1, #[trigger] starts[i] as int) by {
                if starts[i] == s {
                    assert(in_bucket(rows@[k as int], starts[i] as int));
                } else {
                    let oi = if old_starts.len() == starts.len() || i < p { i } else { i - 1 };
                    assert(starts[i] == old_starts[oi]);
                    assert(has_bucket(rows@, k as int, old_starts[oi] as int));
                    let w = choose|w: int| 0 <= w < k && #[trigger] in_bucket(rows@[w], old_starts[oi] as int);
                    assert(in_bucket(rows@[w], starts[i] as int));
                }
            }
            assert forall|m: int| 0 <= m < k + 1 implies covers(starts@, bucket_start(#[trigger] rows@[m].timestamp as int)) by {
                if m == k {
                    assert(starts[p as int] == s);
                } else {
                    assert(covers(old_starts, bucket_start(rows@[m].timestamp as int)));
                    let i = choose|i: int| 0 <= i < old_starts.len() && old_starts[i] == bucket_start(rows@[m].timestamp as int);
                    if old_starts.len() == starts.len() || i < p {
                        assert(starts[i] == old_starts[i]);
                    } else {
                        assert(starts[i + 1] == old_starts[i]);
                    }
                }
            }
        }
        k = k + 1;
    }
    starts
}

/// After storing `w` over the entry at `i` of the same address, every
/// other address reads as before and `w`'s address reads as `w`.
proof fn lemma_set_value(ws: Seq<WalletValue>, i: int, w: WalletValue, a: Seq<char>)
    requires
        unique_wallets(ws),
        0 <= i < ws.len(),
        ws[i].address@ == w.address@,
    ensures
        unique_wallets(ws.update(i, w)),
        value_in(ws.update(i, w), a) == if a == w.address@ { Some(w.value) } else { value_in(ws, a) },
{
    let t = ws.update(i, w);
    assert forall|x: int, y: int|
        0 <= x < t.len() && 0 <= y < t.len() && x != y implies #[trigger] t[x].address@ != #[trigger] t[y].address@ by {
        assert(t[x].address@ == ws[x].address@);
        assert(t[y].address@ == ws[y].address@);
    }
    if a == w.address@ {
        lemma_value_in_at(t, i);
    } else {
        if exists|j: int| 0 <= j < t.len() && #[trigger] t[j].address@ == a {
            let j = choose|j: int| 0 <= j < t.len() && #[trigger] t[j].address@ == a;
            lemma_value_in_at(t, j);
            lemma_value_in_at(ws, j);
        } else {
            assert forall|j: int| 0 <= j < ws.len() implies #[trigger] ws[j].address@ != a by {
                assert(t[j].address@ == ws[j].address@);
            }
        }
    }
}

/// After appending `w` of an address not yet present, every other address
/// reads as before and `w`'s address reads as `w`.
proof fn lemma_push_value(ws: Seq<WalletValue>, w: WalletValue, a: Seq<char>)
    requires
        unique_wallets(ws),
        forall|j: int| 0 <= j < ws.len() ==> #[trigger] ws[j].address@ != w.address@,
    ensures
        unique_wallets(ws.push(w)),
        value_in(ws.push(w), a) == if a == w.address@ { Some(w.value) } else { value_in(ws, a) },
{
    let t = ws.push(w);
    assert forall|x: int, y: int|
        0 <= x < t.len() && 0 <= y < t.len() && x != y implies #[trigger] t[x].address@ != #[trigger] t[y].address@ by {
        if x < ws.len() && y < ws.len() {
            assert(t[x] == ws[x] && t[y] == ws[y]);
        } else if x < ws.len() {
            assert(t[x] == ws[x]);
        } else {
            assert(t[y] == ws[y]);
        }
    }
    if a == w.address@ {
        lemma_value_in_at(t, ws.len() as int);
    } else {
        if exists|j: int| 0 <= j < t.len() && #[trigger] t[j].address@ == a {
            let j = choose|j: int| 0 <= j < t.len() && #[trigger] t[j].address@ == a;
            lemma_value_in_at(t, j);
            assert(t[j] == ws[j]);
            lemma_value_in_at(ws, j);
        } else {
            assert forall|j: int| 0 <= j < ws.len() implies #[trigger] ws[j].address@ != a by {
                assert(t[j] == ws[j]);
            }
        }
    }
}

/// The entries of the bucket that starts at `start`: for each address that
/// reported in that minute, its last balance.
pub fn bucket_wallets(rows: &Vec<PortfolioSnapshot>, start: i64) -> (ws: Vec<WalletValue>)
    requires
        starts_fit(rows@),
    ensures
        unique_wallets(ws@),
        forall|a: Seq<char>| #[trigger] value_in(ws@, a) == last_value(rows@, start as int, a),
{
    let mut ws: Vec<WalletValue> = Vec::new();
    let mut k: usize = 0;
    while k < rows.len()
        invariant
            k <= rows.len(),
            starts_fit(rows@),
            unique_wallets(ws@),
            forall|a: Seq<char>| #[trigger] value_in(ws@, a) == last_value(rows@.subrange(0, k as int), start as int, a),
        decreases rows.len() - k,
    {
        let ghost prefix = rows@.subrange(0, k as int + 1);
        assert(prefix.drop_last() =~= rows@.subrange(0, k as int));
        assert(prefix.last() == rows@[k as int]);
        let row = &rows[k];
        assert(bucket_start(rows@[k as int].timestamp as int) >= i64::MIN);
        if bucket_of(row.timestamp) == start {
            let ghost old_ws = ws@;
            let mut i: usize = 0;
            while i < ws.len() && ws[i].address != row.proxy_address
                invariant
                    i <= ws.len(),
                    forall|j: int| 0 <= j < i ==> #[trigger] ws@[j].address@ != row.proxy_address@,
                decreases ws.len() - i,
            {
                i = i + 1;
            }
            let w = WalletValue { address: row.proxy_address.clone(), value: row.usdc_balance };
            if i < ws.len() {
                ws.set(i, w);
                proof {
                    assert forall|a: Seq<char>| #[trigger] value_in(ws@, a) == last_value(prefix, start as int, a) by {
                        lemma_set_value(old_ws, i as int, w, a);
                    }
                    lemma_set_value(old_ws, i as int, w, Seq::<char>::empty());
                }
            } else {
                ws.push(w);
                proof {
                    assert forall|a: Seq<char>| #[trigger] value_in(ws@, a) == last_value(prefix, start as int, a) by {
                        lemma_push_value(old_ws, w, a);
                    }
                    lemma_push_value(old_ws, w, Seq::<char>::empty());
                }
            }
        }
        k = k + 1;
    }
    assert(rows@.subrange(0, rows.len() as int) =~= rows@);
    ws
}

/// The sum of the values of `ws`.
pub fn sum_wallet_values(ws: &Vec<WalletValue>) -> (total: u128)
    ensures
        total == sum_values(ws@),
{
    let mut total: u128 = 0;
    let mut i: usize = 0;
    while i < ws.len()
        invariant
            i <= ws.len(),
            total == sum_values(ws@.subrange(0, i as int)),
            total <= i as int * 0xffff_ffff_ffff_ffff,
        decreases ws.len() - i,
    {
        let ghost next = ws@.subrange(0, i as int + 1);
        assert(next.drop_last() =~= ws@.subrange(0, i as int));
        assert((i as int + 1) * 0xffff_ffff_ffff_ffff == i as int * 0xffff_ffff_ffff_ffff + 0xffff_ffff_ffff_ffff) by (nonlinear_arith);
        assert(i as int * 0xffff_ffff_ffff_ffff + 0xffff_ffff_ffff_ffff <= 0xffff_ffff_ffff_ffff * 0xffff_ffff_ffff_ffff) by (nonlinear_arith)
            requires (i as int) < 0xffff_ffff_ffff_ffff;
        total = total + ws[i].value as u128;
        i = i + 1;
    }
    assert(ws@.subrange(0, ws.len() as int) =~= ws@);
    total
}

/// The one-minute history of `rows`: one bucket per minute in which any
/// row was observed, in ascending order of start; each bucket holds the
/// last balance per address in its minute, and their sum, with no value
/// carried over from earlier minutes.
pub fn history(rows: &Vec<PortfolioSnapshot>) -> (r: Vec<HistoryBucket>)
    requires
        starts_fit(rows@),
    ensures
        forall|i: int, j: int| 0 <= i < j < r.len() ==> r[i].timestamp < r[j].timestamp,
        forall|i: int| 0 <= i < r.len() ==> has_bucket(rows@, rows.len() as int, #[trigger] r[i].timestamp as int),
        forall|k: int| 0 <= k < rows.len() ==> has_start(r@, bucket_start(#[trigger] rows[k].timestamp as int)),
        forall|i: int| 0 <= i < r.len() ==> bucket_matches(#[trigger] r[i], rows@),
{
    let starts = bucket_starts(rows);
    let mut out: Vec<HistoryBucket> = Vec::new();
    let mut i: usize = 0;
    while i < starts.len()
        invariant
            i <= starts.len(),
            starts_fit(rows@),
            out.len() == i,
            forall|m: int| 0 <= m < i ==> #[trigger] out[m].timestamp == starts[m],
            forall|m: int| 0 <= m < i ==> bucket_matches(#[trigger] out[m], rows@),
        decreases starts.len() - i,
    {
        let ws = bucket_wallets(rows, starts[i]);
        let total = sum_wallet_values(&ws);
        out.push(HistoryBucket { timestamp: starts[i], wallets: ws, total });
        i = i + 1;
    }
    assert forall|k: int| 0 <= k < rows.len() implies has_start(out@, bucket_start(#[trigger] rows[k].timestamp as int)) by {
        assert(covers(starts@, bucket_start(rows[k].timestamp as int)));
        let i = choose|i: int| 0 <= i < starts.len() && starts[i] == bucket_start(rows[k].timestamp as int);
        assert(out[i].timestamp == starts[i]);
    }
    out
}

/// Within one minute a later row of an address replaces, never adds to,
/// what an earlier row of that address reported.
pub proof fn lemma_later_row_replaces(rows: Seq<PortfolioSnapshot>, j: int)
    requires
        0 <= j < rows.len(),
    ensures
        last_value(rows.subrange(0, j + 1), bucket_start(rows[j].timestamp as int), rows[j].proxy_address@)
            == Some(rows[j].usdc_balance),
{
    let p = rows.subrange(0, j + 1);
    assert(p.last() == rows[j]);
}

} // verus!
