//! Chart aggregation: reducing stored snapshot history to one time series
//! per account.
//!
//! Each stored snapshot is merged across exchanges; every merged entry of an
//! account becomes one `{timestamp, balance}` point of that account's
//! series, snapshots in append order.  Accounts appear in order of first
//! appearance across the history — first appearance with entries, since an
//! entry-less account yields nothing to merge and so never opens a series.

use vstd::prelude::*;
use crate::bot_balance::{
    AccountV, BalanceV, BotBalance, EntryV, MergedAccount, exchanges_entries, merge_entries,
    mergeable,
};
use crate::jsonl_cache::{JsonCache, ParseError, complete_lines};
use crate::codec::parse_record;
use crate::text::str_eq;

verus! {

/// One point of a series: a snapshot's capture time and one merged amount.
#[derive(Debug, Clone, Copy, PartialEq, Eq)]
pub struct ChartDataEntry {
    pub timestamp: u64,
    pub balance: i64,
}

/// One account's series.
#[derive(Debug, PartialEq, Eq)]
pub struct ChartSeries {
    pub account: String,
    pub entries: Vec<ChartDataEntry>,
}

/// The chart-ready view of the stored history: one series per account.
#[derive(Debug, PartialEq, Eq)]
pub struct ChartData {
    pub chart_data: Vec<ChartSeries>,
}

/// Mathematical model of a point.
#[verifier::ext_equal]
pub struct ChartPointV {
    pub timestamp: u64,
    pub balance: int,
}

/// Mathematical model of a series.
#[verifier::ext_equal]
pub struct SeriesV {
    pub account: Seq<char>,
    pub entries: Seq<ChartPointV>,
}

impl View for ChartDataEntry {
    type V = ChartPointV;

    open spec fn view(&self) -> ChartPointV {
        ChartPointV { timestamp: self.timestamp, balance: self.balance as int }
    }
}

impl View for ChartSeries {
    type V = SeriesV;

    open spec fn view(&self) -> SeriesV {
        SeriesV {
            account: self.account@,
            entries: self.entries@.map_values(|e: ChartDataEntry| e@),
        }
    }
}

impl View for ChartData {
    type V = Seq<SeriesV>;

    open spec fn view(&self) -> Seq<SeriesV> {
        self.chart_data@.map_values(|s: ChartSeries| s@)
    }
}

/// The position of `name` among the accounts, or -1.
pub open spec fn acct_index(accs: Seq<AccountV>, name: Seq<char>) -> int
    decreases accs.len(),
{
    if accs.len() == 0 {
        -1
    } else if accs[0].account == name {
        0
    } else {
        let r = acct_index(accs.skip(1), name);
        if r == -1 {
            -1
        } else {
            1 + r
        }
    }
}

/// The merged entries of the account called `name` in one snapshot; empty
/// when the snapshot does not hold that account.
pub open spec fn merged_entries_of(b: BalanceV, name: Seq<char>) -> Seq<EntryV> {
    let i = acct_index(b.accounts, name);
    if 0 <= i < b.accounts.len() {
        merge_entries(exchanges_entries(b.accounts[i].exchanges))
    } else {
        Seq::empty()
    }
}

/// Merged entries turned into chart points at one capture time.
pub open spec fn points_of(es: Seq<EntryV>, ts: u64) -> Seq<ChartPointV> {
    es.map_values(|e: EntryV| ChartPointV { timestamp: ts, balance: e.amount })
}

/// The series of one account over the history, snapshots in order.
pub open spec fn series_of(bals: Seq<BalanceV>, name: Seq<char>) -> Seq<ChartPointV>
    decreases bals.len(),
{
    if bals.len() == 0 {
        Seq::empty()
    } else {
        series_of(bals.drop_last(), name) + points_of(
            merged_entries_of(bals.last(), name),
            bals.last().timestamp,
        )
    }
}

/// The names of the accounts merging keeps — those holding at least one
/// entry — in order.  Entry-less accounts never reach the chart.
pub open spec fn account_names(accs: Seq<AccountV>) -> Seq<Seq<char>> {
    crate::bot_balance::kept_accounts(accs).map_values(|a: AccountV| a.account)
}

/// All account names across the history, in scan order.
pub open spec fn all_names(bals: Seq<BalanceV>) -> Seq<Seq<char>>
    decreases bals.len(),
{
    if bals.len() == 0 {
        Seq::empty()
    } else {
        all_names(bals.drop_last()) + account_names(bals.last().accounts)
    }
}

/// The distinct names of a name list, in order of first appearance.
pub open spec fn distinct_names(ns: Seq<Seq<char>>) -> Seq<Seq<char>>
    decreases ns.len(),
{
    if ns.len() == 0 {
        Seq::empty()
    } else {
        let rest = distinct_names(ns.drop_last());
        if rest.contains(ns.last()) {
            rest
        } else {
            rest.push(ns.last())
        }
    }
}

/// The whole contract of the chart: which accounts appear, in which order,
/// and each one's full series.
pub open spec fn chart_spec_ok(chart: Seq<SeriesV>, bals: Seq<BalanceV>) -> bool {
    &&& chart.map_values(|s: SeriesV| s.account) == distinct_names(all_names(bals))
    &&& forall|j: int|
        0 <= j < chart.len() ==> (#[trigger] chart[j]).entries == series_of(
            bals,
            chart[j].account,
        )
}

/// Builds the per-account series from a run of snapshots.
#[verifier::loop_isolation(false)]
pub fn chart_from_balances(balances: &Vec<BotBalance>) -> (r: ChartData)
    requires
        forall|i: int| 0 <= i < balances@.len() ==> mergeable((#[trigger] balances@[i])@),
    ensures
        chart_spec_ok(r@, balances@.map_values(|b: BotBalance| b@)),
{
    let ghost bvs = balances@.map_values(|b: BotBalance| b@);
    let mut chart: Vec<ChartSeries> = Vec::new();
    let n = balances.len();
    let mut i: usize = 0;
    proof {
        assert(chart@.map_values(|s: ChartSeries| s@).map_values(|s: SeriesV| s.account) =~= Seq::<
            Seq<char>,
        >::empty());
        assert(all_names(bvs.take(0)) =~= Seq::<Seq<char>>::empty());
        assert(distinct_names(Seq::<Seq<char>>::empty()) =~= Seq::<Seq<char>>::empty());
    }
    while i < n
        invariant
            n == balances@.len(),
            i <= n,
            chart_spec_ok(chart@.map_values(|s: ChartSeries| s@), bvs.take(i as int)),
        decreases n - i,
    {
        proof {
            assert(bvs[i as int] == balances@[i as int]@);
        }
        let merged = balances[i].merge_across_exchanges();
        let ts = balances[i].timestamp;
        add_balance(&mut chart, &merged, ts, Ghost(bvs.take(i as int)), Ghost(bvs[i as int]));
        proof {
            assert(bvs.take(i as int).push(bvs[i as int]) =~= bvs.take(i as int + 1));
        }
        i += 1;
    }
    proof {
        assert(bvs.take(n as int) =~= bvs);
    }
    ChartData { chart_data: chart }
}

/// Folds one snapshot's merged accounts into the running chart.
#[verifier::loop_isolation(false)]
fn add_balance(
    chart: &mut Vec<ChartSeries>,
    merged: &Vec<MergedAccount>,
    ts: u64,
    Ghost(prefix): Ghost<Seq<BalanceV>>,
    Ghost(bal): Ghost<BalanceV>,
)
    requires
        chart_spec_ok(old(chart)@.map_values(|s: ChartSeries| s@), prefix),
        merged@.map_values(|m: MergedAccount| m@) == crate::bot_balance::merge_spec(bal),
        bal.wf(),
        bal.timestamp == ts,
    ensures
        chart_spec_ok(final(chart)@.map_values(|s: ChartSeries| s@), prefix.push(bal)),
{
    let nm = merged.len();
    let mut k: usize = 0;
    proof {
        assert(merged@.map_values(|m: MergedAccount| m@).len() == crate::bot_balance::merge_spec(
            bal,
        ).len());
        assert(nm == account_names(bal.accounts).len());
        lemma_kept_names_distinct(bal.accounts);
        lemma_distinct_names_distinct(all_names(prefix));
        assert(account_names(bal.accounts).take(0) =~= Seq::<Seq<char>>::empty());
        assert(all_names(prefix) + Seq::<Seq<char>>::empty() =~= all_names(prefix));
        assert forall|j: int| 0 <= j < chart@.len() implies (#[trigger] chart@[j])@.entries
            == partial_series(prefix, bal, 0, chart@[j]@.account) by {
            assert(chart@.map_values(|s: ChartSeries| s@)[j] == chart@[j]@);
            lemma_partial_series_none(prefix, bal, 0, chart@[j]@.account);
        }
    }
    while k < nm
        invariant
            nm == merged@.len(),
            k <= nm,
            chart@.map_values(|s: ChartSeries| s@).map_values(|s: SeriesV| s.account)
                == distinct_names(all_names(prefix) + account_names(bal.accounts).take(k as int)),
            forall|j: int|
                0 <= j < chart@.len() ==> (#[trigger] chart@[j])@.entries == partial_series(
                    prefix,
                    bal,
                    k as int,
                    chart@[j]@.account,
                ),
        decreases nm - k,
    {
        proof {
            assert(merged@.map_values(|m: MergedAccount| m@)[k as int] == merged@[k as int]@);
            assert(merged@[k as int]@ == crate::bot_balance::merge_spec(bal)[k as int]);
            assert(merged@[k as int]@ == crate::bot_balance::merge_account(
                crate::bot_balance::kept_accounts(bal.accounts)[k as int],
            ));
            lemma_merged_entries_of_kept(bal, k as int);
            lemma_kept_names_distinct(bal.accounts);
        }
        let m = &merged[k];
        add_account(chart, m, ts, Ghost(prefix), Ghost(bal), Ghost(k as int));
        k += 1;
    }
    proof {
        assert(account_names(bal.accounts).take(nm as int) =~= account_names(bal.accounts));
        assert(all_names(prefix.push(bal)) == all_names(prefix) + account_names(bal.accounts)) by {
            assert(prefix.push(bal).drop_last() =~= prefix);
        }
        let mapped = chart@.map_values(|s: ChartSeries| s@);
        assert forall|j: int| 0 <= j < mapped.len() implies (#[trigger] mapped[j]).entries
            == series_of(prefix.push(bal), mapped[j].account) by {
            assert(mapped[j] == chart@[j]@);
            let name = chart@[j]@.account;
            lemma_partial_series_full(prefix, bal, name);
            assert(prefix.push(bal).drop_last() =~= prefix);
        }
    }
}

/// The series of `name` over the prefix, plus its points from the first `k`
/// merged accounts of the snapshot being folded in.
pub open spec fn partial_series(
    prefix: Seq<BalanceV>,
    bal: BalanceV,
    k: int,
    name: Seq<char>,
) -> Seq<ChartPointV> {
    if account_names(bal.accounts).take(k).contains(name) {
        series_of(prefix, name) + points_of(merged_entries_of(bal, name), bal.timestamp)
    } else {
        series_of(prefix, name)
    }
}

/// Folds one merged account into the chart: extends its series, or starts a
/// new one at the end.
#[verifier::loop_isolation(false)]
fn add_account(
    chart: &mut Vec<ChartSeries>,
    m: &MergedAccount,
    ts: u64,
    Ghost(prefix): Ghost<Seq<BalanceV>>,
    Ghost(bal): Ghost<BalanceV>,
    Ghost(k): Ghost<int>,
)
    requires
        0 <= k < account_names(bal.accounts).len(),
        bal.wf(),
        bal.timestamp == ts,
        m@ == crate::bot_balance::merge_account(
            crate::bot_balance::kept_accounts(bal.accounts)[k],
        ),
        merged_entries_of(bal, m@.account) == m@.entries,
        forall|p: int, q: int|
            0 <= p < q < account_names(bal.accounts).len() ==> account_names(bal.accounts)[p]
                != account_names(bal.accounts)[q],
        old(chart)@.map_values(|s: ChartSeries| s@).map_values(|s: SeriesV| s.account)
            == distinct_names(all_names(prefix) + account_names(bal.accounts).take(k)),
        forall|j: int|
            0 <= j < old(chart)@.len() ==> (#[trigger] old(chart)@[j])@.entries
                == partial_series(prefix, bal, k, old(chart)@[j]@.account),
    ensures
        final(chart)@.map_values(|s: ChartSeries| s@).map_values(|s: SeriesV| s.account)
            == distinct_names(all_names(prefix) + account_names(bal.accounts).take(k + 1)),
        forall|j: int|
            0 <= j < final(chart)@.len() ==> (#[trigger] final(chart)@[j])@.entries
                == partial_series(prefix, bal, k + 1, final(chart)@[j]@.account),
{
    let ghost name = m@.account;
    let ghost ns = account_names(bal.accounts);
    let ghost old_names = distinct_names(all_names(prefix) + account_names(bal.accounts).take(k));
    proof {
        assert(ns[k] == name);
        assert(ns.take(k + 1)[k] == name);
        assert(ns.take(k + 1).contains(name));
        lemma_distinct_take_excludes(ns, k);
        lemma_distinct_names_snoc(all_names(prefix) + account_names(bal.accounts).take(k), name);
        assert((all_names(prefix) + account_names(bal.accounts).take(k)).push(name) =~= all_names(
            prefix,
        ) + account_names(bal.accounts).take(k + 1)) by {
            assert(account_names(bal.accounts).take(k + 1) =~= account_names(
                bal.accounts,
            ).take(k).push(name));
        }
        lemma_distinct_names_distinct(all_names(prefix) + account_names(bal.accounts).take(k));
        assert forall|j: int|
            0 <= j < chart@.len() && (#[trigger] chart@[j])@.account != name implies
            partial_series(prefix, bal, k, chart@[j]@.account) == partial_series(
            prefix,
            bal,
            k + 1,
            chart@[j]@.account,
        ) by {
            let nm2 = chart@[j]@.account;
            lemma_contains_take_step(ns, k, nm2);
        }
    }
    match find_series(chart, m.account.as_str()) {
        Some(idx) => {
            proof {
                assert(chart@.map_values(|s: ChartSeries| s@)[idx as int].account == name);
                assert(old_names.contains(name)) by {
                    assert(chart@.map_values(|s: ChartSeries| s@).map_values(|s: SeriesV| s.account)[idx as int]
                        == name);
                }
            }
            let mut new_entries: Vec<ChartDataEntry> = Vec::new();
            let ne = chart[idx].entries.len();
            let mut t: usize = 0;
            while t < ne
                invariant
                    idx < chart@.len(),
                    ne == chart@[idx as int].entries@.len(),
                    t <= ne,
                    new_entries@ == chart@[idx as int].entries@.take(t as int),
                decreases ne - t,
            {
                let e = chart[idx].entries[t];
                new_entries.push(e);
                proof {
                    assert(new_entries@ =~= chart@[idx as int].entries@.take(t as int + 1));
                }
                t += 1;
            }
            proof {
                assert(chart@[idx as int].entries@.take(ne as int) =~= chart@[idx as int].entries@);
            }
            append_points(&mut new_entries, &m.entries, ts);
            let account = chart[idx].account.clone();
            let ghost before = chart@;
            chart.set(idx, ChartSeries { account, entries: new_entries });
            proof {
                assert(chart@.map_values(|s: ChartSeries| s@).map_values(|s: SeriesV| s.account)
                    =~= before.map_values(|s: ChartSeries| s@).map_values(|s: SeriesV| s.account));
                assert(chart@.map_values(|s: ChartSeries| s@)[idx as int].entries =~= before.map_values(
                    |s: ChartSeries| s@,
                )[idx as int].entries + points_of(merged_entries_of(bal, name), ts));
                assert forall|j: int| 0 <= j < chart@.len() implies (
                #[trigger] chart@[j])@.entries == partial_series(
                    prefix,
                    bal,
                    k + 1,
                    chart@[j]@.account,
                ) by {
                    assert(chart@.map_values(|s: ChartSeries| s@)[j] == chart@[j]@);
                    assert(before.map_values(|s: ChartSeries| s@)[j] == before[j]@);
                    if j == idx {
                        assert(!ns.take(k).contains(name));
                        assert(partial_series(prefix, bal, k, name) == series_of(prefix, name));
                        assert(ns.take(k + 1).contains(name));
                        assert(partial_series(prefix, bal, k + 1, name) == series_of(prefix, name)
                            + points_of(merged_entries_of(bal, name), ts));
                    } else {
                        assert(chart@[j] == before[j]);
                        assert(chart@[j]@.account != name) by {
                            lemma_distinct_names_distinct(
                                all_names(prefix) + account_names(bal.accounts).take(k),
                            );
                            assert(chart@.map_values(|s: ChartSeries| s@).map_values(
                                |s: SeriesV| s.account,
                            )[j] == chart@[j]@.account);
                            assert(chart@.map_values(|s: ChartSeries| s@).map_values(
                                |s: SeriesV| s.account,
                            )[idx as int] == name);
                        }
                    }
                }
            }
        },
        None => {
            proof {
                assert(!old_names.contains(name)) by {
                    if old_names.contains(name) {
                        let j = choose|j: int|
                            0 <= j < old_names.len() && old_names[j] == name;
                        assert(chart@.map_values(|s: ChartSeries| s@)[j].account == name);
                    }
                }
            }
            let mut new_entries: Vec<ChartDataEntry> = Vec::new();
            append_points(&mut new_entries, &m.entries, ts);
            let account = crate::text::copy_str(m.account.as_str());
            let ghost before = chart@;
            chart.push(ChartSeries { account, entries: new_entries });
            proof {
                assert(chart@.map_values(|s: ChartSeries| s@).map_values(|s: SeriesV| s.account)
                    =~= before.map_values(|s: ChartSeries| s@).map_values(
                    |s: SeriesV| s.account,
                ).push(name));
                assert forall|j: int| 0 <= j < chart@.len() implies (
                #[trigger] chart@[j])@.entries == partial_series(
                    prefix,
                    bal,
                    k + 1,
                    chart@[j]@.account,
                ) by {
                    assert(chart@.map_values(|s: ChartSeries| s@)[j] == chart@[j]@);
                    if j < chart@.len() - 1 {
                        assert(before.map_values(|s: ChartSeries| s@)[j] == before[j]@);
                        assert(chart@[j] == before[j]);
                        assert(chart@[j]@.account != name) by {
                            lemma_distinct_names_distinct(
                                all_names(prefix) + account_names(bal.accounts).take(k),
                            );
                            if chart@[j]@.account == name {
                                assert(before.map_values(|s: ChartSeries| s@).map_values(
                                    |s: SeriesV| s.account,
                                )[j] == name);
                                assert(old_names.contains(name));
                            }
                        }
                    } else {
                        assert(chart@[j]@.entries =~= points_of(
                            merged_entries_of(bal, name),
                            ts,
                        ));
                        assert(series_of(prefix, name) =~= Seq::<ChartPointV>::empty()) by {
                            lemma_distinct_names_membership(all_names(prefix));
                            lemma_distinct_names_subsumes(
                                all_names(prefix) + account_names(bal.accounts).take(k),
                            );
                            assert(!distinct_names(all_names(prefix)).contains(name)) by {
                                if distinct_names(all_names(prefix)).contains(name) {
                                    let t = choose|t: int|
                                        0 <= t < distinct_names(all_names(prefix)).len()
                                            && distinct_names(all_names(prefix))[t] == name;
                                    assert(all_names(prefix).contains(name));
                                    let j = choose|j: int|
                                        0 <= j < all_names(prefix).len() && all_names(prefix)[j]
                                            == name;
                                    assert((all_names(prefix) + account_names(
                                        bal.accounts,
                                    ).take(k))[j] == name);
                                    assert(old_names.contains(name));
                                }
                            }
                            lemma_series_of_absent(
                                prefix,
                                name,
                                distinct_names(all_names(prefix)),
                            );
                        }
                        assert(ns.take(k + 1).contains(name));
                        assert(partial_series(prefix, bal, k + 1, name) =~= points_of(
                            merged_entries_of(bal, name),
                            ts,
                        ));
                    }
                }
            }
        },
    }
}

/// Converts and appends one merged account's entries as chart points.
#[verifier::loop_isolation(false)]
fn append_points(out: &mut Vec<ChartDataEntry>, entries: &Vec<crate::bot_balance::BotBalanceEntry>, ts: u64)
    ensures
        final(out)@.map_values(|e: ChartDataEntry| e@) == old(out)@.map_values(
            |e: ChartDataEntry| e@,
        ) + points_of(entries@.map_values(|e: crate::bot_balance::BotBalanceEntry| e@), ts),
{
    let n = entries.len();
    let mut t: usize = 0;
    proof {
        assert(points_of(
            entries@.map_values(|e: crate::bot_balance::BotBalanceEntry| e@).take(0),
            ts,
        ) =~= Seq::<ChartPointV>::empty());
        assert(old(out)@.map_values(|e: ChartDataEntry| e@) + Seq::<ChartPointV>::empty()
            =~= old(out)@.map_values(|e: ChartDataEntry| e@));
    }
    while t < n
        invariant
            n == entries@.len(),
            t <= n,
            out@.map_values(|e: ChartDataEntry| e@) == old(out)@.map_values(|e: ChartDataEntry| e@)
                + points_of(
                entries@.map_values(|e: crate::bot_balance::BotBalanceEntry| e@).take(t as int),
                ts,
            ),
        decreases n - t,
    {
        let e = &entries[t];
        out.push(ChartDataEntry { timestamp: ts, balance: e.amount });
        proof {
            let evs = entries@.map_values(|x: crate::bot_balance::BotBalanceEntry| x@);
            let pt = ChartPointV { timestamp: ts, balance: evs[t as int].amount };
            assert(evs[t as int] == entries@[t as int]@);
            assert(out@[out@.len() - 1]@ == pt);
            assert(out@.map_values(|x: ChartDataEntry| x@) =~= old(out)@.map_values(
                |x: ChartDataEntry| x@,
            ) + points_of(evs.take(t as int), ts) + seq![pt]);
            assert(evs.take(t as int + 1) =~= evs.take(t as int).push(evs[t as int]));
            assert(points_of(evs.take(t as int + 1), ts) =~= points_of(evs.take(t as int), ts)
                + seq![pt]);
            assert(out@.map_values(|x: ChartDataEntry| x@) =~= old(out)@.map_values(
                |x: ChartDataEntry| x@,
            ) + points_of(evs.take(t as int + 1), ts));
        }
        t += 1;
    }
    proof {
        let evs = entries@.map_values(|x: crate::bot_balance::BotBalanceEntry| x@);
        assert(evs.take(n as int) =~= evs);
    }
}

/// The position of the series named `name`, when the names are distinct.
fn find_series(chart: &Vec<ChartSeries>, name: &str) -> (r: Option<usize>)
    ensures
        match r {
            Some(idx) => idx < chart@.len() && chart@.map_values(|s: ChartSeries| s@)[
                idx as int
            ].account == name@,
            None => !chart@.map_values(|s: ChartSeries| s@).map_values(
                |s: SeriesV| s.account,
            ).contains(name@),
        },
{
    let n = chart.len();
    let mut i: usize = 0;
    while i < n
        invariant
            n == chart@.len(),
            i <= n,
            forall|j: int| 0 <= j < i ==> (#[trigger] chart@[j])@.account != name@,
        decreases n - i,
    {
        if str_eq(chart[i].account.as_str(), name) {
            proof {
                assert(chart@.map_values(|s: ChartSeries| s@)[i as int].account == name@);
            }
            return Some(i);
        }
        i += 1;
    }
    proof {
        let names = chart@.map_values(|s: ChartSeries| s@).map_values(|s: SeriesV| s.account);
        if names.contains(name@) {
            let j = choose|j: int| 0 <= j < names.len() && names[j] == name@;
            assert(chart@.map_values(|s: ChartSeries| s@)[j] == chart@[j]@);
            assert(chart@[j]@.account == name@);
        }
    }
    None
}

// ----------------------------------------------------------------- lemmas

/// The distinct-name list has no repeats.
proof fn lemma_distinct_names_distinct(ns: Seq<Seq<char>>)
    ensures
        forall|p: int, q: int|
            0 <= p < q < distinct_names(ns).len() ==> distinct_names(ns)[p] != distinct_names(
                ns,
            )[q],
    decreases ns.len(),
{
    if ns.len() > 0 {
        lemma_distinct_names_distinct(ns.drop_last());
        let rest = distinct_names(ns.drop_last());
        if !rest.contains(ns.last()) {
            assert forall|p: int, q: int|
                0 <= p < q < distinct_names(ns).len() implies distinct_names(ns)[p]
                != distinct_names(ns)[q] by {
                if q == distinct_names(ns).len() - 1 {
                    assert(distinct_names(ns)[p] == rest[p]);
                    assert(rest[p] != ns.last());
                }
            }
        }
    }
}

/// Growing the name list by one name: kept if new, dropped if seen.
proof fn lemma_distinct_names_snoc(ns: Seq<Seq<char>>, name: Seq<char>)
    ensures
        distinct_names(ns.push(name)) == if distinct_names(ns).contains(name) {
            distinct_names(ns)
        } else {
            distinct_names(ns).push(name)
        },
{
    assert(ns.push(name).drop_last() =~= ns);
    assert(ns.push(name).last() == name);
}

/// Distinct account names: the index of the `k`-th account's name is `k`.
proof fn lemma_acct_index_self(accs: Seq<AccountV>, k: int)
    requires
        0 <= k < accs.len(),
        forall|p: int, q: int| 0 <= p < q < accs.len() ==> accs[p].account != accs[q].account,
        forall|p: int| 0 <= p < k ==> accs[p].account != accs[k].account,
    ensures
        acct_index(accs, accs[k].account) == k,
    decreases accs.len(),
{
    if k > 0 {
        assert(accs.skip(1)[k - 1] == accs[k]);
        assert forall|p: int, q: int|
            0 <= p < q < accs.skip(1).len() implies accs.skip(1)[p].account != accs.skip(
            1,
        )[q].account by {
            assert(accs.skip(1)[p] == accs[p + 1]);
            assert(accs.skip(1)[q] == accs[q + 1]);
        }
        assert forall|p: int| 0 <= p < k - 1 implies (#[trigger] accs.skip(1)[p]).account
            != accs.skip(1)[k - 1].account by {
            assert(accs.skip(1)[p] == accs[p + 1]);
        }
        lemma_acct_index_self(accs.skip(1), k - 1);
    }
}

/// Taking one more name changes nothing for other names.
proof fn lemma_contains_take_step(ns: Seq<Seq<char>>, k: int, z: Seq<char>)
    requires
        0 <= k < ns.len(),
        z != ns[k],
    ensures
        ns.take(k + 1).contains(z) == ns.take(k).contains(z),
{
    if ns.take(k + 1).contains(z) {
        let w = choose|w: int| 0 <= w < ns.take(k + 1).len() && #[trigger] ns.take(k + 1)[w] == z;
        assert(w < k) by {
            if w == k {
                assert(ns.take(k + 1)[k] == ns[k]);
            }
        }
        assert(ns.take(k)[w] == z);
    }
    if ns.take(k).contains(z) {
        let w = choose|w: int| 0 <= w < ns.take(k).len() && #[trigger] ns.take(k)[w] == z;
        assert(ns.take(k + 1)[w] == z);
    }
}

/// In a repeat-free name list, the first `k` names exclude the `k`-th.
proof fn lemma_distinct_take_excludes(ns: Seq<Seq<char>>, k: int)
    requires
        0 <= k < ns.len(),
        forall|p: int, q: int| 0 <= p < q < ns.len() ==> ns[p] != ns[q],
    ensures
        !ns.take(k).contains(ns[k]),
{
    if ns.take(k).contains(ns[k]) {
        let w = choose|w: int| 0 <= w < ns.take(k).len() && #[trigger] ns.take(k)[w] == ns[k];
        assert(ns[w] == ns[k]);
    }
}

/// Every kept account comes from the account list, entries and all.
proof fn lemma_kept_member(accs: Seq<AccountV>, k: int)
    requires
        0 <= k < crate::bot_balance::kept_accounts(accs).len(),
    ensures
        exists|j: int|
            0 <= j < accs.len() && accs[j] == crate::bot_balance::kept_accounts(accs)[k],
        exchanges_entries(crate::bot_balance::kept_accounts(accs)[k].exchanges).len() > 0,
    decreases accs.len(),
{
    if accs.len() > 0 {
        let rest = crate::bot_balance::kept_accounts(accs.drop_last());
        if exchanges_entries(accs.last().exchanges).len() > 0 && k == rest.len() {
            assert(accs[accs.len() - 1] == crate::bot_balance::kept_accounts(accs)[k]);
        } else {
            lemma_kept_member(accs.drop_last(), k);
            let j = choose|j: int|
                0 <= j < accs.drop_last().len() && accs.drop_last()[j] == rest[k];
            assert(accs[j] == crate::bot_balance::kept_accounts(accs)[k]);
        }
    }
}

/// Distinct account names stay distinct among the kept accounts.
proof fn lemma_kept_names_distinct(accs: Seq<AccountV>)
    requires
        forall|p: int, q: int| 0 <= p < q < accs.len() ==> accs[p].account != accs[q].account,
    ensures
        forall|p: int, q: int|
            0 <= p < q < account_names(accs).len() ==> account_names(accs)[p] != account_names(
                accs,
            )[q],
    decreases accs.len(),
{
    if accs.len() > 0 {
        assert forall|p: int, q: int|
            0 <= p < q < accs.drop_last().len() implies (#[trigger] accs.drop_last()[p]).account
            != (#[trigger] accs.drop_last()[q]).account by {
            assert(accs.drop_last()[p] == accs[p]);
            assert(accs.drop_last()[q] == accs[q]);
        }
        lemma_kept_names_distinct(accs.drop_last());
        let kp = crate::bot_balance::kept_accounts(accs);
        let rest = crate::bot_balance::kept_accounts(accs.drop_last());
        if exchanges_entries(accs.last().exchanges).len() > 0 {
            assert(kp == rest.push(accs.last()));
            assert forall|p: int, q: int|
                0 <= p < q < account_names(accs).len() implies account_names(accs)[p]
                != account_names(accs)[q] by {
                assert(account_names(accs)[p] == kp[p].account);
                assert(account_names(accs)[q] == kp[q].account);
                if q == kp.len() - 1 {
                    lemma_kept_member(accs.drop_last(), p);
                    let j = choose|j: int|
                        0 <= j < accs.drop_last().len() && accs.drop_last()[j] == rest[p];
                    assert(accs[j] == kp[p]);
                    assert(accs[j].account != accs[accs.len() - 1].account);
                } else {
                    assert(account_names(accs.drop_last())[p] == rest[p].account);
                    assert(account_names(accs.drop_last())[q] == rest[q].account);
                }
            }
        } else {
            assert(kp == rest);
            assert forall|p: int, q: int|
                0 <= p < q < account_names(accs).len() implies account_names(accs)[p]
                != account_names(accs)[q] by {
                assert(account_names(accs.drop_last())[p] == account_names(accs)[p]);
                assert(account_names(accs.drop_last())[q] == account_names(accs)[q]);
            }
        }
    }
}

/// An account holding entries lends its name to the kept list.
proof fn lemma_kept_contains(accs: Seq<AccountV>, i: int)
    requires
        0 <= i < accs.len(),
        exchanges_entries(accs[i].exchanges).len() > 0,
    ensures
        account_names(accs).contains(accs[i].account),
    decreases accs.len(),
{
    if accs.len() > 0 {
        let rest = crate::bot_balance::kept_accounts(accs.drop_last());
        if i == accs.len() - 1 {
            assert(account_names(accs)[rest.len() as int] == accs[i].account);
        } else {
            assert(accs.drop_last()[i] == accs[i]);
            lemma_kept_contains(accs.drop_last(), i);
            let w = choose|w: int|
                0 <= w < account_names(accs.drop_last()).len() && account_names(
                    accs.drop_last(),
                )[w] == accs[i].account;
            assert(account_names(accs)[w] == rest[w].account);
            assert(account_names(accs)[w] == accs[i].account);
        }
    }
}

/// A name outside the kept list gains nothing from merging the snapshot:
/// either no account carries it, or its account holds no entries.
proof fn lemma_points_not_kept(bal: BalanceV, name: Seq<char>)
    requires
        !account_names(bal.accounts).contains(name),
    ensures
        merged_entries_of(bal, name) == Seq::<EntryV>::empty(),
{
    let i = acct_index(bal.accounts, name);
    lemma_acct_index_range(bal.accounts, name);
    if 0 <= i < bal.accounts.len() {
        lemma_acct_index_names(bal.accounts, name);
        let es = exchanges_entries(bal.accounts[i].exchanges);
        if es.len() > 0 {
            lemma_kept_contains(bal.accounts, i);
        } else {
            assert(es =~= Seq::<EntryV>::empty());
            assert(crate::bot_balance::distinct_coins(Seq::<EntryV>::empty()) =~= Seq::<
                Seq<char>,
            >::empty());
            assert(merge_entries(es) =~= Seq::<EntryV>::empty());
        }
    } else {
        assert(merged_entries_of(bal, name) =~= Seq::<EntryV>::empty());
    }
}

/// The merged entries of the `k`-th kept account are what the merge of that
/// account yields.
proof fn lemma_merged_entries_of_kept(bal: BalanceV, k: int)
    requires
        bal.wf(),
        0 <= k < crate::bot_balance::kept_accounts(bal.accounts).len(),
    ensures
        merged_entries_of(bal, crate::bot_balance::kept_accounts(bal.accounts)[k].account)
            == crate::bot_balance::merge_account(
            crate::bot_balance::kept_accounts(bal.accounts)[k],
        ).entries,
{
    lemma_kept_member(bal.accounts, k);
    let j = choose|j: int|
        0 <= j < bal.accounts.len() && bal.accounts[j] == crate::bot_balance::kept_accounts(
            bal.accounts,
        )[k];
    assert forall|p: int| 0 <= p < j implies (#[trigger] bal.accounts[p]).account
        != bal.accounts[j].account by {
        assert(bal.accounts[p].account != bal.accounts[j].account);
    }
    lemma_acct_index_self(bal.accounts, j);
}

/// Before any merged account is folded in, a series is just its history.
proof fn lemma_partial_series_none(prefix: Seq<BalanceV>, bal: BalanceV, k: int, name: Seq<char>)
    requires
        k == 0,
    ensures
        partial_series(prefix, bal, k, name) == series_of(prefix, name),
{
    assert(account_names(bal.accounts).take(0).len() == 0);
}

/// After every merged account is folded in, the partial series is the full
/// series over the extended history.
proof fn lemma_partial_series_full(prefix: Seq<BalanceV>, bal: BalanceV, name: Seq<char>)
    ensures
        partial_series(prefix, bal, account_names(bal.accounts).len() as int, name) == series_of(
            prefix.push(bal),
            name,
        ),
{
    assert(prefix.push(bal).drop_last() =~= prefix);
    assert(prefix.push(bal).last() == bal);
    let ns = account_names(bal.accounts);
    assert(ns.take(ns.len() as int) =~= ns);
    if !ns.contains(name) {
        lemma_points_not_kept(bal, name);
        assert(points_of(Seq::<EntryV>::empty(), bal.timestamp) =~= Seq::<ChartPointV>::empty());
        assert(series_of(prefix, name) + Seq::<ChartPointV>::empty() =~= series_of(prefix, name));
    }
}

/// The index is within range or -1.
proof fn lemma_acct_index_range(accs: Seq<AccountV>, name: Seq<char>)
    ensures
        acct_index(accs, name) == -1 || 0 <= acct_index(accs, name) < accs.len(),
    decreases accs.len(),
{
    if accs.len() > 0 {
        lemma_acct_index_range(accs.skip(1), name);
    }
}

/// A name never seen in the history has an empty series.
proof fn lemma_series_of_absent(prefix: Seq<BalanceV>, name: Seq<char>, names: Seq<Seq<char>>)
    requires
        names == distinct_names(all_names(prefix)),
        !names.contains(name),
    ensures
        series_of(prefix, name) == Seq::<ChartPointV>::empty(),
    decreases prefix.len(),
{
    if prefix.len() > 0 {
        lemma_distinct_names_subsumes(all_names(prefix));
        assert(!all_names(prefix).contains(name)) by {
            if all_names(prefix).contains(name) {
                let j = choose|j: int|
                    0 <= j < all_names(prefix).len() && all_names(prefix)[j] == name;
                assert(distinct_names(all_names(prefix)).contains(all_names(prefix)[j]));
            }
        }
        assert(!all_names(prefix.drop_last()).contains(name)) by {
            if all_names(prefix.drop_last()).contains(name) {
                let j = choose|j: int|
                    0 <= j < all_names(prefix.drop_last()).len() && all_names(
                        prefix.drop_last(),
                    )[j] == name;
                assert(all_names(prefix)[j] == name);
            }
        }
        assert(!distinct_names(all_names(prefix.drop_last())).contains(name)) by {
            lemma_distinct_names_membership(all_names(prefix.drop_last()));
            if distinct_names(all_names(prefix.drop_last())).contains(name) {
                let t = choose|t: int|
                    0 <= t < distinct_names(all_names(prefix.drop_last())).len()
                        && distinct_names(all_names(prefix.drop_last()))[t] == name;
                assert(all_names(prefix.drop_last()).contains(name));
            }
        }
        lemma_series_of_absent(
            prefix.drop_last(),
            name,
            distinct_names(all_names(prefix.drop_last())),
        );
        assert(!account_names(prefix.last().accounts).contains(name)) by {
            if account_names(prefix.last().accounts).contains(name) {
                let j = choose|j: int|
                    0 <= j < account_names(prefix.last().accounts).len() && account_names(
                        prefix.last().accounts,
                    )[j] == name;
                assert(all_names(prefix)[all_names(prefix.drop_last()).len() + j] == name);
            }
        }
        lemma_points_not_kept(prefix.last(), name);
        assert(merged_entries_of(prefix.last(), name) =~= Seq::<EntryV>::empty());
        assert(points_of(Seq::<EntryV>::empty(), prefix.last().timestamp) =~= Seq::<
            ChartPointV,
        >::empty());
        assert(series_of(prefix, name) =~= Seq::<ChartPointV>::empty());
    }
}

/// A found index names the account searched for.
proof fn lemma_acct_index_names(accs: Seq<AccountV>, name: Seq<char>)
    requires
        acct_index(accs, name) != -1,
    ensures
        0 <= acct_index(accs, name) < accs.len(),
        accs[acct_index(accs, name)].account == name,
    decreases accs.len(),
{
    if accs.len() > 0 {
        if accs[0].account != name {
            lemma_acct_index_names(accs.skip(1), name);
            let r = acct_index(accs.skip(1), name);
            assert(accs[1 + r] == accs.skip(1)[r]);
        }
    }
}

/// Every distinct name comes from the name list.
proof fn lemma_distinct_names_membership(ns: Seq<Seq<char>>)
    ensures
        forall|t: int|
            0 <= t < distinct_names(ns).len() ==> ns.contains(#[trigger] distinct_names(ns)[t]),
    decreases ns.len(),
{
    if ns.len() > 0 {
        lemma_distinct_names_membership(ns.drop_last());
        let rest = distinct_names(ns.drop_last());
        assert forall|t: int| 0 <= t < distinct_names(ns).len() implies ns.contains(
            #[trigger] distinct_names(ns)[t],
        ) by {
            if t < rest.len() {
                assert(distinct_names(ns)[t] == rest[t]);
                assert(ns.drop_last().contains(rest[t]));
                let j = choose|j: int|
                    0 <= j < ns.drop_last().len() && ns.drop_last()[j] == rest[t];
                assert(ns[j] == rest[t]);
            } else {
                assert(distinct_names(ns)[t] == ns.last());
                assert(ns[ns.len() - 1] == ns.last());
            }
        }
    }
}

/// Everything in a name list appears among its distinct names.
proof fn lemma_distinct_names_subsumes(ns: Seq<Seq<char>>)
    ensures
        forall|j: int|
            0 <= j < ns.len() ==> distinct_names(ns).contains(#[trigger] ns[j]),
    decreases ns.len(),
{
    if ns.len() > 0 {
        lemma_distinct_names_subsumes(ns.drop_last());
        let rest = distinct_names(ns.drop_last());
        assert forall|j: int| 0 <= j < ns.len() implies distinct_names(ns).contains(
            #[trigger] ns[j],
        ) by {
            if j < ns.len() - 1 {
                assert(ns.drop_last()[j] == ns[j]);
                assert(rest.contains(ns[j]));
                let t = choose|t: int| 0 <= t < rest.len() && rest[t] == ns[j];
                if rest.contains(ns.last()) {
                    assert(distinct_names(ns)[t] == ns[j]);
                } else {
                    assert(distinct_names(ns)[t] == ns[j]);
                }
            } else {
                if rest.contains(ns.last()) {
                    let t = choose|t: int| 0 <= t < rest.len() && rest[t] == ns.last();
                    assert(distinct_names(ns)[t] == ns[j]);
                } else {
                    assert(distinct_names(ns)[rest.len() as int] == ns[j]);
                }
            }
        }
    }
}

// --------------------------------------------------- chart from the store

impl ChartData {
    /// The chart of the store's whole history: every stored snapshot read
    /// back, merged, and flattened into per-account series.  Fails exactly
    /// when `get_all_objects` fails, with the same offending line.
    pub fn make_chart(cache: &JsonCache) -> (r: Result<ChartData, ParseError>)
        requires
            forall|j: int|
                0 <= j < complete_lines(cache@).len() ==> ((#[trigger] parse_record(
                    complete_lines(cache@)[j],
                )) matches Some(b) ==> mergeable(b)),
        ensures
            ({
                let ls = complete_lines(cache@);
                match r {
                    Ok(c) => {
                        &&& forall|j: int|
                            0 <= j < ls.len() ==> #[trigger] parse_record(ls[j]) is Some
                        &&& chart_spec_ok(
                            c@,
                            Seq::new(ls.len(), |j: int| parse_record(ls[j]).unwrap()),
                        )
                    },
                    Err(e) => {
                        &&& 0 <= e.line_index < ls.len()
                        &&& parse_record(ls[e.line_index as int]) is None
                        &&& e.line@ == ls[e.line_index as int]
                    },
                }
            }),
    {
        let balances = match cache.get_all_objects() {
            Ok(v) => v,
            Err(e) => {
                return Err(e);
            },
        };
        proof {
            let ls = complete_lines(cache@);
            assert forall|i: int| 0 <= i < balances@.len() implies mergeable(
                (#[trigger] balances@[i])@,
            ) by {
                assert(parse_record(ls[i]) == Some(balances@[i]@));
            }
        }
        let chart = chart_from_balances(&balances);
        proof {
            let ls = complete_lines(cache@);
            assert(balances@.map_values(|b: BotBalance| b@) =~= Seq::new(
                ls.len(),
                |j: int| parse_record(ls[j]).unwrap(),
            ));
        }
        Ok(chart)
    }
}

} // verus!

verus! {

// ------------------------------------------------- chart text for drawing

/// One chart point as JSON.
pub open spec fn chart_point_json(p: ChartPointV) -> Seq<char> {
    "{\"timestamp\":"@ + crate::codec::encode_nat(p.timestamp as int) + ",\"balance\":"@
        + crate::codec::encode_int(p.balance) + "}"@
}

/// A comma-separated point list.
pub open spec fn chart_points_json(ps: Seq<ChartPointV>) -> Seq<char>
    decreases ps.len(),
{
    if ps.len() == 0 {
        Seq::empty()
    } else if ps.len() == 1 {
        chart_point_json(ps[0])
    } else {
        chart_point_json(ps[0]) + seq![','] + chart_points_json(ps.skip(1))
    }
}

/// One series: the account name and its points.
pub open spec fn chart_series_json(s: SeriesV) -> Seq<char> {
    crate::codec::encode_string(s.account) + ":["@ + chart_points_json(s.entries) + "]"@
}

/// A comma-separated series list.
pub open spec fn chart_serieses_json(ss: Seq<SeriesV>) -> Seq<char>
    decreases ss.len(),
{
    if ss.len() == 0 {
        Seq::empty()
    } else if ss.len() == 1 {
        chart_series_json(ss[0])
    } else {
        chart_series_json(ss[0]) + seq![','] + chart_serieses_json(ss.skip(1))
    }
}

/// The whole chart as the JSON object the renderer draws from.
pub open spec fn chart_json(c: Seq<SeriesV>) -> Seq<char> {
    "{\"chartData\":{"@ + chart_serieses_json(c) + "}}"@
}

impl ChartData {
    /// Writes the chart as the JSON text handed to the renderer.
    pub fn render_json(&self) -> (r: String)
        ensures
            r@ == chart_json(self@),
    {
        let mut out = String::new();
        out.append("{\"chartData\":{");
        push_serieses(&mut out, &self.chart_data, 0);
        out.append("}}");
        proof {
            assert(self@ =~= self.chart_data@.map_values(|s: ChartSeries| s@).skip(0));
            assert(out@ =~= "{\"chartData\":{"@ + chart_serieses_json(self@) + "}}"@);
        }
        out
    }
}

/// Appends the series from `i` on, commas between them.
#[verifier::loop_isolation(false)]
fn push_serieses(out: &mut String, ss: &Vec<ChartSeries>, i: usize)
    requires
        i <= ss@.len(),
    ensures
        final(out)@ == old(out)@ + chart_serieses_json(
            ss@.map_values(|s: ChartSeries| s@).skip(i as int),
        ),
    decreases ss@.len() - i,
{
    let ghost svs = ss@.map_values(|s: ChartSeries| s@);
    if i == ss.len() {
        proof {
            assert(svs.skip(i as int) =~= Seq::<SeriesV>::empty());
            assert(old(out)@ + Seq::<char>::empty() =~= old(out)@);
        }
        return;
    }
    let s = &ss[i];
    crate::codec::push_string(out, s.account.as_str());
    out.append(":[");
    push_points(out, &s.entries, 0);
    out.append("]");
    proof {
        assert(svs.skip(i as int)[0] == s@);
        assert(s@.entries =~= s.entries@.map_values(|e: ChartDataEntry| e@).skip(0));
        assert(out@ == old(out)@ + chart_series_json(s@)) by {
            assert(out@ =~= old(out)@ + (crate::codec::encode_string(s.account@) + ":["@
                + chart_points_json(s@.entries) + "]"@));
        }
    }
    if i + 1 == ss.len() {
        proof {
            assert(svs.skip(i as int).len() == 1);
        }
        return;
    }
    out.append(",");
    push_serieses(out, ss, i + 1);
    proof {
        reveal_strlit(",");
        assert(","@ =~= seq![',']);
        assert(svs.skip(i as int).len() > 1);
        assert(svs.skip(i as int).skip(1) =~= svs.skip(i as int + 1));
        assert(out@ =~= old(out)@ + (chart_series_json(svs.skip(i as int)[0]) + seq![',']
            + chart_serieses_json(svs.skip(i as int + 1))));
    }
}

/// Appends the points from `i` on, commas between them.
#[verifier::loop_isolation(false)]
fn push_points(out: &mut String, es: &Vec<ChartDataEntry>, i: usize)
    requires
        i <= es@.len(),
    ensures
        final(out)@ == old(out)@ + chart_points_json(
            es@.map_values(|e: ChartDataEntry| e@).skip(i as int),
        ),
    decreases es@.len() - i,
{
    let ghost evs = es@.map_values(|e: ChartDataEntry| e@);
    if i == es.len() {
        proof {
            assert(evs.skip(i as int) =~= Seq::<ChartPointV>::empty());
            assert(old(out)@ + Seq::<char>::empty() =~= old(out)@);
        }
        return;
    }
    let e = &es[i];
    out.append("{\"timestamp\":");
    crate::codec::push_nat(out, e.timestamp);
    out.append(",\"balance\":");
    crate::codec::push_int(out, e.balance);
    out.append("}");
    proof {
        assert(evs.skip(i as int)[0] == e@);
        assert(out@ == old(out)@ + chart_point_json(e@)) by {
            assert(out@ =~= old(out)@ + ("{\"timestamp\":"@ + crate::codec::encode_nat(
                e.timestamp as int,
            ) + ",\"balance\":"@ + crate::codec::encode_int(e.balance as int) + "}"@));
        }
    }
    if i + 1 == es.len() {
        proof {
            assert(evs.skip(i as int).len() == 1);
        }
        return;
    }
    out.append(",");
    push_points(out, es, i + 1);
    proof {
        reveal_strlit(",");
        assert(","@ =~= seq![',']);
        assert(evs.skip(i as int).len() > 1);
        assert(evs.skip(i as int).skip(1) =~= evs.skip(i as int + 1));
        assert(out@ =~= old(out)@ + (chart_point_json(evs.skip(i as int)[0]) + seq![',']
            + chart_points_json(evs.skip(i as int + 1))));
    }
}

} // verus!

verus! {

/// One scheduled (or on-demand) reporting cycle's verified half: persist
/// the fetched snapshot, then reduce the accumulated history to the chart.
/// The snapshot lands in the store whatever else happens; the cycle's
/// outcome is the chart, or the undecodable line that stopped the read.
/// On a store whose text ends at a line boundary (which
/// [`JsonCache::is_line_terminated`] checks, and every store built by
/// `write` alone satisfies) the snapshot becomes exactly one new complete
/// line; after a crash-truncated tail the append lands on the partial line,
/// which then fails to decode and is reported.  Fetching the snapshot,
/// rendering the chart and notifying stay with the application's
/// collaborators, which absorb their own failures.
pub fn persist_and_chart(cache: &mut JsonCache, snapshot: &BotBalance) -> (r: Result<
    ChartData,
    ParseError,
>)
    requires
        snapshot@.wf(),
        forall|j: int|
            0 <= j < complete_lines(
                old(cache)@ + crate::codec::encode_record(snapshot@) + seq!['\n'],
            ).len() ==> ((#[trigger] parse_record(
                complete_lines(
                    old(cache)@ + crate::codec::encode_record(snapshot@) + seq!['\n'],
                )[j],
            )) matches Some(b) ==> mergeable(b)),
    ensures
        final(cache)@ == old(cache)@ + crate::codec::encode_record(snapshot@) + seq!['\n'],
        crate::jsonl_cache::terminated(old(cache)@) ==> complete_lines(final(cache)@)
            == complete_lines(old(cache)@).push(crate::codec::encode_record(snapshot@)),
        ({
            let ls = complete_lines(final(cache)@);
            match r {
                Ok(c) => {
                    &&& forall|j: int| 0 <= j < ls.len() ==> #[trigger] parse_record(ls[j]) is Some
                    &&& chart_spec_ok(c@, Seq::new(ls.len(), |j: int| parse_record(ls[j]).unwrap()))
                },
                Err(e) => {
                    &&& 0 <= e.line_index < ls.len()
                    &&& parse_record(ls[e.line_index as int]) is None
                    &&& e.line@ == ls[e.line_index as int]
                },
            }
        }),
{
    cache.write(snapshot);
    proof {
        if crate::jsonl_cache::terminated(old(cache)@) {
            crate::jsonl_cache::lemma_encode_record_no_nl(snapshot@);
            crate::jsonl_cache::lemma_complete_lines_append(
                old(cache)@,
                crate::codec::encode_record(snapshot@),
            );
        }
    }
    ChartData::make_chart(cache)
}

} // verus!
