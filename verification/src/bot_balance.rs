//! Balance snapshots and the merge across exchanges.
//!
//! A [`BotBalance`] is one point-in-time capture of the asset amounts held
//! per account and exchange.  Amounts are fixed-point integers: the number of
//! minimal units of the asset, so that sums are exact.
//! [`BotBalance::merge_across_exchanges`] reduces a snapshot to one entry per
//! account and asset, summing the amounts over all exchanges; an account
//! holding no entry at all yields nothing and drops out.  The sum of the
//! merged amounts equals the sum of the raw entries (conservation, proved in
//! [`lemma_merge_conservation`]).

use vstd::prelude::*;
use crate::text::str_eq;

verus! {

/// One asset position: an asset name and an amount in minimal units.
#[derive(Debug, PartialEq, Eq)]
pub struct BotBalanceEntry {
    pub coin: String,
    pub amount: i64,
}

/// The positions held on one exchange.
#[derive(Debug, PartialEq, Eq)]
pub struct ExchangeBalance {
    pub exchange: String,
    pub entries: Vec<BotBalanceEntry>,
}

/// The positions of one account, keyed by exchange.
#[derive(Debug, PartialEq, Eq)]
pub struct AccountBalance {
    pub account: String,
    pub exchanges: Vec<ExchangeBalance>,
}

/// A point-in-time balance snapshot: accounts, each with its exchanges and
/// positions, plus the capture timestamp.
#[derive(Debug, PartialEq, Eq)]
pub struct BotBalance {
    pub accounts: Vec<AccountBalance>,
    pub timestamp: u64,
}

/// One merged account: each asset appears once, with the amounts summed
/// across all exchanges.
#[derive(Debug, PartialEq, Eq)]
pub struct MergedAccount {
    pub account: String,
    pub entries: Vec<BotBalanceEntry>,
}

/// Mathematical model of an entry.
#[verifier::ext_equal]
pub struct EntryV {
    pub coin: Seq<char>,
    pub amount: int,
}

/// Mathematical model of an exchange's positions.
#[verifier::ext_equal]
pub struct ExchangeV {
    pub exchange: Seq<char>,
    pub entries: Seq<EntryV>,
}

/// Mathematical model of an account's positions.
#[verifier::ext_equal]
pub struct AccountV {
    pub account: Seq<char>,
    pub exchanges: Seq<ExchangeV>,
}

/// Mathematical model of a snapshot.
#[verifier::ext_equal]
pub struct BalanceV {
    pub accounts: Seq<AccountV>,
    pub timestamp: u64,
}

/// Mathematical model of a merged account.
#[verifier::ext_equal]
pub struct MergedV {
    pub account: Seq<char>,
    pub entries: Seq<EntryV>,
}

impl View for BotBalanceEntry {
    type V = EntryV;

    open spec fn view(&self) -> EntryV {
        EntryV { coin: self.coin@, amount: self.amount as int }
    }
}

impl View for ExchangeBalance {
    type V = ExchangeV;

    open spec fn view(&self) -> ExchangeV {
        ExchangeV {
            exchange: self.exchange@,
            entries: self.entries@.map_values(|e: BotBalanceEntry| e@),
        }
    }
}

impl View for AccountBalance {
    type V = AccountV;

    open spec fn view(&self) -> AccountV {
        AccountV {
            account: self.account@,
            exchanges: self.exchanges@.map_values(|x: ExchangeBalance| x@),
        }
    }
}

impl View for BotBalance {
    type V = BalanceV;

    open spec fn view(&self) -> BalanceV {
        BalanceV {
            accounts: self.accounts@.map_values(|a: AccountBalance| a@),
            timestamp: self.timestamp,
        }
    }
}

impl View for MergedAccount {
    type V = MergedV;

    open spec fn view(&self) -> MergedV {
        MergedV {
            account: self.account@,
            entries: self.entries@.map_values(|e: BotBalanceEntry| e@),
        }
    }
}

/// A control character (below space), which record names must not contain:
/// the store's line framing and its JSON field framing depend on it.
pub open spec fn is_ctl_char(c: char) -> bool {
    (c as u32) < 0x20
}

/// A name fit for a record: free of control characters.
pub open spec fn wf_name(s: Seq<char>) -> bool {
    forall|i: int| 0 <= i < s.len() ==> !is_ctl_char(#[trigger] s[i])
}

impl EntryV {
    /// Well-formed entry: a clean asset name and an amount that fits the
    /// stored width.
    pub open spec fn wf(self) -> bool {
        &&& wf_name(self.coin)
        &&& i64::MIN <= self.amount <= i64::MAX
    }
}

impl ExchangeV {
    /// Well-formed exchange: a clean name and well-formed entries.
    pub open spec fn wf(self) -> bool {
        &&& wf_name(self.exchange)
        &&& forall|i: int| 0 <= i < self.entries.len() ==> (#[trigger] self.entries[i]).wf()
    }
}

impl AccountV {
    /// Well-formed account: a clean name, well-formed exchanges, and no two
    /// exchanges with the same name.
    pub open spec fn wf(self) -> bool {
        &&& wf_name(self.account)
        &&& forall|i: int| 0 <= i < self.exchanges.len() ==> (#[trigger] self.exchanges[i]).wf()
        &&& forall|i: int, j: int|
            0 <= i < j < self.exchanges.len() ==> self.exchanges[i].exchange
                != self.exchanges[j].exchange
    }
}

impl BalanceV {
    /// Well-formed snapshot: well-formed accounts and no two accounts with
    /// the same name.
    pub open spec fn wf(self) -> bool {
        &&& forall|i: int| 0 <= i < self.accounts.len() ==> (#[trigger] self.accounts[i]).wf()
        &&& forall|i: int, j: int|
            0 <= i < j < self.accounts.len() ==> self.accounts[i].account
                != self.accounts[j].account
    }
}

/// All entries of an account, in scan order: the exchanges in order, each
/// exchange's entries in order.
pub open spec fn exchanges_entries(xs: Seq<ExchangeV>) -> Seq<EntryV>
    decreases xs.len(),
{
    if xs.len() == 0 {
        Seq::empty()
    } else {
        exchanges_entries(xs.drop_last()) + xs.last().entries
    }
}

/// Sum of the amounts of the entries carrying `coin`.
pub open spec fn entries_sum_coin(es: Seq<EntryV>, coin: Seq<char>) -> int
    decreases es.len(),
{
    if es.len() == 0 {
        0
    } else {
        entries_sum_coin(es.drop_last(), coin) + if es.last().coin == coin {
            es.last().amount
        } else {
            0
        }
    }
}

/// Sum of all amounts.
pub open spec fn entries_total(es: Seq<EntryV>) -> int
    decreases es.len(),
{
    if es.len() == 0 {
        0
    } else {
        entries_total(es.drop_last()) + es.last().amount
    }
}

/// The distinct coins of `es`, in order of first appearance.
pub open spec fn distinct_coins(es: Seq<EntryV>) -> Seq<Seq<char>>
    decreases es.len(),
{
    if es.len() == 0 {
        Seq::empty()
    } else {
        let rest = distinct_coins(es.drop_last());
        if rest.contains(es.last().coin) {
            rest
        } else {
            rest.push(es.last().coin)
        }
    }
}

/// Total amount of `coin` held by the account across all its exchanges.
pub open spec fn account_coin_sum(a: AccountV, coin: Seq<char>) -> int {
    entries_sum_coin(exchanges_entries(a.exchanges), coin)
}

/// What merging one account yields: one entry per distinct coin, in order of
/// first appearance, holding the summed amount.
pub open spec fn merge_entries(es: Seq<EntryV>) -> Seq<EntryV> {
    distinct_coins(es).map_values(|c: Seq<char>| EntryV { coin: c, amount: entries_sum_coin(es, c) })
}

/// What merging yields for one account.
pub open spec fn merge_account(a: AccountV) -> MergedV {
    MergedV { account: a.account, entries: merge_entries(exchanges_entries(a.exchanges)) }
}

/// The accounts that hold at least one entry: merging an account whose
/// exchanges hold nothing yields nothing, so such an account never appears
/// in the result.
pub open spec fn kept_accounts(accs: Seq<AccountV>) -> Seq<AccountV>
    decreases accs.len(),
{
    if accs.len() == 0 {
        Seq::empty()
    } else {
        let rest = kept_accounts(accs.drop_last());
        if exchanges_entries(accs.last().exchanges).len() > 0 {
            rest.push(accs.last())
        } else {
            rest
        }
    }
}

/// What `merge_across_exchanges` yields: each account with entries merged,
/// in order; entry-less accounts are dropped.
pub open spec fn merge_spec(b: BalanceV) -> Seq<MergedV> {
    kept_accounts(b.accounts).map_values(|a: AccountV| merge_account(a))
}

/// Growing the account list by one: kept when it holds entries.
pub proof fn lemma_kept_snoc(accs: Seq<AccountV>, a: AccountV)
    ensures
        kept_accounts(accs.push(a)) == if exchanges_entries(a.exchanges).len() > 0 {
            kept_accounts(accs).push(a)
        } else {
            kept_accounts(accs)
        },
{
    assert(accs.push(a).drop_last() =~= accs);
    assert(accs.push(a).last() == a);
}

/// The distinct-coin list is empty exactly for an empty entry list.
pub proof fn lemma_distinct_coins_len(es: Seq<EntryV>)
    ensures
        (distinct_coins(es).len() == 0) == (es.len() == 0),
    decreases es.len(),
{
    if es.len() > 0 {
        let rest = distinct_coins(es.drop_last());
        if rest.contains(es.last().coin) {
            assert(rest.len() > 0);
        }
    }
}

/// Everything `merge_across_exchanges` (and with it the chart builders)
/// asks of a snapshot: well-formedness, entries that fit in memory, and
/// per-coin sums within the stored width.  [`BotBalance::check_mergeable`]
/// tests it at run time.
pub open spec fn mergeable(b: BalanceV) -> bool {
    &&& b.wf()
    &&& forall|i: int|
        0 <= i < b.accounts.len() ==> exchanges_entries(
            (#[trigger] b.accounts[i]).exchanges,
        ).len() <= usize::MAX
    &&& forall|i: int, c: Seq<char>|
        0 <= i < b.accounts.len() ==> i64::MIN <= #[trigger] account_coin_sum(
            b.accounts[i],
            c,
        ) <= i64::MAX
}

/// Running coin totals while scanning an account's entries.
struct CoinSum {
    coin: String,
    total: i128,
}

impl BotBalance {
    /// A snapshot with no accounts, captured at `timestamp`.
    pub fn new(timestamp: u64) -> (r: BotBalance)
        ensures
            r@ == (BalanceV { accounts: Seq::empty(), timestamp }),
            r@.wf(),
    {
        let r = BotBalance { accounts: Vec::new(), timestamp };
        proof {
            assert(r@.accounts =~= Seq::<AccountV>::empty());
        }
        r
    }

    /// Merges the snapshot across exchanges: for each account that holds at
    /// least one entry, in order, one entry per distinct asset (in order of
    /// first appearance), holding the amount summed over all exchanges.
    /// An account whose exchanges hold no entry contributes nothing and is
    /// absent from the result.
    #[verifier::loop_isolation(false)]
    pub fn merge_across_exchanges(&self) -> (r: Vec<MergedAccount>)
        requires
            self@.wf(),
            forall|i: int|
                0 <= i < self@.accounts.len() ==> exchanges_entries(
                    (#[trigger] self@.accounts[i]).exchanges,
                ).len() <= usize::MAX,
            forall|i: int, c: Seq<char>|
                0 <= i < self@.accounts.len() ==> i64::MIN <= #[trigger] account_coin_sum(
                    self@.accounts[i],
                    c,
                ) <= i64::MAX,
        ensures
            r@.map_values(|m: MergedAccount| m@) == merge_spec(self@),
    {
        let mut merged: Vec<MergedAccount> = Vec::new();
        let n = self.accounts.len();
        let mut i: usize = 0;
        while i < n
            invariant
                self@.wf(),
                forall|k: int|
                    0 <= k < self@.accounts.len() ==> exchanges_entries(
                        (#[trigger] self@.accounts[k]).exchanges,
                    ).len() <= usize::MAX,
                forall|k: int, c: Seq<char>|
                    0 <= k < self@.accounts.len() ==> i64::MIN <= #[trigger] account_coin_sum(
                        self@.accounts[k],
                        c,
                    ) <= i64::MAX,
                n == self.accounts@.len(),
                i <= n,
                merged@.map_values(|m: MergedAccount| m@) =~= kept_accounts(
                    self@.accounts.take(i as int),
                ).map_values(|a: AccountV| merge_account(a)),
            decreases n - i,
        {
            proof {
                assert(self@.accounts[i as int] == self.accounts@[i as int]@);
                assert(self@.accounts.take(i as int).push(self@.accounts[i as int])
                    =~= self@.accounts.take(i as int + 1));
                lemma_kept_snoc(self@.accounts.take(i as int), self@.accounts[i as int]);
                lemma_distinct_coins_len(exchanges_entries(self@.accounts[i as int].exchanges));
            }
            let account = merge_one_account(&self.accounts[i]);
            let ghost es = exchanges_entries(self@.accounts[i as int].exchanges);
            proof {
                assert(account@ == merge_account(self@.accounts[i as int]));
                assert(account@.entries.len() == account.entries@.len());
                assert(merge_entries(es).len() == distinct_coins(es).len());
                assert((account.entries@.len() > 0) == (es.len() > 0));
            }
            if account.entries.len() > 0 {
                merged.push(account);
                proof {
                    assert(merged@.map_values(|m: MergedAccount| m@) =~= kept_accounts(
                        self@.accounts.take(i as int),
                    ).map_values(|a: AccountV| merge_account(a)).push(
                        merge_account(self@.accounts[i as int]),
                    ));
                    assert(merged@.map_values(|m: MergedAccount| m@) =~= kept_accounts(
                        self@.accounts.take(i as int + 1),
                    ).map_values(|a: AccountV| merge_account(a)));
                }
            } else {
                proof {
                    assert(merged@.map_values(|m: MergedAccount| m@) =~= kept_accounts(
                        self@.accounts.take(i as int + 1),
                    ).map_values(|a: AccountV| merge_account(a)));
                }
            }
            i += 1;
        }
        proof {
            assert(self@.accounts.take(n as int) =~= self@.accounts);
        }
        merged
    }
}

/// Collects the running per-coin totals of one account's entries.
#[verifier::loop_isolation(false)]
fn collect_coin_sums(a: &AccountBalance) -> (sums: Vec<CoinSum>)
    requires
        exchanges_entries(a@.exchanges).len() <= usize::MAX,
    ensures
        sums_describe(sums@, exchanges_entries(a@.exchanges)),
{
    let mut sums: Vec<CoinSum> = Vec::new();
    let nx = a.exchanges.len();
    let mut xi: usize = 0;
    proof {
        assert(exchanges_entries(a@.exchanges.take(0)) =~= Seq::<EntryV>::empty());
        assert(sums@.map_values(|s: CoinSum| s.coin@) =~= distinct_coins(
            exchanges_entries(a@.exchanges.take(0)),
        ));
    }
    while xi < nx
        invariant
            exchanges_entries(a@.exchanges).len() <= usize::MAX,
            nx == a.exchanges@.len(),
            xi <= nx,
            sums_describe(sums@, exchanges_entries(a@.exchanges.take(xi as int))),
        decreases nx - xi,
    {
        let ne = a.exchanges[xi].entries.len();
        let mut ei: usize = 0;
        proof {
            assert(a@.exchanges[xi as int] == a.exchanges@[xi as int]@);
            assert(a@.exchanges[xi as int].entries.take(0) =~= Seq::<EntryV>::empty());
            assert(exchanges_entries(a@.exchanges.take(xi as int)) + a@.exchanges[xi as int].entries.take(0)
                =~= exchanges_entries(a@.exchanges.take(xi as int)));
        }
        while ei < ne
            invariant
                exchanges_entries(a@.exchanges).len() <= usize::MAX,
                nx == a.exchanges@.len(),
                xi < nx,
                ne == a.exchanges@[xi as int].entries@.len(),
                ei <= ne,
                sums_describe(
                    sums@,
                    exchanges_entries(a@.exchanges.take(xi as int)) + a@.exchanges[xi as int].entries.take(
                        ei as int,
                    ),
                ),
            decreases ne - ei,
        {
            let ghost processed = exchanges_entries(a@.exchanges.take(xi as int))
                + a@.exchanges[xi as int].entries.take(ei as int);
            let ghost entry_v = a@.exchanges[xi as int].entries[ei as int];
            proof {
                assert(a@.exchanges[xi as int] == a.exchanges@[xi as int]@);
                assert(a.exchanges@[xi as int].entries@[ei as int]@ == entry_v);
                lemma_processed_prefix_len(a@, xi as int, ei as int);
            }
            let e = &a.exchanges[xi].entries[ei];
            add_entry(&mut sums, e, Ghost(processed), Ghost(entry_v));
            proof {
                assert(processed.push(entry_v) =~= exchanges_entries(a@.exchanges.take(xi as int))
                    + a@.exchanges[xi as int].entries.take(ei as int + 1));
            }
            ei += 1;
        }
        proof {
            assert(a@.exchanges.take(xi as int + 1).drop_last() =~= a@.exchanges.take(xi as int));
            assert(a@.exchanges.take(xi as int + 1).last() == a@.exchanges[xi as int]);
            assert(a@.exchanges[xi as int].entries.take(ne as int) =~= a@.exchanges[
                xi as int
            ].entries);
            assert(exchanges_entries(a@.exchanges.take(xi as int + 1)) == exchanges_entries(
                a@.exchanges.take(xi as int),
            ) + a@.exchanges[xi as int].entries);
        }
        xi += 1;
    }
    proof {
        assert(a@.exchanges.take(nx as int) =~= a@.exchanges);
    }
    sums
}

/// Merges a single account's entries across its exchanges.
#[verifier::loop_isolation(false)]
fn merge_one_account(a: &AccountBalance) -> (r: MergedAccount)
    requires
        exchanges_entries(a@.exchanges).len() <= usize::MAX,
        forall|c: Seq<char>| i64::MIN <= #[trigger] account_coin_sum(a@, c) <= i64::MAX,
    ensures
        r@ == merge_account(a@),
{
    let sums: Vec<CoinSum> = collect_coin_sums(a);
    let ghost all_entries = exchanges_entries(a@.exchanges);
    proof {
        assert forall|c: Seq<char>| i64::MIN <= #[trigger] entries_sum_coin(all_entries, c)
            <= i64::MAX by {
            assert(account_coin_sum(a@, c) == entries_sum_coin(all_entries, c));
        }
    }
    // Turn the running totals into entries; every total is the full sum for
    // its coin, which fits an i64 by the precondition.
    let mut out: Vec<BotBalanceEntry> = Vec::new();
    let ns = sums.len();
    let mut si: usize = 0;
    while si < ns
        invariant
            ns == sums@.len(),
            si <= ns,
            sums_describe(sums@, all_entries),
            forall|c: Seq<char>| i64::MIN <= #[trigger] entries_sum_coin(all_entries, c) <= i64::MAX,
            out@.map_values(|e: BotBalanceEntry| e@) =~= merge_entries(all_entries).take(si as int),
        decreases ns - si,
    {
        let coin = sums[si].coin.clone();
        let total = sums[si].total;
        proof {
            assert(sums@[si as int].total == entries_sum_coin(all_entries, sums@[si as int].coin@));
            assert(merge_entries(all_entries)[si as int] == EntryV {
                coin: distinct_coins(all_entries)[si as int],
                amount: entries_sum_coin(all_entries, distinct_coins(all_entries)[si as int]),
            });
            assert(sums@.map_values(|s: CoinSum| s.coin@)[si as int] == distinct_coins(
                all_entries,
            )[si as int]);
            assert(i64::MIN <= entries_sum_coin(all_entries, sums@[si as int].coin@)
                <= i64::MAX);
        }
        out.push(BotBalanceEntry { coin, amount: total as i64 });
        proof {
            assert(out@.map_values(|e: BotBalanceEntry| e@) =~= merge_entries(all_entries).take(
                si as int + 1,
            ));
        }
        si += 1;
    }
    proof {
        assert(merge_entries(all_entries).take(ns as int) =~= merge_entries(all_entries));
    }
    let account = a.account.clone();
    MergedAccount { account, entries: out }
}

/// The running totals describe the processed entries: one total per distinct
/// coin, in first-appearance order, holding that coin's sum so far, bounded
/// by the number of entries processed.
spec fn sums_describe(sums: Seq<CoinSum>, processed: Seq<EntryV>) -> bool {
    &&& sums.map_values(|s: CoinSum| s.coin@) == distinct_coins(processed)
    &&& forall|j: int|
        0 <= j < sums.len() ==> (#[trigger] sums[j]).total == entries_sum_coin(
            processed,
            sums[j].coin@,
        )
    &&& forall|j: int|
        0 <= j < sums.len() ==> -(processed.len() as int) * (i64::MAX as int + 1) <= (
        #[trigger] sums[j]).total <= (processed.len() as int) * (i64::MAX as int + 1)
}

/// Adds one entry to the running totals.
#[verifier::loop_isolation(false)]
fn add_entry(
    sums: &mut Vec<CoinSum>,
    e: &BotBalanceEntry,
    Ghost(processed): Ghost<Seq<EntryV>>,
    Ghost(entry_v): Ghost<EntryV>,
)
    requires
        sums_describe(old(sums)@, processed),
        entry_v == e@,
        processed.len() + 1 <= usize::MAX,
    ensures
        sums_describe(final(sums)@, processed.push(entry_v)),
{
    let ghost whole = processed.push(entry_v);
    proof {
        assert(whole.drop_last() =~= processed);
        lemma_sum_coin_snoc(processed, entry_v);
        lemma_distinct_coins_distinct(processed);
    }
    let n = sums.len();
    let mut j: usize = 0;
    while j < n
        invariant
            sums@ == old(sums)@,
            sums_describe(sums@, processed),
            entry_v == e@,
            n == sums@.len(),
            j <= n,
            forall|k: int| 0 <= k < j ==> sums@[k].coin@ != entry_v.coin,
        decreases n - j,
    {
        if str_eq(sums[j].coin.as_str(), e.coin.as_str()) {
            proof {
                assert(sums@[j as int].coin@ == entry_v.coin);
                assert(distinct_coins(processed).contains(entry_v.coin)) by {
                    assert(distinct_coins(processed)[j as int] == entry_v.coin);
                }
                assert(distinct_coins(whole) == distinct_coins(processed));
                lemma_i64_bound_step(
                    sums@[j as int].total as int,
                    entry_v.amount,
                    processed.len() as int,
                );
            }
            let coin = sums[j].coin.clone();
            let total = sums[j].total + e.amount as i128;
            sums.set(j, CoinSum { coin, total });
            proof {
                assert(sums@.map_values(|s: CoinSum| s.coin@) =~= distinct_coins(whole));
                assert forall|k: int| 0 <= k < sums@.len() implies (#[trigger] sums@[k]).total
                    == entries_sum_coin(whole, sums@[k].coin@) by {
                    lemma_sum_coin_snoc(processed, entry_v);
                    if k != j {
                        assert(sums@[k].coin@ != entry_v.coin) by {
                            lemma_distinct_coins_distinct(processed);
                            assert(distinct_coins(processed)[k] == sums@[k].coin@);
                            assert(distinct_coins(processed)[j as int] == entry_v.coin);
                        }
                    }
                }
                assert forall|k: int| 0 <= k < sums@.len() implies -(whole.len() as int) * (
                i64::MAX as int + 1) <= (#[trigger] sums@[k]).total <= (whole.len() as int) * (
                i64::MAX as int + 1) by {
                    if k != j as int {
                        assert(sums@[k] == old(sums)@[k]);
                        lemma_bound_widen(sums@[k].total as int, processed.len() as int);
                    }
                }
            }
            return;
        }
        j += 1;
    }
    proof {
        lemma_distinct_coins_complete(processed);
        assert(!distinct_coins(processed).contains(entry_v.coin)) by {
            if distinct_coins(processed).contains(entry_v.coin) {
                let k = choose|k: int|
                    0 <= k < distinct_coins(processed).len() && distinct_coins(processed)[k]
                        == entry_v.coin;
                assert(sums@[k].coin@ == entry_v.coin);
            }
        }
    }
    let coin = e.coin.clone();
    let total = e.amount as i128;
    sums.push(CoinSum { coin, total });
    proof {
        let whole2 = processed.push(entry_v);
        assert(distinct_coins(whole2) == distinct_coins(processed).push(entry_v.coin));
        assert(sums@.map_values(|s: CoinSum| s.coin@) =~= distinct_coins(whole2));
        assert forall|k: int| 0 <= k < sums@.len() implies (#[trigger] sums@[k]).total
            == entries_sum_coin(whole2, sums@[k].coin@) by {
            lemma_sum_coin_snoc(processed, entry_v);
            if k < sums@.len() - 1 {
                assert(sums@[k] == old(sums)@[k]);
                assert(sums@[k].coin@ != entry_v.coin);
            } else {
                assert(sums@[k].coin@ == entry_v.coin);
                lemma_sum_coin_absent(processed, entry_v.coin);
            }
        }
        assert forall|k: int| 0 <= k < sums@.len() implies -(whole2.len() as int) * (
        i64::MAX as int + 1) <= (#[trigger] sums@[k]).total <= (whole2.len() as int) * (
        i64::MAX as int + 1) by {
            if k < sums@.len() - 1 {
                lemma_bound_widen(sums@[k].total as int, processed.len() as int);
            } else {
                lemma_bound_one(entry_v.amount, whole2.len() as int);
            }
        }
    }
}

/// Adding one entry changes only its own coin's sum, by its amount.
proof fn lemma_sum_coin_snoc(es: Seq<EntryV>, e: EntryV)
    ensures
        forall|c: Seq<char>| #[trigger] entries_sum_coin(es.push(e), c) == entries_sum_coin(es, c)
            + if e.coin == c {
            e.amount
        } else {
            0
        },
{
    assert forall|c: Seq<char>| #[trigger] entries_sum_coin(es.push(e), c) == entries_sum_coin(
        es,
        c,
    ) + if e.coin == c {
        e.amount
    } else {
        0
    } by {
        assert(es.push(e).drop_last() =~= es);
        assert(es.push(e).last() == e);
    }
}

/// A coin that never appears sums to zero.
proof fn lemma_sum_coin_absent(es: Seq<EntryV>, c: Seq<char>)
    requires
        forall|i: int| 0 <= i < es.len() ==> (#[trigger] es[i]).coin != c,
    ensures
        entries_sum_coin(es, c) == 0,
    decreases es.len(),
{
    if es.len() > 0 {
        lemma_sum_coin_absent(es.drop_last(), c);
    }
}

/// The distinct-coin list has no repeats.
proof fn lemma_distinct_coins_distinct(es: Seq<EntryV>)
    ensures
        forall|p: int, q: int|
            0 <= p < q < distinct_coins(es).len() ==> distinct_coins(es)[p] != distinct_coins(
                es,
            )[q],
    decreases es.len(),
{
    if es.len() > 0 {
        lemma_distinct_coins_distinct(es.drop_last());
        let rest = distinct_coins(es.drop_last());
        if !rest.contains(es.last().coin) {
            assert forall|p: int, q: int| 0 <= p < q < distinct_coins(es).len() implies
                distinct_coins(es)[p] != distinct_coins(es)[q] by {
                if q == distinct_coins(es).len() - 1 {
                    assert(distinct_coins(es)[p] == rest[p]);
                    assert(!rest.contains(es.last().coin));
                    assert(rest[p] != es.last().coin);
                }
            }
        }
    }
}

/// Every coin that appears in the entries appears in the distinct-coin list,
/// and conversely.
proof fn lemma_distinct_coins_complete(es: Seq<EntryV>)
    ensures
        forall|i: int|
            0 <= i < es.len() ==> distinct_coins(es).contains((#[trigger] es[i]).coin),
        forall|k: int|
            0 <= k < distinct_coins(es).len() ==> exists|i: int|
                0 <= i < es.len() && (#[trigger] es[i]).coin == #[trigger] distinct_coins(es)[k],
    decreases es.len(),
{
    if es.len() > 0 {
        lemma_distinct_coins_complete(es.drop_last());
        let rest = distinct_coins(es.drop_last());
        assert forall|i: int| 0 <= i < es.len() implies distinct_coins(es).contains(
            (#[trigger] es[i]).coin,
        ) by {
            if i < es.len() - 1 {
                assert(es.drop_last()[i] == es[i]);
                assert(rest.contains(es[i].coin));
                let k = choose|k: int| 0 <= k < rest.len() && rest[k] == es[i].coin;
                if rest.contains(es.last().coin) {
                    assert(distinct_coins(es)[k] == es[i].coin);
                } else {
                    assert(distinct_coins(es)[k] == es[i].coin);
                }
            } else {
                if rest.contains(es.last().coin) {
                    let k = choose|k: int| 0 <= k < rest.len() && rest[k] == es.last().coin;
                    assert(distinct_coins(es)[k] == es[i].coin);
                } else {
                    assert(distinct_coins(es)[rest.len() as int] == es[i].coin);
                }
            }
        }
        assert forall|k: int| 0 <= k < distinct_coins(es).len() implies exists|i: int|
            0 <= i < es.len() && (#[trigger] es[i]).coin == #[trigger] distinct_coins(es)[k] by {
            if k < rest.len() {
                assert(distinct_coins(es)[k] == rest[k]);
                let i = choose|i: int|
                    0 <= i < es.drop_last().len() && (#[trigger] es.drop_last()[i]).coin == rest[k];
                assert(es[i].coin == distinct_coins(es)[k]);
            } else {
                assert(es[es.len() - 1].coin == distinct_coins(es)[k]);
            }
        }
    }
}

/// The number of entries already processed stays within the account's total.
proof fn lemma_processed_prefix_len(a: AccountV, xi: int, ei: int)
    requires
        0 <= xi < a.exchanges.len(),
        0 <= ei < a.exchanges[xi].entries.len(),
    ensures
        (exchanges_entries(a.exchanges.take(xi)) + a.exchanges[xi].entries.take(ei)).len() + 1
            <= exchanges_entries(a.exchanges).len(),
{
    lemma_exchanges_entries_prefix(a.exchanges, xi);
}

/// Entries of a prefix of exchanges, plus a prefix of the next exchange's
/// entries, fit within the whole.
proof fn lemma_exchanges_entries_prefix(xs: Seq<ExchangeV>, xi: int)
    requires
        0 <= xi < xs.len(),
    ensures
        exchanges_entries(xs.take(xi)).len() + xs[xi].entries.len() <= exchanges_entries(xs).len(),
    decreases xs.len(),
{
    if xs.len() > 0 {
        if xi == xs.len() - 1 {
            assert(xs.take(xi) =~= xs.drop_last());
        } else {
            lemma_exchanges_entries_prefix(xs.drop_last(), xi);
            assert(xs.drop_last().take(xi) =~= xs.take(xi));
            assert(xs.drop_last()[xi] == xs[xi]);
        }
    }
}

/// Arithmetic: a total bounded by `n` entries, plus one amount, is bounded by
/// `n + 1` entries.
pub(crate) proof fn lemma_i64_bound_step(total: int, amount: int, n: int)
    requires
        n >= 0,
        n + 1 <= usize::MAX,
        -n * (i64::MAX as int + 1) <= total <= n * (i64::MAX as int + 1),
        i64::MIN <= amount <= i64::MAX,
    ensures
        -(n + 1) * (i64::MAX as int + 1) <= total + amount <= (n + 1) * (i64::MAX as int + 1),
        i128::MIN <= total + amount <= i128::MAX,
{
    assert(-(n + 1) * (i64::MAX as int + 1) <= total + amount <= (n + 1) * (i64::MAX as int + 1))
        by (nonlinear_arith)
        requires
            n >= 0,
            -n * (i64::MAX as int + 1) <= total <= n * (i64::MAX as int + 1),
            i64::MIN <= amount <= i64::MAX,
    ;
    lemma_entry_bound_in_i128(total + amount, n + 1);
}

/// Arithmetic: the per-entry bound keeps every running total within i128.
pub(crate) proof fn lemma_entry_bound_in_i128(total: int, n: int)
    requires
        0 <= n <= usize::MAX,
        -n * (i64::MAX as int + 1) <= total <= n * (i64::MAX as int + 1),
    ensures
        i128::MIN <= total <= i128::MAX,
{
    assert(n * (i64::MAX as int + 1) <= (usize::MAX as int) * (i64::MAX as int + 1))
        by (nonlinear_arith)
        requires
            0 <= n <= usize::MAX,
    ;
}

/// Arithmetic: a bound over `n` entries also holds over `n + 1`.
pub(crate) proof fn lemma_bound_widen(total: int, n: int)
    requires
        n >= 0,
        -n * (i64::MAX as int + 1) <= total <= n * (i64::MAX as int + 1),
    ensures
        -(n + 1) * (i64::MAX as int + 1) <= total <= (n + 1) * (i64::MAX as int + 1),
{
    assert((n + 1) * (i64::MAX as int + 1) == n * (i64::MAX as int + 1) + (i64::MAX as int + 1))
        by (nonlinear_arith);
    assert(-(n + 1) * (i64::MAX as int + 1) == -n * (i64::MAX as int + 1) - (i64::MAX as int + 1))
        by (nonlinear_arith);
}

/// Arithmetic: one amount is within the bound for any positive entry count.
pub(crate) proof fn lemma_bound_one(amount: int, n: int)
    requires
        n >= 1,
        i64::MIN <= amount <= i64::MAX,
    ensures
        -n * (i64::MAX as int + 1) <= amount <= n * (i64::MAX as int + 1),
{
    assert(n * (i64::MAX as int + 1) >= 1 * (i64::MAX as int + 1)) by (nonlinear_arith)
        requires
            n >= 1,
    ;
    assert(-n * (i64::MAX as int + 1) <= -1 * (i64::MAX as int + 1)) by (nonlinear_arith)
        requires
            n >= 1,
    ;
}

/// Sum over a list of coins of each coin's entry sum.
pub open spec fn sum_over_coins(cs: Seq<Seq<char>>, es: Seq<EntryV>) -> int
    decreases cs.len(),
{
    if cs.len() == 0 {
        0
    } else {
        sum_over_coins(cs.drop_last(), es) + entries_sum_coin(es, cs.last())
    }
}

/// In a repeat-free coin list, one entry contributes to exactly one summand.
proof fn lemma_sum_over_coins_snoc_entry(cs: Seq<Seq<char>>, es: Seq<EntryV>, e: EntryV)
    requires
        forall|p: int, q: int| 0 <= p < q < cs.len() ==> cs[p] != cs[q],
        cs.contains(e.coin),
    ensures
        sum_over_coins(cs, es.push(e)) == sum_over_coins(cs, es) + e.amount,
    decreases cs.len(),
{
    lemma_sum_coin_snoc(es, e);
    if cs.len() > 0 {
        if cs.last() == e.coin {
            assert forall|i: int| 0 <= i < cs.drop_last().len() implies cs.drop_last()[i]
                != e.coin by {
                assert(cs[i] != cs[cs.len() - 1]);
            }
            lemma_sum_over_coins_same(cs.drop_last(), es, es.push(e));
        } else {
            assert(cs.contains(e.coin));
            let k = choose|k: int| 0 <= k < cs.len() && cs[k] == e.coin;
            assert(cs.drop_last()[k] == e.coin);
            assert(cs.drop_last().contains(e.coin));
            lemma_sum_over_coins_snoc_entry(cs.drop_last(), es, e);
        }
    }
}

/// Coin sums that agree on every listed coin give the same total.
proof fn lemma_sum_over_coins_same(cs: Seq<Seq<char>>, es1: Seq<EntryV>, es2: Seq<EntryV>)
    requires
        forall|i: int|
            0 <= i < cs.len() ==> entries_sum_coin(es1, #[trigger] cs[i]) == entries_sum_coin(
                es2,
                cs[i],
            ),
    ensures
        sum_over_coins(cs, es1) == sum_over_coins(cs, es2),
    decreases cs.len(),
{
    if cs.len() > 0 {
        assert(cs[cs.len() - 1] == cs.last());
        assert forall|i: int| 0 <= i < cs.drop_last().len() implies entries_sum_coin(
            es1,
            #[trigger] cs.drop_last()[i],
        ) == entries_sum_coin(es2, cs.drop_last()[i]) by {
            assert(cs.drop_last()[i] == cs[i]);
        }
        lemma_sum_over_coins_same(cs.drop_last(), es1, es2);
    }
}

/// Grouping conserves the total: summing each distinct coin's total gives the
/// grand total of all entries.
proof fn lemma_group_total(cs: Seq<Seq<char>>, es: Seq<EntryV>)
    requires
        forall|p: int, q: int| 0 <= p < q < cs.len() ==> cs[p] != cs[q],
        forall|i: int| 0 <= i < es.len() ==> cs.contains((#[trigger] es[i]).coin),
    ensures
        sum_over_coins(cs, es) == entries_total(es),
    decreases es.len(),
{
    if es.len() == 0 {
        lemma_sum_over_coins_empty(cs);
        assert(es =~= Seq::<EntryV>::empty());
    } else {
        let es0 = es.drop_last();
        assert forall|i: int| 0 <= i < es0.len() implies cs.contains((#[trigger] es0[i]).coin) by {
            assert(es0[i] == es[i]);
        }
        lemma_group_total(cs, es0);
        assert(cs.contains(es.last().coin)) by {
            assert(es[es.len() - 1] == es.last());
        }
        lemma_sum_over_coins_snoc_entry(cs, es0, es.last());
        assert(es0.push(es.last()) =~= es);
    }
}

/// Sums over an empty entry list vanish.
proof fn lemma_sum_over_coins_empty(cs: Seq<Seq<char>>)
    ensures
        sum_over_coins(cs, Seq::<EntryV>::empty()) == 0,
    decreases cs.len(),
{
    if cs.len() > 0 {
        lemma_sum_over_coins_empty(cs.drop_last());
    }
}

/// The total of the merged entries, term by term, is the sum over distinct
/// coins.
proof fn lemma_merge_entries_total(es: Seq<EntryV>)
    ensures
        entries_total(merge_entries(es)) == sum_over_coins(distinct_coins(es), es),
{
    lemma_map_total(distinct_coins(es), es);
}

proof fn lemma_map_total(cs: Seq<Seq<char>>, es: Seq<EntryV>)
    ensures
        entries_total(
            cs.map_values(|c: Seq<char>| EntryV { coin: c, amount: entries_sum_coin(es, c) }),
        ) == sum_over_coins(cs, es),
    decreases cs.len(),
{
    let f = |c: Seq<char>| EntryV { coin: c, amount: entries_sum_coin(es, c) };
    if cs.len() > 0 {
        lemma_map_total(cs.drop_last(), es);
        assert(cs.map_values(f).drop_last() =~= cs.drop_last().map_values(f));
        assert(cs.map_values(f).last() == f(cs.last()));
    } else {
        assert(cs.map_values(f).len() == 0);
    }
}

/// Merge conservation: for any account, the total of the merged amounts
/// equals the total of all its raw entries across exchanges.
pub proof fn lemma_merge_conservation(a: AccountV)
    ensures
        entries_total(merge_account(a).entries) == entries_total(exchanges_entries(a.exchanges)),
{
    let es = exchanges_entries(a.exchanges);
    lemma_merge_entries_total(es);
    lemma_distinct_coins_distinct(es);
    lemma_distinct_coins_complete(es);
    lemma_group_total(distinct_coins(es), es);
}

} // verus!

verus! {

/// A run-time test of [`wf_name`].
#[verifier::loop_isolation(false)]
fn check_name_clean(s: &str) -> (r: bool)
    ensures
        r == wf_name(s@),
{
    let n = s.unicode_len();
    let mut i: usize = 0;
    while i < n
        invariant
            n == s@.len(),
            i <= n,
            forall|k: int| 0 <= k < i ==> !is_ctl_char(#[trigger] s@[k]),
        decreases n - i,
    {
        if (s.get_char(i) as u32) < 0x20 {
            return false;
        }
        i += 1;
    }
    true
}

/// A run-time test of one exchange's well-formedness.
#[verifier::loop_isolation(false)]
fn check_exchange_wf(x: &ExchangeBalance) -> (r: bool)
    ensures
        r == x@.wf(),
{
    if !check_name_clean(x.exchange.as_str()) {
        return false;
    }
    let n = x.entries.len();
    let mut i: usize = 0;
    while i < n
        invariant
            wf_name(x@.exchange),
            n == x.entries@.len(),
            i <= n,
            forall|k: int| 0 <= k < i ==> (#[trigger] x@.entries[k]).wf(),
        decreases n - i,
    {
        proof {
            assert(x@.entries[i as int] == x.entries@[i as int]@);
        }
        if !check_name_clean(x.entries[i].coin.as_str()) {
            proof {
                assert(!x@.entries[i as int].wf());
            }
            return false;
        }
        i += 1;
    }
    true
}

/// A run-time test of one account's well-formedness.
#[verifier::loop_isolation(false)]
fn check_account_wf(a: &AccountBalance) -> (r: bool)
    ensures
        r == a@.wf(),
{
    if !check_name_clean(a.account.as_str()) {
        return false;
    }
    let n = a.exchanges.len();
    let mut i: usize = 0;
    while i < n
        invariant
            wf_name(a@.account),
            n == a.exchanges@.len(),
            i <= n,
            forall|k: int| 0 <= k < i ==> (#[trigger] a@.exchanges[k]).wf(),
        decreases n - i,
    {
        proof {
            assert(a@.exchanges[i as int] == a.exchanges@[i as int]@);
        }
        if !check_exchange_wf(&a.exchanges[i]) {
            return false;
        }
        i += 1;
    }
    let mut q: usize = 1;
    while q < n
        invariant
            wf_name(a@.account),
            forall|k: int| 0 <= k < n ==> (#[trigger] a@.exchanges[k]).wf(),
            n == a.exchanges@.len(),
            1 <= q <= n || n == 0,
            forall|p2: int, q2: int|
                0 <= p2 < q2 < q ==> a@.exchanges[p2].exchange != a@.exchanges[q2].exchange,
        decreases n - q,
    {
        let mut p: usize = 0;
        while p < q
            invariant
                n == a.exchanges@.len(),
                q < n,
                p <= q,
                forall|p2: int| 0 <= p2 < p ==> a@.exchanges[p2].exchange != a@.exchanges[
                    q as int
                ].exchange,
            decreases q - p,
        {
            proof {
                assert(a@.exchanges[p as int].exchange == a.exchanges@[p as int].exchange@);
                assert(a@.exchanges[q as int].exchange == a.exchanges@[q as int].exchange@);
            }
            if crate::text::str_eq(a.exchanges[p].exchange.as_str(), a.exchanges[q].exchange.as_str()) {
                return false;
            }
            p += 1;
        }
        q += 1;
    }
    true
}

/// A run-time test of one account's merge limits: its entries fit in
/// memory and its per-coin sums fit the stored width.
#[verifier::loop_isolation(false)]
fn check_account_limits(a: &AccountBalance) -> (r: bool)
    ensures
        r == (exchanges_entries(a@.exchanges).len() <= usize::MAX && forall|c: Seq<char>|
            i64::MIN <= #[trigger] account_coin_sum(a@, c) <= i64::MAX),
{
    let nx = a.exchanges.len();
    let mut total: usize = 0;
    let mut xi: usize = 0;
    proof {
        assert(exchanges_entries(a@.exchanges.take(0)) =~= Seq::<EntryV>::empty());
    }
    while xi < nx
        invariant
            nx == a.exchanges@.len(),
            xi <= nx,
            total as int == exchanges_entries(a@.exchanges.take(xi as int)).len(),
        decreases nx - xi,
    {
        let len_i = a.exchanges[xi].entries.len();
        proof {
            assert(a@.exchanges[xi as int] == a.exchanges@[xi as int]@);
            assert(a@.exchanges[xi as int].entries.len() == len_i);
            assert(a@.exchanges.take(xi as int + 1).drop_last() =~= a@.exchanges.take(xi as int));
            assert(a@.exchanges.take(xi as int + 1).last() == a@.exchanges[xi as int]);
        }
        if total > usize::MAX - len_i {
            proof {
                lemma_exchanges_entries_prefix(a@.exchanges, xi as int);
            }
            return false;
        }
        total += len_i;
        xi += 1;
    }
    proof {
        assert(a@.exchanges.take(nx as int) =~= a@.exchanges);
    }
    let sums = collect_coin_sums(a);
    let ghost all_entries = exchanges_entries(a@.exchanges);
    let ns = sums.len();
    let mut si: usize = 0;
    while si < ns
        invariant
            sums_describe(sums@, all_entries),
            ns == sums@.len(),
            si <= ns,
            forall|j: int|
                0 <= j < si ==> i64::MIN <= (#[trigger] sums@[j]).total <= i64::MAX,
        decreases ns - si,
    {
        let t = sums[si].total;
        if t < i64::MIN as i128 || t > i64::MAX as i128 {
            proof {
                assert(sums@[si as int].total == entries_sum_coin(
                    all_entries,
                    sums@[si as int].coin@,
                ));
                assert(account_coin_sum(a@, sums@[si as int].coin@) == entries_sum_coin(
                    all_entries,
                    sums@[si as int].coin@,
                ));
            }
            return false;
        }
        si += 1;
    }
    proof {
        lemma_distinct_coins_complete(all_entries);
        assert forall|c: Seq<char>| i64::MIN <= #[trigger] account_coin_sum(a@, c)
            <= i64::MAX by {
            assert(account_coin_sum(a@, c) == entries_sum_coin(all_entries, c));
            if distinct_coins(all_entries).contains(c) {
                let j = choose|j: int|
                    0 <= j < distinct_coins(all_entries).len() && distinct_coins(all_entries)[j]
                        == c;
                assert(sums@.map_values(|s: CoinSum| s.coin@)[j] == c);
                assert(sums@[j].total == entries_sum_coin(all_entries, c));
            } else {
                assert forall|k: int|
                    0 <= k < all_entries.len() implies (#[trigger] all_entries[k]).coin != c by {
                    if all_entries[k].coin == c {
                        assert(distinct_coins(all_entries).contains(all_entries[k].coin));
                    }
                }
                lemma_sum_coin_absent(all_entries, c);
            }
        }
    }
    true
}

impl BotBalance {
    /// A run-time test of [`mergeable`]: whether this snapshot satisfies
    /// everything `merge_across_exchanges` and the chart builders ask of a
    /// stored record, so the application can validate a decoded snapshot
    /// before handing it on.
    #[verifier::loop_isolation(false)]
    pub fn check_mergeable(&self) -> (r: bool)
        ensures
            r == mergeable(self@),
    {
        let na = self.accounts.len();
        let mut i: usize = 0;
        while i < na
            invariant
                na == self.accounts@.len(),
                i <= na,
                forall|k: int| 0 <= k < i ==> (#[trigger] self@.accounts[k]).wf(),
                forall|k: int|
                    0 <= k < i ==> exchanges_entries(
                        (#[trigger] self@.accounts[k]).exchanges,
                    ).len() <= usize::MAX,
                forall|k: int, c: Seq<char>|
                    0 <= k < i ==> i64::MIN <= #[trigger] account_coin_sum(self@.accounts[k], c)
                        <= i64::MAX,
            decreases na - i,
        {
            proof {
                assert(self@.accounts[i as int] == self.accounts@[i as int]@);
            }
            if !check_account_wf(&self.accounts[i]) {
                return false;
            }
            if !check_account_limits(&self.accounts[i]) {
                return false;
            }
            i += 1;
        }
        let mut q: usize = 1;
        while q < na
            invariant
                na == self.accounts@.len(),
                1 <= q <= na || na == 0,
                forall|k: int| 0 <= k < na ==> (#[trigger] self@.accounts[k]).wf(),
                forall|k: int|
                    0 <= k < na ==> exchanges_entries(
                        (#[trigger] self@.accounts[k]).exchanges,
                    ).len() <= usize::MAX,
                forall|k: int, c: Seq<char>|
                    0 <= k < na ==> i64::MIN <= #[trigger] account_coin_sum(self@.accounts[k], c)
                        <= i64::MAX,
                forall|p2: int, q2: int|
                    0 <= p2 < q2 < q ==> self@.accounts[p2].account != self@.accounts[q2].account,
            decreases na - q,
        {
            let mut p: usize = 0;
            while p < q
                invariant
                    na == self.accounts@.len(),
                    q < na,
                    p <= q,
                    forall|p2: int|
                        0 <= p2 < p ==> self@.accounts[p2].account != self@.accounts[
                            q as int
                        ].account,
                decreases q - p,
            {
                proof {
                    assert(self@.accounts[p as int].account == self.accounts@[p as int].account@);
                    assert(self@.accounts[q as int].account == self.accounts@[q as int].account@);
                }
                if crate::text::str_eq(
                    self.accounts[p].account.as_str(),
                    self.accounts[q].account.as_str(),
                ) {
                    return false;
                }
                p += 1;
            }
            q += 1;
        }
        true
    }
}

} // verus!
