//! Wire shapes of the backend status service, modeled as plain values.
//!
//! The application decodes the service's JSON into these shapes; decimal
//! amounts arrive as fixed-point minimal units.  The conversions to the
//! internal types are pure and live here, with their contracts.

use vstd::prelude::*;
use crate::bot::{Bot as InternalBot, BotController, BotPNL};
use crate::bot_balance::{AccountBalance, BotBalance, BotBalanceEntry, ExchangeBalance, wf_name};

verus! {

/// How controller positions were closed, by kind.
#[derive(Debug, Clone, Copy, PartialEq, Eq, Structural, Default)]
pub struct CloseTypeCounts {
    pub early_stop: u64,
    pub time_limit: u64,
    pub trailing_stop: u64,
}

/// One controller's performance figures, in fixed-point minimal units.
#[derive(Debug, Clone, Copy, PartialEq, Eq, Structural)]
pub struct Performance {
    pub realized_pnl_quote: i64,
    pub unrealized_pnl_quote: i64,
    pub unrealized_pnl_pct: i64,
    pub realized_pnl_pct: i64,
    pub global_pnl_quote: i64,
    pub global_pnl_pct: i64,
    pub volume_traded: i64,
    pub open_order_volume: i64,
    pub inventory_imbalance: i64,
    pub close_type_counts: CloseTypeCounts,
}

/// One controller as the service reports it.
#[derive(Debug, Clone, PartialEq, Eq)]
pub struct Controller {
    pub status: String,
    pub performance: Performance,
}

/// One bot as the service reports it: a status and its controllers by name.
#[derive(Debug)]
pub struct Bot {
    pub status: String,
    pub performance: Vec<(String, Controller)>,
}

/// The active-bots response: bots by name.
#[derive(Debug)]
pub struct ActiveBotsResponse {
    pub status: String,
    pub data: Vec<(String, Bot)>,
}

/// One trade as the service reports it.
#[derive(Debug, Clone, PartialEq, Eq)]
pub struct Trade {
    pub market: String,
    pub trade_id: String,
    pub price: String,
    pub quantity: String,
    pub symbol: String,
    pub trade_timestamp: u64,
    pub trade_type: String,
    pub base_asset: String,
    pub quote_asset: String,
}

/// The payload of a trade-history response.
#[derive(Debug)]
pub struct TradesResponseInner {
    pub status: u16,
    pub msg: String,
    pub trades: Vec<Trade>,
}

/// A trade-history response.
#[derive(Debug)]
pub struct TradesResponse {
    pub status: String,
    pub response: TradesResponseInner,
}

/// One token position as the account-state endpoint reports it, the value
/// in fixed-point minimal units.
#[derive(Debug, Clone, PartialEq, Eq)]
pub struct TokenBalance {
    pub token: String,
    pub value: i64,
}

/// The account-state response: per account, per exchange, token positions.
#[derive(Debug)]
pub struct Account {
    pub entries: Vec<(String, Vec<(String, Vec<TokenBalance>)>)>,
}

// --------------------------------------------------------- bot conversion

/// The sum of the controllers' overall quote profit figures.
pub open spec fn ctl_quote_sum(cs: Seq<(String, Controller)>) -> int
    decreases cs.len(),
{
    if cs.len() == 0 {
        0
    } else {
        ctl_quote_sum(cs.drop_last()) + cs.last().1.performance.global_pnl_quote
    }
}

/// What one wire controller maps to.
pub open spec fn internal_controller_of(c: Controller) -> BotPNL {
    BotPNL { pct: c.performance.global_pnl_pct, quote: c.performance.global_pnl_quote }
}

/// What `to_internal_bots` promises of one converted bot.
pub open spec fn internal_bot_ok(name: Seq<char>, wire: Bot, b: InternalBot) -> bool {
    &&& b.name@ == name
    &&& b.global_pnl.pct == 0
    &&& b.global_pnl.quote == 2 * ctl_quote_sum(wire.performance@)
    &&& b.controllers@.len() == wire.performance@.len()
    &&& forall|j: int|
        0 <= j < wire.performance@.len() ==> (#[trigger] b.controllers@[j]).0@
            == wire.performance@[j].0@ && b.controllers@[j].1.pnl == internal_controller_of(
            wire.performance@[j].1,
        )
}

impl ActiveBotsResponse {
    /// Converts the wire response to the internal bots, in order.  Each
    /// bot's overall quote figure accumulates each controller's quote
    /// figure twice, as the reporting pipeline always has; the percentage
    /// stays at its default.
    #[verifier::loop_isolation(false)]
    pub fn to_internal_bots(&self) -> (r: Vec<InternalBot>)
        requires
            forall|i: int|
                0 <= i < self.data@.len() ==> i64::MIN <= 2 * ctl_quote_sum(
                    (#[trigger] self.data@[i]).1.performance@,
                ) <= i64::MAX,
        ensures
            r@.len() == self.data@.len(),
            forall|i: int|
                0 <= i < self.data@.len() ==> internal_bot_ok(
                    self.data@[i].0@,
                    self.data@[i].1,
                    #[trigger] r@[i],
                ),
    {
        let n = self.data.len();
        let mut out: Vec<InternalBot> = Vec::new();
        let mut i: usize = 0;
        while i < n
            invariant
                n == self.data@.len(),
                i <= n,
                out@.len() == i,
                forall|t: int|
                    0 <= t < i ==> internal_bot_ok(
                        self.data@[t].0@,
                        self.data@[t].1,
                        #[trigger] out@[t],
                    ),
            decreases n - i,
        {
            let pair = &self.data[i];
            let b = convert_bot(&pair.0, &pair.1);
            out.push(b);
            i += 1;
        }
        out
    }
}

/// Converts one wire bot.
#[verifier::loop_isolation(false)]
fn convert_bot(name: &String, wire: &Bot) -> (r: InternalBot)
    requires
        i64::MIN <= 2 * ctl_quote_sum(wire.performance@) <= i64::MAX,
    ensures
        internal_bot_ok(name@, *wire, r),
{
    let nc = wire.performance.len();
    let mut controllers: Vec<(String, BotController)> = Vec::new();
    let mut sum: i128 = 0;
    let mut j: usize = 0;
    while j < nc
        invariant
            nc == wire.performance@.len(),
            j <= nc,
            controllers@.len() == j,
            sum as int == ctl_quote_sum(wire.performance@.take(j as int)),
            -(j as int) * (i64::MAX as int + 1) <= sum as int <= (j as int) * (i64::MAX as int
                + 1),
            forall|t: int|
                0 <= t < j ==> (#[trigger] controllers@[t]).0@ == wire.performance@[t].0@
                    && controllers@[t].1.pnl == internal_controller_of(wire.performance@[t].1),
        decreases nc - j,
    {
        let entry = &wire.performance[j];
        let q = entry.1.performance.global_pnl_quote;
        proof {
            crate::bot_balance::lemma_i64_bound_step(sum as int, q as int, j as int);
            assert(wire.performance@.take(j as int + 1).drop_last() =~= wire.performance@.take(
                j as int,
            ));
            assert(wire.performance@.take(j as int + 1).last() == wire.performance@[j as int]);
        }
        sum = sum + q as i128;
        let ctl_name = entry.0.clone();
        let pnl = BotPNL {
            pct: entry.1.performance.global_pnl_pct,
            quote: entry.1.performance.global_pnl_quote,
        };
        controllers.push((ctl_name, BotController { pnl }));
        j += 1;
    }
    proof {
        assert(wire.performance@.take(nc as int) =~= wire.performance@);
    }
    let quote = (2 * sum) as i64;
    InternalBot {
        name: crate::text::copy_str(name.as_str()),
        global_pnl: BotPNL { pct: 0, quote },
        controllers,
    }
}

// ----------------------------------------------------- account conversion

/// A clean account-state response: names free of control characters and, as
/// the service keys them, unique per level.
pub open spec fn account_state_wf(a: Account) -> bool {
    &&& forall|i: int|
        0 <= i < a.entries@.len() ==> wf_name((#[trigger] a.entries@[i]).0@) && exchange_list_wf(
            a.entries@[i].1@,
        )
    &&& forall|i: int, j: int|
        0 <= i < j < a.entries@.len() ==> a.entries@[i].0@ != a.entries@[j].0@
}

/// Clean exchange lists within one account.
pub open spec fn exchange_list_wf(xs: Seq<(String, Vec<TokenBalance>)>) -> bool {
    &&& forall|i: int|
        0 <= i < xs.len() ==> wf_name((#[trigger] xs[i]).0@) && token_list_wf(xs[i].1@)
    &&& forall|i: int, j: int| 0 <= i < j < xs.len() ==> xs[i].0@ != xs[j].0@
}

/// Clean token names.
pub open spec fn token_list_wf(ts: Seq<TokenBalance>) -> bool {
    forall|i: int| 0 <= i < ts.len() ==> wf_name((#[trigger] ts[i]).token@)
}

/// What the converted snapshot holds: the same structure, token for token.
pub open spec fn balance_matches_account(b: crate::bot_balance::BalanceV, a: Account) -> bool {
    &&& b.accounts.len() == a.entries@.len()
    &&& forall|i: int|
        0 <= i < a.entries@.len() ==> {
            let acc = #[trigger] b.accounts[i];
            &&& acc.account == a.entries@[i].0@
            &&& acc.exchanges.len() == a.entries@[i].1@.len()
            &&& forall|j: int|
                0 <= j < a.entries@[i].1@.len() ==> {
                    let x = #[trigger] acc.exchanges[j];
                    &&& x.exchange == a.entries@[i].1@[j].0@
                    &&& x.entries.len() == a.entries@[i].1@[j].1@.len()
                    &&& forall|t: int|
                        0 <= t < a.entries@[i].1@[j].1@.len() ==> (#[trigger] x.entries[t]).coin
                            == a.entries@[i].1@[j].1@[t].token@ && x.entries[t].amount
                            == a.entries@[i].1@[j].1@[t].value
                }
        }
}

impl Account {
    /// Converts the account-state response to a balance snapshot captured at
    /// `timestamp`, account for account, exchange for exchange, token for
    /// token.
    #[verifier::loop_isolation(false)]
    pub fn to_bot_balance(&self, timestamp: u64) -> (r: BotBalance)
        requires
            account_state_wf(*self),
        ensures
            r@.wf(),
            r@.timestamp == timestamp,
            balance_matches_account(r@, *self),
    {
        let na = self.entries.len();
        let mut accounts: Vec<AccountBalance> = Vec::new();
        let mut i: usize = 0;
        while i < na
            invariant
                na == self.entries@.len(),
                i <= na,
                accounts@.len() == i,
                forall|t: int|
                    0 <= t < i ==> {
                        let acc = (#[trigger] accounts@[t])@;
                        &&& acc.account == self.entries@[t].0@
                        &&& acc.wf()
                        &&& acc.exchanges.len() == self.entries@[t].1@.len()
                        &&& forall|j: int|
                            0 <= j < self.entries@[t].1@.len() ==> {
                                let x = #[trigger] acc.exchanges[j];
                                &&& x.exchange == self.entries@[t].1@[j].0@
                                &&& x.entries.len() == self.entries@[t].1@[j].1@.len()
                                &&& forall|u: int|
                                    0 <= u < self.entries@[t].1@[j].1@.len() ==> (
                                    #[trigger] x.entries[u]).coin == self.entries@[t].1@[j].1@[
                                        u
                                    ].token@ && x.entries[u].amount == self.entries@[t].1@[j].1@[
                                        u
                                    ].value
                            }
                    },
            decreases na - i,
        {
            let pair = &self.entries[i];
            let account = convert_account(&pair.0, &pair.1);
            accounts.push(account);
            i += 1;
        }
        let r = BotBalance { accounts, timestamp };
        proof {
            assert(r@.accounts.len() == na);
            assert forall|t: int| 0 <= t < na implies (#[trigger] r@.accounts[t]).wf() by {
                assert(r@.accounts[t] == accounts@[t]@);
            }
            assert forall|t: int, u: int|
                0 <= t < u < na implies r@.accounts[t].account != r@.accounts[u].account by {
                assert(r@.accounts[t] == accounts@[t]@);
                assert(r@.accounts[u] == accounts@[u]@);
            }
            assert(balance_matches_account(r@, *self)) by {
                assert forall|t: int| 0 <= t < na implies {
                    let acc = #[trigger] r@.accounts[t];
                    &&& acc.account == self.entries@[t].0@
                    &&& acc.exchanges.len() == self.entries@[t].1@.len()
                    &&& forall|j: int|
                        0 <= j < self.entries@[t].1@.len() ==> {
                            let x = #[trigger] acc.exchanges[j];
                            &&& x.exchange == self.entries@[t].1@[j].0@
                            &&& x.entries.len() == self.entries@[t].1@[j].1@.len()
                            &&& forall|u: int|
                                0 <= u < self.entries@[t].1@[j].1@.len() ==> (
                                #[trigger] x.entries[u]).coin == self.entries@[t].1@[j].1@[
                                    u
                                ].token@ && x.entries[u].amount == self.entries@[t].1@[j].1@[
                                    u
                                ].value
                        }
                } by {
                    assert(r@.accounts[t] == accounts@[t]@);
                }
            }
        }
        r
    }
}

/// Converts one account's exchanges.
#[verifier::loop_isolation(false)]
fn convert_account(name: &String, xs: &Vec<(String, Vec<TokenBalance>)>) -> (r: AccountBalance)
    requires
        wf_name(name@),
        exchange_list_wf(xs@),
    ensures
        r@.wf(),
        r@.account == name@,
        r@.exchanges.len() == xs@.len(),
        forall|j: int|
            0 <= j < xs@.len() ==> {
                let x = #[trigger] r@.exchanges[j];
                &&& x.exchange == xs@[j].0@
                &&& x.entries.len() == xs@[j].1@.len()
                &&& forall|u: int|
                    0 <= u < xs@[j].1@.len() ==> (#[trigger] x.entries[u]).coin == xs@[j].1@[
                        u
                    ].token@ && x.entries[u].amount == xs@[j].1@[u].value
            },
{
    let nx = xs.len();
    let mut exchanges: Vec<ExchangeBalance> = Vec::new();
    let mut j: usize = 0;
    while j < nx
        invariant
            nx == xs@.len(),
            j <= nx,
            exchanges@.len() == j,
            forall|t: int|
                0 <= t < j ==> {
                    let x = (#[trigger] exchanges@[t])@;
                    &&& x.wf()
                    &&& x.exchange == xs@[t].0@
                    &&& x.entries.len() == xs@[t].1@.len()
                    &&& forall|u: int|
                        0 <= u < xs@[t].1@.len() ==> (#[trigger] x.entries[u]).coin == xs@[t].1@[
                            u
                        ].token@ && x.entries[u].amount == xs@[t].1@[u].value
                },
        decreases nx - j,
    {
        let pair = &xs[j];
        let exchange = convert_exchange(&pair.0, &pair.1);
        exchanges.push(exchange);
        j += 1;
    }
    let r = AccountBalance { account: crate::text::copy_str(name.as_str()), exchanges };
    proof {
        assert forall|t: int| 0 <= t < nx implies (#[trigger] r@.exchanges[t]).wf() by {
            assert(r@.exchanges[t] == exchanges@[t]@);
        }
        assert forall|t: int, u: int|
            0 <= t < u < nx implies r@.exchanges[t].exchange != r@.exchanges[u].exchange by {
            assert(r@.exchanges[t] == exchanges@[t]@);
            assert(r@.exchanges[u] == exchanges@[u]@);
        }
        assert forall|j2: int| 0 <= j2 < nx implies {
            let x = #[trigger] r@.exchanges[j2];
            &&& x.exchange == xs@[j2].0@
            &&& x.entries.len() == xs@[j2].1@.len()
            &&& forall|u: int|
                0 <= u < xs@[j2].1@.len() ==> (#[trigger] x.entries[u]).coin == xs@[j2].1@[
                    u
                ].token@ && x.entries[u].amount == xs@[j2].1@[u].value
        } by {
            assert(r@.exchanges[j2] == exchanges@[j2]@);
        }
    }
    r
}

/// Converts one exchange's token positions.
#[verifier::loop_isolation(false)]
fn convert_exchange(name: &String, ts: &Vec<TokenBalance>) -> (r: ExchangeBalance)
    requires
        wf_name(name@),
        token_list_wf(ts@),
    ensures
        r@.wf(),
        r@.exchange == name@,
        r@.entries.len() == ts@.len(),
        forall|u: int|
            0 <= u < ts@.len() ==> (#[trigger] r@.entries[u]).coin == ts@[u].token@
                && r@.entries[u].amount == ts@[u].value,
{
    let nt = ts.len();
    let mut entries: Vec<BotBalanceEntry> = Vec::new();
    let mut u: usize = 0;
    while u < nt
        invariant
            nt == ts@.len(),
            u <= nt,
            entries@.len() == u,
            forall|t: int|
                0 <= t < u ==> ((#[trigger] entries@[t])@.coin == ts@[t].token@ && entries@[t]@.amount
                    == ts@[t].value && entries@[t]@.wf()),
        decreases nt - u,
    {
        let tb = &ts[u];
        let coin = tb.token.clone();
        entries.push(BotBalanceEntry { coin, amount: tb.value });
        u += 1;
    }
    let r = ExchangeBalance { exchange: crate::text::copy_str(name.as_str()), entries };
    proof {
        assert forall|t: int| 0 <= t < nt implies ((#[trigger] r@.entries[t]).coin == ts@[
            t
        ].token@ && r@.entries[t].amount == ts@[t].value && r@.entries[t].wf()) by {
            assert(r@.entries[t] == entries@[t]@);
        }
    }
    r
}

} // verus!
