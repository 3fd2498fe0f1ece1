use botledger::bot_balance::{AccountBalance, BotBalance, BotBalanceEntry, ExchangeBalance};
use botledger::jsonl_cache::JsonCache;
use botledger::polling::DedupState;
use botledger::profit_chart::{chart_from_balances, ChartData, ChartDataEntry};

fn entry(coin: &str, amount: i64) -> BotBalanceEntry {
    BotBalanceEntry { coin: coin.to_string(), amount }
}

fn exchange(name: &str, entries: Vec<BotBalanceEntry>) -> ExchangeBalance {
    ExchangeBalance { exchange: name.to_string(), entries }
}

fn account(name: &str, exchanges: Vec<ExchangeBalance>) -> AccountBalance {
    AccountBalance { account: name.to_string(), exchanges }
}

#[test]
fn dedup_notifies_exactly_once_per_timestamp() {
    // Two consecutive ticks observing the same timestamp notify once.
    let mut state = DedupState::new();
    assert!(state.observe("bot-a", 100));
    assert!(!state.observe("bot-a", 100));
    // A changed timestamp notifies again.
    assert!(state.observe("bot-a", 101));
    assert!(!state.observe("bot-a", 101));
}

#[test]
fn dedup_zero_timestamp_is_the_initial_cursor() {
    // A fresh entity starts at cursor 0, so an event stamped 0 is
    // indistinguishable from nothing yet and never notifies.
    let mut state = DedupState::new();
    assert!(!state.observe("bot-a", 0));
    assert!(state.observe("bot-a", 5));
}

#[test]
fn dedup_entities_are_independent() {
    let mut state = DedupState::new();
    assert!(state.observe("bot-a", 7));
    assert!(state.observe("bot-b", 7));
    assert!(!state.observe("bot-a", 7));
}

#[test]
fn cursor_pruning_forgets_absent_entities() {
    // Once an entity leaves the active set its cursor is removed; a
    // reappearing entity is treated as new.
    let mut state = DedupState::new();
    assert!(state.observe("bot-a", 50));
    assert!(state.observe("bot-b", 60));
    state.prune(&vec!["bot-b".to_string()]);
    assert_eq!(state.cursors.len(), 1);
    assert_eq!(state.cursors[0].entity, "bot-b");
    // bot-a reappears with the same timestamp: notified again.
    assert!(state.observe("bot-a", 50));
    // bot-b kept its cursor: still suppressed.
    assert!(!state.observe("bot-b", 60));
}

#[test]
fn merge_conservation_example() {
    // Balances {(A,ex1,BTC,1.0), (A,ex2,BTC,2.0), (B,ex1,ETH,3.0)} in
    // minimal units of 0.1: merging yields {A: [BTC:3.0], B: [ETH:3.0]}.
    let b = BotBalance {
        accounts: vec![
            account(
                "A",
                vec![
                    exchange("ex1", vec![entry("BTC", 10)]),
                    exchange("ex2", vec![entry("BTC", 20)]),
                ],
            ),
            account("B", vec![exchange("ex1", vec![entry("ETH", 30)])]),
        ],
        timestamp: 1,
    };
    let merged = b.merge_across_exchanges();
    assert_eq!(merged.len(), 2);
    assert_eq!(merged[0].account, "A");
    assert_eq!(merged[0].entries, vec![entry("BTC", 30)]);
    assert_eq!(merged[1].account, "B");
    assert_eq!(merged[1].entries, vec![entry("ETH", 30)]);
}

#[test]
fn merge_sums_repeated_coins_within_one_exchange() {
    let b = BotBalance {
        accounts: vec![account(
            "A",
            vec![exchange("ex1", vec![entry("BTC", 1), entry("ETH", 5), entry("BTC", 2)])],
        )],
        timestamp: 1,
    };
    let merged = b.merge_across_exchanges();
    assert_eq!(merged[0].entries, vec![entry("BTC", 3), entry("ETH", 5)]);
}

#[test]
fn merge_drops_entry_less_accounts() {
    // An account whose exchanges hold nothing yields nothing to merge, so
    // it is absent from the result — and never reaches the chart.
    let b = BotBalance {
        accounts: vec![
            account("A", vec![exchange("e", vec![entry("BTC", 1)])]),
            account("B", vec![exchange("e", vec![])]),
            account("C", vec![]),
        ],
        timestamp: 3,
    };
    let merged = b.merge_across_exchanges();
    assert_eq!(merged.len(), 1);
    assert_eq!(merged[0].account, "A");
    let chart = chart_from_balances(&vec![b]);
    assert_eq!(chart.chart_data.len(), 1);
    assert_eq!(chart.chart_data[0].account, "A");
}

#[test]
fn chart_flattens_history_per_account() {
    let b1 = BotBalance {
        accounts: vec![account("A", vec![exchange("e", vec![entry("BTC", 1)])])],
        timestamp: 100,
    };
    let b2 = BotBalance {
        accounts: vec![
            account("A", vec![exchange("e", vec![entry("BTC", 2), entry("ETH", 9)])]),
            account("B", vec![exchange("e", vec![entry("ETH", 7)])]),
        ],
        timestamp: 200,
    };
    let chart = chart_from_balances(&vec![b1, b2]);
    assert_eq!(chart.chart_data.len(), 2);
    assert_eq!(chart.chart_data[0].account, "A");
    assert_eq!(
        chart.chart_data[0].entries,
        vec![
            ChartDataEntry { timestamp: 100, balance: 1 },
            ChartDataEntry { timestamp: 200, balance: 2 },
            ChartDataEntry { timestamp: 200, balance: 9 },
        ]
    );
    assert_eq!(chart.chart_data[1].account, "B");
    assert_eq!(chart.chart_data[1].entries, vec![ChartDataEntry { timestamp: 200, balance: 7 }]);
}

#[test]
fn make_chart_reads_the_store() {
    let mut cache = JsonCache::new();
    let b = BotBalance {
        accounts: vec![account("A", vec![exchange("e", vec![entry("BTC", 4)])])],
        timestamp: 10,
    };
    cache.write(&b);
    let chart = ChartData::make_chart(&cache).expect("store is clean");
    assert_eq!(chart.chart_data.len(), 1);
    assert_eq!(chart.chart_data[0].entries, vec![ChartDataEntry { timestamp: 10, balance: 4 }]);
}

#[test]
fn make_chart_fails_on_a_bad_line() {
    let cache = JsonCache::from_content("junk\n".to_string());
    let err = ChartData::make_chart(&cache).unwrap_err();
    assert_eq!(err.line_index, 0);
}

#[test]
fn render_json_is_the_chart_object() {
    let chart = ChartData {
        chart_data: vec![
            botledger::profit_chart::ChartSeries {
                account: "A".to_string(),
                entries: vec![
                    ChartDataEntry { timestamp: 1, balance: 10 },
                    ChartDataEntry { timestamp: 2, balance: -3 },
                ],
            },
        ],
    };
    assert_eq!(
        chart.render_json(),
        "{\"chartData\":{\"A\":[{\"timestamp\":1,\"balance\":10},{\"timestamp\":2,\"balance\":-3}]}}"
    );
}

#[test]
fn cycle_persists_then_charts() {
    let mut cache = JsonCache::new();
    let b = BotBalance {
        accounts: vec![account("A", vec![exchange("e", vec![entry("BTC", 4)])])],
        timestamp: 11,
    };
    let chart = botledger::profit_chart::persist_and_chart(&mut cache, &b).expect("clean store");
    assert_eq!(cache.count_objects(), 1);
    assert_eq!(chart.chart_data[0].entries, vec![ChartDataEntry { timestamp: 11, balance: 4 }]);
    // A second cycle sees both snapshots.
    let b2 = BotBalance {
        accounts: vec![account("A", vec![exchange("e", vec![entry("BTC", 6)])])],
        timestamp: 12,
    };
    let chart2 = botledger::profit_chart::persist_and_chart(&mut cache, &b2).unwrap();
    assert_eq!(
        chart2.chart_data[0].entries,
        vec![
            ChartDataEntry { timestamp: 11, balance: 4 },
            ChartDataEntry { timestamp: 12, balance: 6 },
        ]
    );
}

#[test]
fn check_mergeable_accepts_clean_snapshots() {
    let b = BotBalance {
        accounts: vec![
            account(
                "A",
                vec![
                    exchange("ex1", vec![entry("BTC", i64::MAX)]),
                    exchange("ex2", vec![entry("ETH", i64::MIN)]),
                ],
            ),
        ],
        timestamp: 1,
    };
    assert!(b.check_mergeable());
}

#[test]
fn check_mergeable_rejects_out_of_range_sums() {
    // Two maximal amounts of one coin: their sum leaves the stored width.
    let b = BotBalance {
        accounts: vec![account(
            "A",
            vec![exchange("e", vec![entry("BTC", i64::MAX), entry("BTC", 1)])],
        )],
        timestamp: 1,
    };
    assert!(!b.check_mergeable());
}

#[test]
fn check_mergeable_rejects_ill_formed_snapshots() {
    let dirty_name = BotBalance {
        accounts: vec![account("a\u{1}b", vec![])],
        timestamp: 1,
    };
    assert!(!dirty_name.check_mergeable());
    let dup_accounts = BotBalance {
        accounts: vec![account("A", vec![]), account("A", vec![])],
        timestamp: 1,
    };
    assert!(!dup_accounts.check_mergeable());
    let dup_exchanges = BotBalance {
        accounts: vec![account("A", vec![exchange("e", vec![]), exchange("e", vec![])])],
        timestamp: 1,
    };
    assert!(!dup_exchanges.check_mergeable());
}
