use botledger::bot_balance::{AccountBalance, BotBalance, BotBalanceEntry, ExchangeBalance};
use botledger::codec::{decode_record, encode_record_string};
use botledger::jsonl_cache::JsonCache;

fn entry(coin: &str, amount: i64) -> BotBalanceEntry {
    BotBalanceEntry { coin: coin.to_string(), amount }
}

fn exchange(name: &str, entries: Vec<BotBalanceEntry>) -> ExchangeBalance {
    ExchangeBalance { exchange: name.to_string(), entries }
}

fn account(name: &str, exchanges: Vec<ExchangeBalance>) -> AccountBalance {
    AccountBalance { account: name.to_string(), exchanges }
}

fn snapshot(timestamp: u64) -> BotBalance {
    BotBalance {
        accounts: vec![account(
            "A",
            vec![exchange("ex1", vec![entry("BTC", 10), entry("ETH", -3)])],
        )],
        timestamp,
    }
}

#[test]
fn encode_is_one_json_object_per_line() {
    let b = BotBalance {
        accounts: vec![account("A", vec![exchange("ex1", vec![entry("BTC", 10)])])],
        timestamp: 5,
    };
    let line = encode_record_string(&b);
    assert_eq!(
        line,
        "{\"accounts\":{\"A\":{\"ex1\":[{\"coin\":\"BTC\",\"amount\":10}]}},\"timestamp\":5}"
    );
}

#[test]
fn decode_inverts_encode() {
    let b = BotBalance {
        accounts: vec![
            account(
                "acct one",
                vec![
                    exchange("ex1", vec![entry("BTC", 10), entry("BTC", 5)]),
                    exchange("ex2", vec![]),
                ],
            ),
            account("b\"quoted\\name", vec![]),
        ],
        timestamp: u64::MAX,
    };
    let line = encode_record_string(&b);
    let back = decode_record(line.as_str()).expect("round trip");
    assert_eq!(back, b);
}

#[test]
fn decode_rejects_trailing_junk() {
    let b = snapshot(1);
    let mut line = encode_record_string(&b);
    line.push(' ');
    assert!(decode_record(line.as_str()).is_none());
}

#[test]
fn decode_rejects_duplicate_account_names() {
    let line = "{\"accounts\":{\"A\":{},\"A\":{}},\"timestamp\":1}";
    assert!(decode_record(line).is_none());
}

#[test]
fn decode_rejects_overflowing_amount() {
    let line = "{\"accounts\":{\"A\":{\"e\":[{\"coin\":\"B\",\"amount\":9223372036854775808}]}},\"timestamp\":1}";
    assert!(decode_record(line).is_none());
    let ok = "{\"accounts\":{\"A\":{\"e\":[{\"coin\":\"B\",\"amount\":-9223372036854775808}]}},\"timestamp\":1}";
    assert!(decode_record(ok).is_some());
}

#[test]
fn decode_accepts_negative_amounts() {
    let b = snapshot(7);
    let line = encode_record_string(&b);
    let back = decode_record(line.as_str()).unwrap();
    assert_eq!(back.accounts[0].exchanges[0].entries[1].amount, -3);
}

#[test]
fn append_read_back() {
    // For any sequence of appended records, read_all returns them in
    // append order with no loss or reordering.
    let mut cache = JsonCache::new();
    let recs = vec![snapshot(1), snapshot(2), snapshot(3)];
    for r in &recs {
        cache.write(r);
    }
    let back = cache.get_all_objects().expect("all lines decode");
    assert_eq!(back, recs);
}

#[test]
fn tail_semantics() {
    let mut cache = JsonCache::new();
    for t in 1..=5u64 {
        cache.write(&snapshot(t));
    }
    let last2 = cache.get_last_objects(2);
    assert_eq!(last2, vec![snapshot(4), snapshot(5)]);
    let all = cache.get_last_objects(99);
    assert_eq!(all.len(), 5);
    assert_eq!(all[0], snapshot(1));
}

#[test]
fn head_semantics() {
    let mut cache = JsonCache::new();
    for t in 1..=5u64 {
        cache.write(&snapshot(t));
    }
    let first2 = cache.get_first_objects(2);
    assert_eq!(first2, vec![snapshot(1), snapshot(2)]);
    let all = cache.get_first_objects(99);
    assert_eq!(all.len(), 5);
}

#[test]
fn emptiness_and_count() {
    let cache = JsonCache::new();
    assert!(cache.is_empty());
    assert_eq!(cache.count_objects(), 0);

    let blank = JsonCache::from_content("\n\n\n".to_string());
    assert!(blank.is_empty());
    assert_eq!(blank.count_objects(), 0);

    let mut cache = JsonCache::new();
    cache.write(&snapshot(1));
    cache.write(&snapshot(2));
    assert!(!cache.is_empty());
    assert_eq!(cache.count_objects(), 2);
}

#[test]
fn read_all_aborts_on_bad_line() {
    let good = encode_record_string(&snapshot(1));
    let content = format!("{}\nnot json\n{}\n", good, good);
    let cache = JsonCache::from_content(content);
    let err = cache.get_all_objects().unwrap_err();
    assert_eq!(err.line_index, 1);
    assert_eq!(err.line, "not json");
}

#[test]
fn head_and_tail_skip_bad_lines() {
    // The intentional asymmetry: read_all aborts, the indexed reads skip.
    let good1 = encode_record_string(&snapshot(1));
    let good2 = encode_record_string(&snapshot(2));
    let content = format!("{}\nnot json\n{}\n", good1, good2);
    let cache = JsonCache::from_content(content);
    assert!(cache.get_all_objects().is_err());
    assert_eq!(cache.get_first_objects(3), vec![snapshot(1), snapshot(2)]);
    assert_eq!(cache.get_last_objects(3), vec![snapshot(1), snapshot(2)]);
}

#[test]
fn tail_read_keeps_scanning_past_bad_lines() {
    // A bad line does not cost the tail read a result: the backward scan
    // goes on until it has its count of records.
    let good1 = encode_record_string(&snapshot(1));
    let good2 = encode_record_string(&snapshot(2));
    let content = format!("{}\nnot json\n{}\n", good1, good2);
    let cache = JsonCache::from_content(content);
    assert_eq!(cache.get_last_objects(2), vec![snapshot(1), snapshot(2)]);
    assert_eq!(cache.get_last_objects(1), vec![snapshot(2)]);
    // The head read, by contrast, examines a fixed window of lines.
    assert_eq!(cache.get_first_objects(2), vec![snapshot(1)]);
}

#[test]
fn indexed_reads_trim_whitespace_lines() {
    let good = encode_record_string(&snapshot(9));
    let content = format!("  {}  \n", good);
    let cache = JsonCache::from_content(content);
    assert!(cache.get_all_objects().is_err());
    assert_eq!(cache.get_first_objects(1), vec![snapshot(9)]);
    assert_eq!(cache.get_last_objects(1), vec![snapshot(9)]);
}

#[test]
fn empty_lines_consume_head_attempts_but_not_tail_candidates() {
    let good = encode_record_string(&snapshot(3));
    let content = format!("\n\n{}\n", good);
    let cache = JsonCache::from_content(content);
    // The first two attempts hit empty lines.
    assert_eq!(cache.get_first_objects(2), vec![]);
    assert_eq!(cache.get_first_objects(3), vec![snapshot(3)]);
    // Empty lines are not tail candidates at all.
    assert_eq!(cache.get_last_objects(1), vec![snapshot(3)]);
}

#[test]
fn corrupt_tail_is_not_a_record() {
    // A final line with no terminating newline is never returned as a
    // record, even when its text alone would decode.
    let good = encode_record_string(&snapshot(1));
    let unterminated = encode_record_string(&snapshot(2));
    let content = format!("{}\n{}", good, unterminated);
    let cache = JsonCache::from_content(content);
    assert_eq!(cache.get_all_objects().unwrap(), vec![snapshot(1)]);
    assert_eq!(cache.get_first_objects(9), vec![snapshot(1)]);
    assert_eq!(cache.get_last_objects(9), vec![snapshot(1)]);
    // It still counts as a nonempty line.
    assert_eq!(cache.count_objects(), 2);
}

#[test]
fn end_to_end_scenario() {
    // Five snapshots with strictly increasing timestamps.
    let mut cache = JsonCache::new();
    for t in [10u64, 20, 30, 40, 50] {
        cache.write(&snapshot(t));
    }
    assert_eq!(cache.count_objects(), 5);
    assert_eq!(cache.get_last_objects(2), vec![snapshot(40), snapshot(50)]);
}

#[test]
fn content_round_trips_through_the_backing_text() {
    let mut cache = JsonCache::new();
    cache.write(&snapshot(4));
    let text = cache.content().clone();
    let reloaded = JsonCache::from_content(text);
    assert_eq!(reloaded.get_all_objects().unwrap(), vec![snapshot(4)]);
}

#[test]
fn decode_rejects_raw_control_characters_in_names() {
    let line = "{\"accounts\":{\"\u{1}\":{}},\"timestamp\":1}";
    assert!(decode_record(line).is_none());
}

#[test]
fn decode_accepts_escaped_quotes_and_backslashes() {
    let line = "{\"accounts\":{\"a\\\"b\\\\c\":{}},\"timestamp\":1}";
    let b = decode_record(line).unwrap();
    assert_eq!(b.accounts[0].account, "a\"b\\c");
}

#[test]
fn store_reports_line_termination() {
    let mut cache = JsonCache::new();
    assert!(cache.is_line_terminated());
    cache.write(&snapshot(1));
    assert!(cache.is_line_terminated());
    let truncated = JsonCache::from_content("partial".to_string());
    assert!(!truncated.is_line_terminated());
}
