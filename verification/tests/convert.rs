use botledger::backend_api::{
    Account, ActiveBotsResponse, Bot, CloseTypeCounts, Controller, Performance, TokenBalance,
    Trade as WireTrade,
};
use botledger::bot_cache::{BotCache, BotCacheEntry, Controller as CacheController,
    ControllerPNLHistoryEntry};
use botledger::bot_name::{beautify_bot_name, extract_bot_name};
use botledger::config::ScheduledStats;
use botledger::dec::Dec;
use botledger::trade::{ConvertError, LineError, Trade, TradeSide};

fn perf(quote: i64, pct: i64) -> Performance {
    Performance {
        realized_pnl_quote: 0,
        unrealized_pnl_quote: 0,
        unrealized_pnl_pct: 0,
        realized_pnl_pct: 0,
        global_pnl_quote: quote,
        global_pnl_pct: pct,
        volume_traded: 0,
        open_order_volume: 0,
        inventory_imbalance: 0,
        close_type_counts: CloseTypeCounts::default(),
    }
}

fn wire_trade(trade_type: &str, quantity: &str, price: &str) -> WireTrade {
    WireTrade {
        market: "spot".to_string(),
        trade_id: "t1".to_string(),
        price: price.to_string(),
        quantity: quantity.to_string(),
        symbol: "BTCUSDT".to_string(),
        trade_timestamp: 1234,
        trade_type: trade_type.to_string(),
        base_asset: "BTC".to_string(),
        quote_asset: "USDT".to_string(),
    }
}

#[test]
fn extract_bot_name_takes_the_greedy_capture() {
    let name = extract_bot_name("hummingbot-HateGhoster-2-2024.07.20_10.21").unwrap();
    assert_eq!(name, "HateGhoster-2");
}

#[test]
fn extract_bot_name_stops_at_underscores() {
    // The name part cannot cross an underscore, so nothing matches here.
    assert!(extract_bot_name("hummingbot-a_b-2024.01.01_00.00").is_none());
    assert!(extract_bot_name("no marker at all").is_none());
}

#[test]
fn extract_bot_name_ignores_trailing_text() {
    let name = extract_bot_name("xx hummingbot-foo-2024.07.20_10.21 trailing").unwrap();
    assert_eq!(name, "foo");
}

#[test]
fn beautify_keeps_everything_up_to_the_last_dash() {
    assert_eq!(beautify_bot_name("hummingbot-mega-bot-1"), "mega-bot");
}

#[test]
fn trade_side_names() {
    assert_eq!(TradeSide::Buy.as_str(), "Buy");
    assert_eq!(TradeSide::Sell.as_str(), "Sell");
}

#[test]
fn wire_trade_converts() {
    let t = wire_trade("BUY", "1.5", "0.25").to_internal_trade().unwrap();
    assert_eq!(t.side, TradeSide::Buy);
    assert_eq!(t.base_asset, "BTC");
    assert_eq!(t.quote_asset, "USDT");
    assert_eq!(t.timestamp, 1234);
    // 1.5 parses to mantissa 15 at scale 1; 0.25 to 25 at scale 2.
    assert_eq!(t.amount, Dec { mantissa: 15, scale: 1 });
    assert_eq!(t.price, Dec { mantissa: 25, scale: 2 });

    let s = wire_trade("SELL", "2", "3").to_internal_trade().unwrap();
    assert_eq!(s.side, TradeSide::Sell);
    assert_eq!(s.amount, Dec { mantissa: 2, scale: 0 });
}

#[test]
fn wire_trade_rejects_unknown_side() {
    let e = wire_trade("HOLD", "1", "1").to_internal_trade().unwrap_err();
    assert_eq!(e, ConvertError::InvalidSide);
}

#[test]
fn wire_trade_rejects_bad_numbers() {
    let e = wire_trade("BUY", "not a number", "1").to_internal_trade().unwrap_err();
    assert_eq!(e, ConvertError::InvalidAmount);
    let e = wire_trade("BUY", "1", "?").to_internal_trade().unwrap_err();
    assert_eq!(e, ConvertError::InvalidPrice);
}

#[test]
fn trade_from_line_parses_and_normalizes() {
    let line = "a,b,c,d,e,BTC,USDT,1700000000,x,BUY,y,0.50,2.500";
    let t = Trade::from_line(line).unwrap();
    assert_eq!(t.base_asset, "BTC");
    assert_eq!(t.quote_asset, "USDT");
    assert_eq!(t.timestamp, 1700000000);
    assert_eq!(t.side, TradeSide::Buy);
    // Normalization strips the trailing zeros.
    assert_eq!(t.price, Dec { mantissa: 5, scale: 1 });
    assert_eq!(t.amount, Dec { mantissa: 25, scale: 1 });
}

#[test]
fn trade_from_line_defaults_to_sell() {
    let line = "a,b,c,d,e,BTC,USDT,5,x,anything,y,1,2";
    let t = Trade::from_line(line).unwrap();
    assert_eq!(t.side, TradeSide::Sell);
}

#[test]
fn trade_from_line_errors() {
    assert_eq!(Trade::from_line("too,short").unwrap_err(), LineError::TooShort);
    let bad_amount = "a,b,c,d,e,BTC,USDT,5,x,BUY,y,1,zzz";
    assert_eq!(Trade::from_line(bad_amount).unwrap_err(), LineError::InvalidAmount);
    let bad_price = "a,b,c,d,e,BTC,USDT,5,x,BUY,y,zzz,1";
    assert_eq!(Trade::from_line(bad_price).unwrap_err(), LineError::InvalidPrice);
    let bad_ts = "a,b,c,d,e,BTC,USDT,later,x,BUY,y,1,1";
    assert_eq!(Trade::from_line(bad_ts).unwrap_err(), LineError::InvalidTimestamp);
}

#[test]
fn bots_convert_with_doubled_quote_total() {
    let resp = ActiveBotsResponse {
        status: "ok".to_string(),
        data: vec![(
            "hummingbot-x-2024.01.01_00.00".to_string(),
            Bot {
                status: "running".to_string(),
                performance: vec![
                    ("c1".to_string(), Controller { status: "up".to_string(), performance: perf(5, 1) }),
                    ("c2".to_string(), Controller { status: "up".to_string(), performance: perf(7, 2) }),
                ],
            },
        )],
    };
    let bots = resp.to_internal_bots();
    assert_eq!(bots.len(), 1);
    assert_eq!(bots[0].name, "hummingbot-x-2024.01.01_00.00");
    // The pipeline has always accumulated each controller's quote twice.
    assert_eq!(bots[0].global_pnl.quote, 24);
    assert_eq!(bots[0].global_pnl.pct, 0);
    assert_eq!(bots[0].controllers.len(), 2);
    assert_eq!(bots[0].controllers[0].0, "c1");
    assert_eq!(bots[0].controllers[0].1.pnl.quote, 5);
    assert_eq!(bots[0].controllers[0].1.pnl.pct, 1);
}

#[test]
fn account_state_converts_to_snapshot() {
    let state = Account {
        entries: vec![(
            "main".to_string(),
            vec![(
                "binance".to_string(),
                vec![
                    TokenBalance { token: "BTC".to_string(), value: 12 },
                    TokenBalance { token: "ETH".to_string(), value: 34 },
                ],
            )],
        )],
    };
    let b = state.to_bot_balance(777);
    assert_eq!(b.timestamp, 777);
    assert_eq!(b.accounts.len(), 1);
    assert_eq!(b.accounts[0].account, "main");
    assert_eq!(b.accounts[0].exchanges[0].exchange, "binance");
    assert_eq!(b.accounts[0].exchanges[0].entries[1].coin, "ETH");
    assert_eq!(b.accounts[0].exchanges[0].entries[1].amount, 34);
}

#[test]
fn bot_cache_returns_saved_entries() {
    let mut cache = BotCache::new(false);
    assert!(cache.get_entry("bot").controllers.is_empty());
    let entry = BotCacheEntry {
        controllers: vec![(
            "c1".to_string(),
            CacheController {
                pnl_history: vec![ControllerPNLHistoryEntry { timestamp: 1, pct: 2, quote: 3 }],
            },
        )],
    };
    cache.save_entry("bot", entry);
    let got = cache.get_entry("bot");
    assert_eq!(got.controllers.len(), 1);
    assert_eq!(got.controllers[0].0, "c1");
    assert_eq!(
        got.controllers[0].1.pnl_history,
        vec![ControllerPNLHistoryEntry { timestamp: 1, pct: 2, quote: 3 }]
    );
}

#[test]
fn bot_cache_strips_deployment_names() {
    // Two deployments of the same bot share one entry when stripping is on.
    let mut cache = BotCache::new(true);
    let entry = BotCacheEntry {
        controllers: vec![("c".to_string(), CacheController { pnl_history: vec![] })],
    };
    cache.save_entry("hummingbot-alpha-2024.01.01_00.00", entry);
    let got = cache.get_entry("hummingbot-alpha-2025.06.07_08.09");
    assert_eq!(got.controllers.len(), 1);
    let other = cache.get_entry("hummingbot-beta-2024.01.01_00.00");
    assert!(other.controllers.is_empty());
}

#[test]
fn scheduled_stats_holds_its_configuration() {
    let s = ScheduledStats {
        message: "Good morning!".to_string(),
        schedule: "0 0 9 * * *".to_string(),
        enabled: true,
        channel_id: 42,
    };
    assert!(s.enabled);
    assert_eq!(s.channel_id, 42);
    assert_eq!(s.schedule, "0 0 9 * * *");
}

#[test]
fn trade_side_colors() {
    assert_eq!(TradeSide::Buy.color(), 0x41d321);
    assert_eq!(TradeSide::Sell.color(), 0xd32121);
}

#[test]
fn extract_bot_name_minimal_length() {
    assert_eq!(extract_bot_name("hummingbot-a-2024.01.01_00.00").unwrap(), "a");
    // One character short of a full date stamp: no match.
    assert!(extract_bot_name("hummingbot-a-2024.01.01_00.0").is_none());
}

#[test]
fn trade_from_line_accepts_a_plus_timestamp() {
    let line = "a,b,c,d,e,BTC,USDT,+5,x,BUY,y,1,2";
    assert_eq!(Trade::from_line(line).unwrap().timestamp, 5);
}

#[test]
fn scheduled_stats_default_is_disabled() {
    let s = ScheduledStats::default();
    assert!(!s.enabled);
    assert_eq!(s.schedule, "0 0 9 * * *");
}
