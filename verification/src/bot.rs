//! Internal bot state, as the polling and reporting paths use it.

use vstd::prelude::*;

verus! {

/// Profit and loss of one bot or controller, in fixed-point minimal units.
#[derive(Debug, Clone, Copy, PartialEq, Eq, Structural)]
pub struct BotPNL {
    pub pct: i64,
    pub quote: i64,
}

impl Default for BotPNL {
    /// The zero profit-and-loss.
    fn default() -> (r: BotPNL)
        ensures
            r.pct == 0 && r.quote == 0,
    {
        BotPNL { pct: 0, quote: 0 }
    }
}

/// One controller of a bot, with its profit and loss.
#[derive(Debug, Clone, PartialEq, Eq)]
pub struct BotController {
    pub pnl: BotPNL,
}

/// One tracked bot: its name, overall profit and loss, and controllers.
#[derive(Debug)]
pub struct Bot {
    pub name: String,
    pub global_pnl: BotPNL,
    pub controllers: Vec<(String, BotController)>,
}

} // verus!
