//! Trades, and the pure conversions that produce them.
//!
//! A [`Trade`] is the internal shape of one executed trade.  It is produced
//! either from the backend's wire shape ([`crate::backend_api::Trade`]) or
//! from one comma-separated line of an exported history file.

use vstd::prelude::*;
use crate::dec::{Dec, dec_normalized, dec_of_str, normalize_dec, parse_decimal};
use crate::codec::{digit_run_end, digits_val};
use crate::text::{collect_chars, find_char, str_chars, str_eq};

verus! {

/// Which way a trade went.
#[derive(Debug, Clone, Copy, PartialEq, Eq, Structural)]
pub enum TradeSide {
    Buy,
    Sell,
}

impl TradeSide {
    /// The side's display name.
    pub fn as_str(&self) -> (r: &'static str)
        ensures
            r@ == match self {
                TradeSide::Buy => "Buy"@,
                TradeSide::Sell => "Sell"@,
            },
    {
        match self {
            TradeSide::Buy => "Buy",
            TradeSide::Sell => "Sell",
        }
    }

    /// The embed color a trade notification carries: green for a buy, red
    /// for a sell.
    pub fn color(&self) -> (r: u32)
        ensures
            r == match self {
                TradeSide::Buy => 0x41d321u32,
                TradeSide::Sell => 0xd32121u32,
            },
    {
        match self {
            TradeSide::Buy => 0x41d321,
            TradeSide::Sell => 0xd32121,
        }
    }
}

/// One executed trade of a bot.
#[derive(Debug, Clone, PartialEq, Eq)]
pub struct Trade {
    pub base_asset: String,
    pub quote_asset: String,
    pub amount: Dec,
    pub price: Dec,
    pub timestamp: u64,
    pub side: TradeSide,
}

/// Why a wire trade failed to convert.
#[derive(Debug, Clone, Copy, PartialEq, Eq, Structural)]
pub enum ConvertError {
    InvalidAmount,
    InvalidPrice,
    InvalidSide,
}

impl crate::backend_api::Trade {
    /// Converts the wire trade: the quantity and price are parsed as
    /// decimals, and the trade type must be `BUY` or `SELL` — anything else
    /// is a validation error that fails only this trade.
    pub fn to_internal_trade(&self) -> (r: Result<Trade, ConvertError>)
        ensures
            match r {
                Ok(t) => {
                    &&& dec_of_str(self.quantity@) == Some((t.amount.mantissa, t.amount.scale))
                    &&& dec_of_str(self.price@) == Some((t.price.mantissa, t.price.scale))
                    &&& (self.trade_type@ == "BUY"@ || self.trade_type@ == "SELL"@)
                    &&& t.side == (if self.trade_type@ == "BUY"@ {
                        TradeSide::Buy
                    } else {
                        TradeSide::Sell
                    })
                    &&& t.base_asset@ == self.base_asset@
                    &&& t.quote_asset@ == self.quote_asset@
                    &&& t.timestamp == self.trade_timestamp
                },
                Err(e) => {
                    &&& (e == ConvertError::InvalidAmount <==> dec_of_str(self.quantity@) is None)
                    &&& (e == ConvertError::InvalidPrice <==> dec_of_str(self.quantity@) is Some
                        && dec_of_str(self.price@) is None)
                    &&& (e == ConvertError::InvalidSide <==> dec_of_str(self.quantity@) is Some
                        && dec_of_str(self.price@) is Some && self.trade_type@ != "BUY"@
                        && self.trade_type@ != "SELL"@)
                },
            },
    {
        let amount = match parse_decimal(self.quantity.as_str()) {
            Some(d) => d,
            None => {
                return Err(ConvertError::InvalidAmount);
            },
        };
        let price = match parse_decimal(self.price.as_str()) {
            Some(d) => d,
            None => {
                return Err(ConvertError::InvalidPrice);
            },
        };
        let side = if str_eq(self.trade_type.as_str(), "BUY") {
            TradeSide::Buy
        } else if str_eq(self.trade_type.as_str(), "SELL") {
            TradeSide::Sell
        } else {
            return Err(ConvertError::InvalidSide);
        };
        Ok(
            Trade {
                base_asset: self.base_asset.clone(),
                quote_asset: self.quote_asset.clone(),
                amount,
                price,
                timestamp: self.trade_timestamp,
                side,
            },
        )
    }
}

/// Why a history line failed to parse.
#[derive(Debug, Clone, Copy, PartialEq, Eq, Structural)]
pub enum LineError {
    TooShort,
    InvalidAmount,
    InvalidPrice,
    InvalidTimestamp,
}

/// The comma-separated fields of a line; a line always has at least one.
pub open spec fn split_commas(s: Seq<char>) -> Seq<Seq<char>>
    decreases s.len(),
{
    let k = first_comma(s);
    if 0 <= k < s.len() {
        seq![s.subrange(0, k)] + split_commas(s.skip(k + 1))
    } else {
        seq![s]
    }
}

/// The index of the first comma, or the length.
pub open spec fn first_comma(s: Seq<char>) -> int
    decreases s.len(),
{
    if s.len() == 0 {
        0
    } else if s[0] == ',' {
        0
    } else {
        1 + first_comma(s.skip(1))
    }
}

/// What a numeric field parses to as an unsigned integer: an optional `+`,
/// then digits, the value within range.
pub open spec fn u64_of_str(s: Seq<char>) -> Option<u64> {
    let o: int = if s.len() > 0 && s[0] == '+' {
        1
    } else {
        0
    };
    if o < s.len() && digit_run_end(s, o) == s.len() && digits_val(s, o, s.len() as int)
        <= u64::MAX as int {
        Some(digits_val(s, o, s.len() as int) as u64)
    } else {
        None
    }
}

/// What `from_line` promises, given the line's fields.
pub open spec fn from_line_ok(cs: Seq<Seq<char>>, r: Result<Trade, LineError>) -> bool {
    match r {
        Ok(t) => {
            &&& cs.len() >= 13
            &&& dec_of_str(cs[12]) matches Some(am) && (t.amount.mantissa, t.amount.scale)
                == dec_normalized(am.0, am.1)
            &&& dec_of_str(cs[11]) matches Some(pr) && (t.price.mantissa, t.price.scale)
                == dec_normalized(pr.0, pr.1)
            &&& u64_of_str(cs[7]) == Some(t.timestamp)
            &&& t.base_asset@ == cs[5]
            &&& t.quote_asset@ == cs[6]
            &&& t.side == (if cs[9] == "BUY"@ {
                TradeSide::Buy
            } else {
                TradeSide::Sell
            })
        },
        Err(e) => {
            &&& (e == LineError::TooShort <==> cs.len() < 13)
            &&& (e == LineError::InvalidAmount <==> cs.len() >= 13 && dec_of_str(cs[12]) is None)
            &&& (e == LineError::InvalidPrice <==> cs.len() >= 13 && dec_of_str(cs[12]) is Some
                && dec_of_str(cs[11]) is None)
            &&& (e == LineError::InvalidTimestamp <==> cs.len() >= 13 && dec_of_str(
                cs[12],
            ) is Some && dec_of_str(cs[11]) is Some && u64_of_str(cs[7]) is None)
        },
    }
}

impl Trade {
    /// Parses one line of an exported trade history: comma-separated
    /// fields, the assets in columns 5 and 6, the timestamp in column 7,
    /// the side in column 9 (`BUY`, else a sell), the price and amount in
    /// columns 11 and 12, both normalized.
    pub fn from_line(line: &str) -> (r: Result<Trade, LineError>)
        ensures
            from_line_ok(split_commas(line@), r),
    {
        let fields = split_on_commas(line);
        if fields.len() < 13 {
            return Err(LineError::TooShort);
        }
        proof {
            let cs = split_commas(line@);
            assert(fields@.map_values(|f: String| f@)[5] == fields@[5]@);
            assert(fields@.map_values(|f: String| f@)[6] == fields@[6]@);
            assert(fields@.map_values(|f: String| f@)[7] == fields@[7]@);
            assert(fields@.map_values(|f: String| f@)[9] == fields@[9]@);
            assert(fields@.map_values(|f: String| f@)[11] == fields@[11]@);
            assert(fields@.map_values(|f: String| f@)[12] == fields@[12]@);
        }
        let amount_raw = match parse_decimal(fields[12].as_str()) {
            Some(d) => d,
            None => {
                return Err(LineError::InvalidAmount);
            },
        };
        let price_raw = match parse_decimal(fields[11].as_str()) {
            Some(d) => d,
            None => {
                return Err(LineError::InvalidPrice);
            },
        };
        let timestamp = match parse_u64_field(fields[7].as_str()) {
            Some(v) => v,
            None => {
                return Err(LineError::InvalidTimestamp);
            },
        };
        let side = if str_eq(fields[9].as_str(), "BUY") {
            TradeSide::Buy
        } else {
            TradeSide::Sell
        };
        let amount = normalize_dec(amount_raw);
        let price = normalize_dec(price_raw);
        Ok(
            Trade {
                base_asset: fields[5].clone(),
                quote_asset: fields[6].clone(),
                amount,
                price,
                timestamp,
                side,
            },
        )
    }
}

/// Splits a line at its commas.
#[verifier::loop_isolation(false)]
fn split_on_commas(line: &str) -> (r: Vec<String>)
    ensures
        r@.map_values(|f: String| f@) == split_commas(line@),
{
    let s = str_chars(line);
    let n = s.len();
    let mut r: Vec<String> = Vec::new();
    let mut i: usize = 0;
    proof {
        assert(r@.map_values(|f: String| f@) =~= Seq::<Seq<char>>::empty());
        assert(s@.skip(0) =~= s@);
    }
    loop
        invariant
            s@ == line@,
            n == s@.len(),
            i <= n,
            split_commas(line@) == r@.map_values(|f: String| f@) + split_commas(s@.skip(i as int)),
        decreases n - i,
    {
        let j = find_char(&s, i, ',');
        let field = collect_chars(&s, i, j);
        proof {
            lemma_first_comma_at(s@, i as int, j as int);
        }
        if j == n {
            r.push(field);
            proof {
                assert(split_commas(s@.skip(i as int)) =~= seq![s@.subrange(i as int, n as int)]);
                assert(r@.map_values(|f: String| f@) =~= split_commas(line@));
            }
            return r;
        }
        proof {
            assert(s@.skip(i as int).subrange(0, j - i) =~= s@.subrange(i as int, j as int));
            assert(s@.skip(i as int).skip(j - i + 1) =~= s@.skip(j + 1));
            assert(split_commas(s@.skip(i as int)) == seq![s@.subrange(i as int, j as int)]
                + split_commas(s@.skip(j + 1)));
        }
        r.push(field);
        proof {
            assert(split_commas(line@) =~= r@.map_values(|f: String| f@) + split_commas(
                s@.skip(j + 1),
            ));
        }
        i = j + 1;
    }
}

/// `first_comma` finds the boundary a scan found.
proof fn lemma_first_comma_at(s: Seq<char>, i: int, j: int)
    requires
        0 <= i <= j <= s.len(),
        forall|m: int| i <= m < j ==> s[m] != ',',
        j == s.len() || s[j] == ',',
    ensures
        first_comma(s.skip(i)) == j - i,
    decreases j - i,
{
    if i < j {
        lemma_first_comma_at(s, i + 1, j);
        assert(s.skip(i)[0] == s[i]);
        assert(s.skip(i).skip(1) =~= s.skip(i + 1));
    } else {
        if j < s.len() {
            assert(s.skip(i)[0] == ',');
        }
    }
}

/// Parses a whole numeric field as a `u64`, with an optional leading `+`.
fn parse_u64_field(s: &str) -> (r: Option<u64>)
    ensures
        r == u64_of_str(s@),
{
    let v = str_chars(s);
    let n = v.len();
    if n == 0 {
        return None;
    }
    let o: usize = if v[0] == '+' {
        1
    } else {
        0
    };
    if o >= n {
        return None;
    }
    match crate::codec::p_nat(&v, o) {
        Some((Some(u), j)) => {
            if j == n {
                Some(u)
            } else {
                proof {
                    assert(digit_run_end(s@, o as int) != s@.len());
                }
                None
            }
        },
        Some((None, j)) => {
            proof {
                if digit_run_end(s@, o as int) == s@.len() {
                    assert(digits_val(s@, o as int, s@.len() as int) > u64::MAX as int);
                }
            }
            None
        },
        None => {
            proof {
                assert(digit_run_end(s@, o as int) == o as int);
            }
            None
        },
    }
}

} // verus!
