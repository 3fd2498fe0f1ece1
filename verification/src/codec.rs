//! The store's record format: one JSON object per line.
//!
//! A snapshot is written as
//! `{"accounts":{<account>:{<exchange>:[{"coin":<name>,"amount":<int>},…]},…},"timestamp":<nat>}`
//! where names are JSON strings with `"` and `\` escaped.  The encoder is
//! total on well-formed snapshots; the parser accepts exactly what the
//! specification-level [`parse_record`] accepts, and parsing an encoded
//! well-formed snapshot gives it back ([`lemma_parse_encode_record`]).

use vstd::prelude::*;
use crate::bot_balance::{
    AccountBalance, AccountV, BalanceV, BotBalance, BotBalanceEntry, EntryV, ExchangeBalance,
    ExchangeV, is_ctl_char, wf_name,
};
use crate::text::str_eq;

verus! {

// ---------------------------------------------------------------- encoding

/// How one character of a name is written: `"` and `\` get a backslash.
pub open spec fn esc_char(c: char) -> Seq<char> {
    if c == '"' || c == '\\' {
        seq!['\\', c]
    } else {
        seq![c]
    }
}

/// The escaped body of a name.
pub open spec fn encode_str_chars(s: Seq<char>) -> Seq<char>
    decreases s.len(),
{
    if s.len() == 0 {
        Seq::empty()
    } else {
        esc_char(s[0]) + encode_str_chars(s.skip(1))
    }
}

/// A name as a JSON string, quotes included.
pub open spec fn encode_string(s: Seq<char>) -> Seq<char> {
    seq!['"'] + encode_str_chars(s) + seq!['"']
}

/// The character for one decimal digit.
pub open spec fn digit_char(d: int) -> char {
    if d == 0 { '0' }
    else if d == 1 { '1' }
    else if d == 2 { '2' }
    else if d == 3 { '3' }
    else if d == 4 { '4' }
    else if d == 5 { '5' }
    else if d == 6 { '6' }
    else if d == 7 { '7' }
    else if d == 8 { '8' }
    else { '9' }
}

/// A nonnegative number in decimal, most significant digit first.
pub open spec fn encode_nat(n: int) -> Seq<char>
    decreases n,
{
    if n < 10 {
        seq![digit_char(n)]
    } else {
        encode_nat(n / 10).push(digit_char(n % 10))
    }
}

/// A signed number in decimal.
pub open spec fn encode_int(n: int) -> Seq<char> {
    if n < 0 {
        seq!['-'] + encode_nat(-n)
    } else {
        encode_nat(n)
    }
}

/// One entry: `{"coin":<string>,"amount":<int>}`.
pub open spec fn encode_entry(e: EntryV) -> Seq<char> {
    "{\"coin\":"@ + encode_string(e.coin) + ",\"amount\":"@ + encode_int(e.amount) + "}"@
}

/// A comma-separated entry list.
pub open spec fn encode_entries(es: Seq<EntryV>) -> Seq<char>
    decreases es.len(),
{
    if es.len() == 0 {
        Seq::empty()
    } else if es.len() == 1 {
        encode_entry(es[0])
    } else {
        encode_entry(es[0]) + seq![','] + encode_entries(es.skip(1))
    }
}

/// One exchange: `<string>:[<entries>]`.
pub open spec fn encode_exchange(x: ExchangeV) -> Seq<char> {
    encode_string(x.exchange) + ":["@ + encode_entries(x.entries) + "]"@
}

/// A comma-separated exchange list.
pub open spec fn encode_exchanges(xs: Seq<ExchangeV>) -> Seq<char>
    decreases xs.len(),
{
    if xs.len() == 0 {
        Seq::empty()
    } else if xs.len() == 1 {
        encode_exchange(xs[0])
    } else {
        encode_exchange(xs[0]) + seq![','] + encode_exchanges(xs.skip(1))
    }
}

/// One account: `<string>:{<exchanges>}`.
pub open spec fn encode_account(a: AccountV) -> Seq<char> {
    encode_string(a.account) + ":{"@ + encode_exchanges(a.exchanges) + "}"@
}

/// A comma-separated account list.
pub open spec fn encode_accounts(accs: Seq<AccountV>) -> Seq<char>
    decreases accs.len(),
{
    if accs.len() == 0 {
        Seq::empty()
    } else if accs.len() == 1 {
        encode_account(accs[0])
    } else {
        encode_account(accs[0]) + seq![','] + encode_accounts(accs.skip(1))
    }
}

/// A whole snapshot record, as one line's worth of characters.
pub open spec fn encode_record(b: BalanceV) -> Seq<char> {
    "{\"accounts\":{"@ + encode_accounts(b.accounts) + "},\"timestamp\":"@ + encode_nat(
        b.timestamp as int,
    ) + "}"@
}

// ----------------------------------------------------------- exec encoding

/// Appends the escaped body of `name` starting at character `i`.
fn push_str_chars(out: &mut String, name: &str, i: usize)
    requires
        i <= name@.len(),
    ensures
        final(out)@ == old(out)@ + encode_str_chars(name@.skip(i as int)),
    decreases name@.len() - i,
{
    if i == name.unicode_len() {
        proof {
            assert(name@.skip(i as int) =~= Seq::<char>::empty());
            assert(old(out)@ + Seq::<char>::empty() =~= old(out)@);
        }
        return;
    }
    let c = name.get_char(i);
    if c == '"' || c == '\\' {
        out.push('\\');
        out.push(c);
    } else {
        out.push(c);
    }
    push_str_chars(out, name, i + 1);
    proof {
        assert(name@.skip(i as int).len() > 0);
        assert(name@.skip(i as int)[0] == name@[i as int]);
        assert(name@.skip(i as int).skip(1) =~= name@.skip(i as int + 1));
        assert(old(out)@.push('\\').push(c) =~= old(out)@ + seq!['\\', c]);
        assert(old(out)@.push(c) =~= old(out)@ + seq![c]);
        assert(old(out)@ + esc_char(c) + encode_str_chars(name@.skip(i as int + 1)) =~= old(
            out,
        )@ + (esc_char(c) + encode_str_chars(name@.skip(i as int + 1))));
    }
}

/// Appends `name` as a quoted, escaped JSON string.
pub(crate) fn push_string(out: &mut String, name: &str)
    ensures
        final(out)@ == old(out)@ + encode_string(name@),
{
    out.push('"');
    push_str_chars(out, name, 0);
    out.push('"');
    proof {
        assert(name@.skip(0) =~= name@);
        assert(old(out)@.push('"') =~= old(out)@ + seq!['"']);
        assert((old(out)@ + seq!['"'] + encode_str_chars(name@)).push('"') =~= old(out)@ + (
        seq!['"'] + encode_str_chars(name@) + seq!['"']));
    }
}

/// Appends `n` in decimal.
pub(crate) fn push_nat(out: &mut String, n: u64)
    ensures
        final(out)@ == old(out)@ + encode_nat(n as int),
    decreases n,
{
    if n < 10 {
        let c = digit_to_char(n);
        out.push(c);
        proof {
            assert(old(out)@.push(c) =~= old(out)@ + seq![c]);
        }
    } else {
        push_nat(out, n / 10);
        let c = digit_to_char(n % 10);
        out.push(c);
        proof {
            assert((old(out)@ + encode_nat(n as int / 10)).push(c) =~= old(out)@ + encode_nat(
                n as int / 10,
            ).push(c));
        }
    }
}

/// Appends `n` in decimal, with a sign when negative.
pub(crate) fn push_int(out: &mut String, n: i64)
    ensures
        final(out)@ == old(out)@ + encode_int(n as int),
{
    if n < 0 {
        out.push('-');
        // The magnitude fits u64 even for i64::MIN.
        let mag: u64 = (-(n as i128)) as u64;
        proof {
            assert(mag == -(n as int));
        }
        push_nat(out, mag);
        proof {
            assert(old(out)@.push('-') + encode_nat(mag as int) =~= old(out)@ + (seq!['-']
                + encode_nat(-(n as int))));
        }
    } else {
        push_nat(out, n as u64);
    }
}

fn digit_to_char(d: u64) -> (c: char)
    requires
        d < 10,
    ensures
        c == digit_char(d as int),
{
    if d == 0 { '0' }
    else if d == 1 { '1' }
    else if d == 2 { '2' }
    else if d == 3 { '3' }
    else if d == 4 { '4' }
    else if d == 5 { '5' }
    else if d == 6 { '6' }
    else if d == 7 { '7' }
    else if d == 8 { '8' }
    else { '9' }
}

/// Appends the entry list, commas between items.
#[verifier::loop_isolation(false)]
fn push_entries(out: &mut String, es: &Vec<BotBalanceEntry>, i: usize)
    requires
        i <= es@.len(),
    ensures
        final(out)@ == old(out)@ + encode_entries(es@.map_values(|e: BotBalanceEntry| e@).skip(
            i as int,
        )),
    decreases es@.len() - i,
{
    let ghost evs = es@.map_values(|e: BotBalanceEntry| e@);
    if i == es.len() {
        proof {
            assert(evs.skip(i as int) =~= Seq::<EntryV>::empty());
            assert(old(out)@ + Seq::<char>::empty() =~= old(out)@);
        }
        return;
    }
    let e = &es[i];
    out.append("{\"coin\":");
    push_string(out, e.coin.as_str());
    out.append(",\"amount\":");
    push_int(out, e.amount);
    out.append("}");
    proof {
        assert(evs.skip(i as int)[0] == e@);
        assert(out@ == old(out)@ + encode_entry(e@)) by {
            assert(out@ =~= old(out)@ + ("{\"coin\":"@ + encode_string(e.coin@) + ",\"amount\":"@
                + encode_int(e.amount as int) + "}"@));
        }
    }
    if i + 1 == es.len() {
        proof {
            assert(evs.skip(i as int).len() == 1);
            assert(encode_entries(evs.skip(i as int)) == encode_entry(evs.skip(i as int)[0]));
        }
        return;
    }
    out.append(",");
    let ghost mid = out@;
    push_entries(out, es, i + 1);
    proof {
        reveal_strlit(",");
        assert(","@ =~= seq![',']);
        assert(evs.skip(i as int).len() > 1);
        assert(evs.skip(i as int).skip(1) =~= evs.skip(i as int + 1));
        assert(out@ =~= old(out)@ + (encode_entry(evs.skip(i as int)[0]) + seq![',']
            + encode_entries(evs.skip(i as int + 1))));
    }
}

/// Appends the exchange list, commas between items.
#[verifier::loop_isolation(false)]
fn push_exchanges(out: &mut String, xs: &Vec<ExchangeBalance>, i: usize)
    requires
        i <= xs@.len(),
    ensures
        final(out)@ == old(out)@ + encode_exchanges(xs@.map_values(|x: ExchangeBalance| x@).skip(
            i as int,
        )),
    decreases xs@.len() - i,
{
    let ghost xvs = xs@.map_values(|x: ExchangeBalance| x@);
    if i == xs.len() {
        proof {
            assert(xvs.skip(i as int) =~= Seq::<ExchangeV>::empty());
            assert(old(out)@ + Seq::<char>::empty() =~= old(out)@);
        }
        return;
    }
    let x = &xs[i];
    push_string(out, x.exchange.as_str());
    out.append(":[");
    push_entries(out, &x.entries, 0);
    out.append("]");
    proof {
        assert(xvs.skip(i as int)[0] == x@);
        assert(x@.entries =~= x.entries@.map_values(|e: BotBalanceEntry| e@).skip(0));
        assert(out@ == old(out)@ + encode_exchange(x@)) by {
            assert(out@ =~= old(out)@ + (encode_string(x.exchange@) + ":["@ + encode_entries(
                x@.entries,
            ) + "]"@));
        }
    }
    if i + 1 == xs.len() {
        proof {
            assert(xvs.skip(i as int).len() == 1);
        }
        return;
    }
    out.append(",");
    push_exchanges(out, xs, i + 1);
    proof {
        reveal_strlit(",");
        assert(","@ =~= seq![',']);
        assert(xvs.skip(i as int).len() > 1);
        assert(xvs.skip(i as int).skip(1) =~= xvs.skip(i as int + 1));
        assert(out@ =~= old(out)@ + (encode_exchange(xvs.skip(i as int)[0]) + seq![',']
            + encode_exchanges(xvs.skip(i as int + 1))));
    }
}

/// Appends the account list, commas between items.
#[verifier::loop_isolation(false)]
fn push_accounts(out: &mut String, accs: &Vec<AccountBalance>, i: usize)
    requires
        i <= accs@.len(),
    ensures
        final(out)@ == old(out)@ + encode_accounts(accs@.map_values(|a: AccountBalance| a@).skip(
            i as int,
        )),
    decreases accs@.len() - i,
{
    let ghost avs = accs@.map_values(|a: AccountBalance| a@);
    if i == accs.len() {
        proof {
            assert(avs.skip(i as int) =~= Seq::<AccountV>::empty());
            assert(old(out)@ + Seq::<char>::empty() =~= old(out)@);
        }
        return;
    }
    let a = &accs[i];
    push_string(out, a.account.as_str());
    out.append(":{");
    push_exchanges(out, &a.exchanges, 0);
    out.append("}");
    proof {
        assert(avs.skip(i as int)[0] == a@);
        assert(a@.exchanges =~= a.exchanges@.map_values(|x: ExchangeBalance| x@).skip(0));
        assert(out@ == old(out)@ + encode_account(a@)) by {
            assert(out@ =~= old(out)@ + (encode_string(a.account@) + ":{"@ + encode_exchanges(
                a@.exchanges,
            ) + "}"@));
        }
    }
    if i + 1 == accs.len() {
        proof {
            assert(avs.skip(i as int).len() == 1);
        }
        return;
    }
    out.append(",");
    push_accounts(out, accs, i + 1);
    proof {
        reveal_strlit(",");
        assert(","@ =~= seq![',']);
        assert(avs.skip(i as int).len() > 1);
        assert(avs.skip(i as int).skip(1) =~= avs.skip(i as int + 1));
        assert(out@ =~= old(out)@ + (encode_account(avs.skip(i as int)[0]) + seq![',']
            + encode_accounts(avs.skip(i as int + 1))));
    }
}

/// Encodes one snapshot as its line of text (without the trailing newline).
pub fn encode_record_string(b: &BotBalance) -> (r: String)
    ensures
        r@ == encode_record(b@),
{
    let mut out = String::new();
    out.append("{\"accounts\":{");
    push_accounts(&mut out, &b.accounts, 0);
    out.append("},\"timestamp\":");
    push_nat(&mut out, b.timestamp);
    out.append("}");
    proof {
        assert(b@.accounts =~= b.accounts@.map_values(|a: AccountBalance| a@).skip(0));
        assert(out@ =~= "{\"accounts\":{"@ + encode_accounts(b@.accounts) + "},\"timestamp\":"@
            + encode_nat(b@.timestamp as int) + "}"@);
    }
    out
}

} // verus!

verus! {

// ----------------------------------------------------------- parsing (spec)

/// A decimal digit.
pub open spec fn is_digit(c: char) -> bool {
    48 <= (c as u32) <= 57
}

/// The value of a digit character.
pub open spec fn digit_val(c: char) -> int {
    (c as u32) - 48
}

/// The character at `i` is `c`.
pub open spec fn at_ch(s: Seq<char>, i: int, c: char) -> bool {
    0 <= i < s.len() && s[i] == c
}

/// The characters starting at `i` spell out `lit`.
pub open spec fn at_lit(s: Seq<char>, i: int, lit: Seq<char>) -> bool {
    0 <= i && i + lit.len() <= s.len() && s.subrange(i, i + lit.len()) == lit
}

/// The first position at or after `i` that does not hold a digit.
pub open spec fn digit_run_end(s: Seq<char>, i: int) -> int
    decreases s.len() - i,
{
    if 0 <= i < s.len() && is_digit(s[i]) {
        digit_run_end(s, i + 1)
    } else {
        i
    }
}

/// The value of the digits in `s[i..j)`.
pub open spec fn digits_val(s: Seq<char>, i: int, j: int) -> int
    decreases j - i,
{
    if j <= i {
        0
    } else {
        digits_val(s, i, j - 1) * 10 + digit_val(s[j - 1])
    }
}

/// Reads a run of one or more digits as a nonnegative number.
pub open spec fn parse_nat(s: Seq<char>, i: int) -> Option<(int, int)> {
    let j = digit_run_end(s, i);
    if j == i {
        None
    } else {
        Some((digits_val(s, i, j), j))
    }
}

/// Reads an optionally signed number that fits an `i64`.
pub open spec fn parse_i64_val(s: Seq<char>, i: int) -> Option<(int, int)> {
    if at_ch(s, i, '-') {
        match parse_nat(s, i + 1) {
            Some((v, j)) => if v <= i64::MAX as int + 1 {
                Some((-v, j))
            } else {
                None
            },
            None => None,
        }
    } else {
        match parse_nat(s, i) {
            Some((v, j)) => if v <= i64::MAX as int {
                Some((v, j))
            } else {
                None
            },
            None => None,
        }
    }
}

/// Reads the body of a JSON string after the opening quote, up to and past
/// the closing quote.  `\"` and `\\` are the only escapes; raw control
/// characters are rejected, so a parsed name is always clean.
pub open spec fn parse_str_rest(s: Seq<char>, i: int) -> Option<(Seq<char>, int)>
    decreases s.len() - i,
{
    if i < 0 || i >= s.len() {
        None
    } else if s[i] == '"' {
        Some((Seq::empty(), i + 1))
    } else if s[i] == '\\' {
        if i + 1 < s.len() && (s[i + 1] == '"' || s[i + 1] == '\\') {
            match parse_str_rest(s, i + 2) {
                Some((t, j)) => Some((seq![s[i + 1]] + t, j)),
                None => None,
            }
        } else {
            None
        }
    } else if is_ctl_char(s[i]) {
        None
    } else {
        match parse_str_rest(s, i + 1) {
            Some((t, j)) => Some((seq![s[i]] + t, j)),
            None => None,
        }
    }
}

/// Reads a quoted JSON string.
pub open spec fn parse_string(s: Seq<char>, i: int) -> Option<(Seq<char>, int)> {
    if at_ch(s, i, '"') {
        parse_str_rest(s, i + 1)
    } else {
        None
    }
}

/// Reads one entry object.
pub open spec fn parse_entry(s: Seq<char>, i: int) -> Option<(EntryV, int)> {
    if at_lit(s, i, "{\"coin\":"@) {
        match parse_string(s, i + "{\"coin\":"@.len()) {
            Some((coin, j)) => if at_lit(s, j, ",\"amount\":"@) {
                match parse_i64_val(s, j + ",\"amount\":"@.len()) {
                    Some((amt, k)) => if at_ch(s, k, '}') {
                        Some((EntryV { coin, amount: amt }, k + 1))
                    } else {
                        None
                    },
                    None => None,
                }
            } else {
                None
            },
            None => None,
        }
    } else {
        None
    }
}

/// Reads the entry list of an exchange, up to and past the closing `]`.
pub open spec fn parse_entries(s: Seq<char>, i: int) -> Option<(Seq<EntryV>, int)>
    decreases s.len() - i,
{
    if at_ch(s, i, ']') {
        Some((Seq::empty(), i + 1))
    } else {
        match parse_entry(s, i) {
            Some((e, j)) => if j <= i {
                None
            } else if at_ch(s, j, ',') {
                match parse_entries(s, j + 1) {
                    Some((rest, k)) => Some((seq![e] + rest, k)),
                    None => None,
                }
            } else if at_ch(s, j, ']') {
                Some((seq![e], j + 1))
            } else {
                None
            },
            None => None,
        }
    }
}

/// Reads one exchange: a name and its entry list.
pub open spec fn parse_exchange(s: Seq<char>, i: int) -> Option<(ExchangeV, int)> {
    match parse_string(s, i) {
        Some((name, j)) => if at_lit(s, j, ":["@) {
            match parse_entries(s, j + ":["@.len()) {
                Some((es, k)) => Some((ExchangeV { exchange: name, entries: es }, k)),
                None => None,
            }
        } else {
            None
        },
        None => None,
    }
}

/// `name` names one of the exchanges.
pub open spec fn seq_has_exchange(xs: Seq<ExchangeV>, name: Seq<char>) -> bool {
    exists|k: int| 0 <= k < xs.len() && xs[k].exchange == name
}

/// `name` names one of the accounts.
pub open spec fn seq_has_account(accs: Seq<AccountV>, name: Seq<char>) -> bool {
    exists|k: int| 0 <= k < accs.len() && accs[k].account == name
}

/// Reads the exchange list of an account, up to and past the closing `}`.
/// A repeated exchange name is rejected.
pub open spec fn parse_exchanges(s: Seq<char>, i: int) -> Option<(Seq<ExchangeV>, int)>
    decreases s.len() - i,
{
    if at_ch(s, i, '}') {
        Some((Seq::empty(), i + 1))
    } else {
        match parse_exchange(s, i) {
            Some((x, j)) => if j <= i {
                None
            } else if at_ch(s, j, ',') {
                match parse_exchanges(s, j + 1) {
                    Some((rest, k)) => if seq_has_exchange(rest, x.exchange) {
                        None
                    } else {
                        Some((seq![x] + rest, k))
                    },
                    None => None,
                }
            } else if at_ch(s, j, '}') {
                Some((seq![x], j + 1))
            } else {
                None
            },
            None => None,
        }
    }
}

/// Reads one account: a name and its exchange object.
pub open spec fn parse_account(s: Seq<char>, i: int) -> Option<(AccountV, int)> {
    match parse_string(s, i) {
        Some((name, j)) => if at_lit(s, j, ":{"@) {
            match parse_exchanges(s, j + ":{"@.len()) {
                Some((xs, k)) => Some((AccountV { account: name, exchanges: xs }, k)),
                None => None,
            }
        } else {
            None
        },
        None => None,
    }
}

/// Reads the account list, up to and past the closing `}`.  A repeated
/// account name is rejected.
pub open spec fn parse_accounts(s: Seq<char>, i: int) -> Option<(Seq<AccountV>, int)>
    decreases s.len() - i,
{
    if at_ch(s, i, '}') {
        Some((Seq::empty(), i + 1))
    } else {
        match parse_account(s, i) {
            Some((a, j)) => if j <= i {
                None
            } else if at_ch(s, j, ',') {
                match parse_accounts(s, j + 1) {
                    Some((rest, k)) => if seq_has_account(rest, a.account) {
                        None
                    } else {
                        Some((seq![a] + rest, k))
                    },
                    None => None,
                }
            } else if at_ch(s, j, '}') {
                Some((seq![a], j + 1))
            } else {
                None
            },
            None => None,
        }
    }
}

/// What one line of the store means: a snapshot, if the whole line is one
/// well-formed record; nothing otherwise.
pub open spec fn parse_record(s: Seq<char>) -> Option<BalanceV> {
    if at_lit(s, 0, "{\"accounts\":{"@) {
        match parse_accounts(s, "{\"accounts\":{"@.len() as int) {
            Some((accs, i)) => if at_lit(s, i, ",\"timestamp\":"@) {
                match parse_nat(s, i + ",\"timestamp\":"@.len()) {
                    Some((ts, j)) => if ts <= u64::MAX as int && at_ch(s, j, '}') && j + 1
                        == s.len() {
                        Some(BalanceV { accounts: accs, timestamp: ts as u64 })
                    } else {
                        None
                    },
                    None => None,
                }
            } else {
                None
            },
            None => None,
        }
    } else {
        None
    }
}

} // verus!

verus! {

// ----------------------------------------------------------- exec parsing

fn is_digit_ch(c: char) -> (r: bool)
    ensures
        r == is_digit(c),
{
    let u = c as u32;
    48 <= u && u <= 57
}

/// Consumes the digit run from `j` on, keeping the running value while it
/// fits a `u64`.
#[verifier::loop_isolation(false)]
fn p_digits(s: &Vec<char>, i: usize, j: usize, acc: Option<u64>) -> (r: (Option<u64>, usize))
    requires
        i <= j,
        j <= s@.len(),
        forall|k: int| i <= k < j ==> is_digit(#[trigger] s@[k]),
        match acc {
            Some(u) => u as int == digits_val(s@, i as int, j as int),
            None => digits_val(s@, i as int, j as int) > u64::MAX as int,
        },
    ensures
        ({
            let (v, e) = r;
            &&& j <= e <= s@.len()
            &&& digit_run_end(s@, j as int) == e as int
            &&& match v {
                Some(u) => u as int == digits_val(s@, i as int, e as int),
                None => digits_val(s@, i as int, e as int) > u64::MAX as int,
            }
        }),
    decreases s@.len() - j,
{
    if j == s.len() {
        return (acc, j);
    }
    let c = s[j];
    if !is_digit_ch(c) {
        return (acc, j);
    }
    let d: u64 = (c as u32 - 48) as u64;
    proof {
        assert(d as int == digit_val(s@[j as int]));
        assert(0 <= d < 10);
        assert(digits_val(s@, i as int, j as int + 1) == digits_val(s@, i as int, j as int) * 10
            + d);
    }
    let acc2: Option<u64> = match acc {
        Some(u) => {
            if u <= (u64::MAX - d) / 10 {
                proof {
                    assert(u as int * 10 + d <= u64::MAX) by (nonlinear_arith)
                        requires
                            0 <= u as int <= (u64::MAX as int - d) / 10,
                            0 <= d < 10,
                    ;
                }
                Some(u * 10 + d)
            } else {
                proof {
                    assert(u as int * 10 + d > u64::MAX) by (nonlinear_arith)
                        requires
                            u as int > (u64::MAX as int - d) / 10,
                            0 <= d < 10,
                    ;
                }
                None
            }
        },
        None => {
            proof {
                assert(digits_val(s@, i as int, j as int) * 10 + d > u64::MAX) by (nonlinear_arith)
                    requires
                        digits_val(s@, i as int, j as int) > u64::MAX as int,
                        0 <= d,
                ;
            }
            None
        },
    };
    p_digits(s, i, j + 1, acc2)
}

/// Reads a digit run starting at `i`: the position past the run and, when it
/// fits, the value.
pub(crate) fn p_nat(s: &Vec<char>, i: usize) -> (r: Option<(Option<u64>, usize)>)
    ensures
        match r {
            Some((v, j)) => {
                &&& parse_nat(s@, i as int) matches Some((val, jj))
                &&& jj == j as int
                &&& j <= s@.len()
                &&& match v {
                    Some(u) => val == u as int,
                    None => val > u64::MAX as int,
                }
            },
            None => parse_nat(s@, i as int) is None,
        },
{
    if i >= s.len() {
        return None;
    }
    if !is_digit_ch(s[i]) {
        return None;
    }
    let (v, e) = p_digits(s, i, i, Some(0));
    proof {
        assert(digit_run_end(s@, i as int) == e as int);
        lemma_digit_run_end_ge(s@, i as int + 1);
        assert(e > i);
    }
    Some((v, e))
}

/// The end of a digit run never lies before its start.
proof fn lemma_digit_run_end_ge(s: Seq<char>, i: int)
    ensures
        digit_run_end(s, i) >= i,
    decreases s.len() - i,
{
    if 0 <= i < s.len() && is_digit(s[i]) {
        lemma_digit_run_end_ge(s, i + 1);
    }
}

/// Reads an optionally signed number that fits an `i64`.
fn p_int(s: &Vec<char>, i: usize) -> (r: Option<(i64, usize)>)
    ensures
        match r {
            Some((v, j)) => parse_i64_val(s@, i as int) == Some((v as int, j as int)) && j
                <= s@.len(),
            None => parse_i64_val(s@, i as int) is None,
        },
{
    if i < s.len() && s[i] == '-' {
        match p_nat(s, i + 1) {
            Some((Some(u), j)) => {
                if u <= 9223372036854775808u64 {
                    let v: i64 = (-(u as i128)) as i64;
                    proof {
                        assert(v as int == -(u as int));
                    }
                    Some((v, j))
                } else {
                    None
                }
            },
            Some((None, _)) => None,
            None => None,
        }
    } else {
        match p_nat(s, i) {
            Some((Some(u), j)) => {
                if u <= i64::MAX as u64 {
                    Some((u as i64, j))
                } else {
                    None
                }
            },
            Some((None, _)) => None,
            None => None,
        }
    }
}

/// Reads a string body after the opening quote.
fn p_str_rest(s: &Vec<char>, i: usize) -> (r: Option<(String, usize)>)
    ensures
        match r {
            Some((t, j)) => parse_str_rest(s@, i as int) == Some((t@, j as int)) && j <= s@.len(),
            None => parse_str_rest(s@, i as int) is None,
        },
    decreases s@.len() - i,
{
    if i >= s.len() {
        return None;
    }
    let c = s[i];
    if c == '"' {
        let t = String::new();
        return Some((t, i + 1));
    }
    if c == '\\' {
        if i + 1 < s.len() {
            let c2 = s[i + 1];
            if c2 == '"' || c2 == '\\' {
                match p_str_rest(s, i + 2) {
                    Some((t, j)) => {
                        let mut out = String::new();
                        out.push(c2);
                        out.append(t.as_str());
                        proof {
                            assert(out@ =~= seq![s@[i as int + 1]] + t@);
                        }
                        return Some((out, j));
                    },
                    None => {
                        return None;
                    },
                }
            }
        }
        return None;
    }
    if (c as u32) < 0x20 {
        return None;
    }
    match p_str_rest(s, i + 1) {
        Some((t, j)) => {
            let mut out = String::new();
            out.push(c);
            out.append(t.as_str());
            proof {
                assert(out@ =~= seq![s@[i as int]] + t@);
            }
            Some((out, j))
        },
        None => None,
    }
}

/// Reads a quoted string.
fn p_string(s: &Vec<char>, i: usize) -> (r: Option<(String, usize)>)
    ensures
        match r {
            Some((t, j)) => parse_string(s@, i as int) == Some((t@, j as int)) && j <= s@.len(),
            None => parse_string(s@, i as int) is None,
        },
{
    if i < s.len() && s[i] == '"' {
        p_str_rest(s, i + 1)
    } else {
        None
    }
}

/// Checks that `pat` spells out the characters at `i`.
#[verifier::loop_isolation(false)]
fn p_lit(s: &Vec<char>, i: usize, pat: &str) -> (r: Option<usize>)
    ensures
        match r {
            Some(j) => at_lit(s@, i as int, pat@) && j as int == i + pat@.len() && j <= s@.len(),
            None => !at_lit(s@, i as int, pat@),
        },
{
    let m = pat.unicode_len();
    if i > s.len() || m > s.len() - i {
        return None;
    }
    let mut k: usize = 0;
    while k < m
        invariant
            k <= m,
            forall|t: int| 0 <= t < k ==> s@[i + t] == pat@[t],
        decreases m - k,
    {
        if s[i + k] != pat.get_char(k) {
            proof {
                if at_lit(s@, i as int, pat@) {
                    assert(s@.subrange(i as int, i + pat@.len())[k as int] == pat@[k as int]);
                }
            }
            return None;
        }
        k += 1;
    }
    proof {
        assert(s@.subrange(i as int, i + pat@.len()) =~= pat@);
    }
    Some(i + m)
}

/// Reads one entry object.
fn p_entry(s: &Vec<char>, i: usize) -> (r: Option<(BotBalanceEntry, usize)>)
    ensures
        match r {
            Some((e, j)) => parse_entry(s@, i as int) == Some((e@, j as int)) && j <= s@.len(),
            None => parse_entry(s@, i as int) is None,
        },
{
    let j0 = match p_lit(s, i, "{\"coin\":") {
        Some(j) => j,
        None => {
            return None;
        },
    };
    let (coin, j1) = match p_string(s, j0) {
        Some(x) => x,
        None => {
            return None;
        },
    };
    let j2 = match p_lit(s, j1, ",\"amount\":") {
        Some(j) => j,
        None => {
            return None;
        },
    };
    let (amt, j3) = match p_int(s, j2) {
        Some(x) => x,
        None => {
            return None;
        },
    };
    if j3 < s.len() && s[j3] == '}' {
        Some((BotBalanceEntry { coin, amount: amt }, j3 + 1))
    } else {
        None
    }
}

/// Reads the entry list of an exchange.
fn p_entries(s: &Vec<char>, i: usize) -> (r: Option<(Vec<BotBalanceEntry>, usize)>)
    ensures
        match r {
            Some((es, j)) => parse_entries(s@, i as int) == Some(
                (es@.map_values(|e: BotBalanceEntry| e@), j as int),
            ) && j <= s@.len(),
            None => parse_entries(s@, i as int) is None,
        },
    decreases s@.len() - i,
{
    if i < s.len() && s[i] == ']' {
        let es: Vec<BotBalanceEntry> = Vec::new();
        proof {
            assert(es@.map_values(|e: BotBalanceEntry| e@) =~= Seq::<EntryV>::empty());
        }
        return Some((es, i + 1));
    }
    let (e, j) = match p_entry(s, i) {
        Some(x) => x,
        None => {
            return None;
        },
    };
    if j <= i {
        return None;
    }
    if j < s.len() && s[j] == ',' {
        match p_entries(s, j + 1) {
            Some((mut rest, k)) => {
                let ghost rest0 = rest@;
                rest.insert(0, e);
                proof {
                    assert(rest@.map_values(|x: BotBalanceEntry| x@) =~= seq![e@]
                        + rest0.map_values(|x: BotBalanceEntry| x@));
                }
                Some((rest, k))
            },
            None => None,
        }
    } else if j < s.len() && s[j] == ']' {
        let mut es: Vec<BotBalanceEntry> = Vec::new();
        es.push(e);
        proof {
            assert(es@.map_values(|x: BotBalanceEntry| x@) =~= seq![e@]);
        }
        Some((es, j + 1))
    } else {
        None
    }
}

/// `name` names one of the exchanges in the vector.
fn vec_has_exchange(xs: &Vec<ExchangeBalance>, name: &str) -> (r: bool)
    ensures
        r == seq_has_exchange(xs@.map_values(|x: ExchangeBalance| x@), name@),
{
    let ghost xvs = xs@.map_values(|x: ExchangeBalance| x@);
    let n = xs.len();
    let mut i: usize = 0;
    while i < n
        invariant
            xvs == xs@.map_values(|x: ExchangeBalance| x@),
            n == xs@.len(),
            i <= n,
            forall|k: int| 0 <= k < i ==> xvs[k].exchange != name@,
        decreases n - i,
    {
        if str_eq(xs[i].exchange.as_str(), name) {
            proof {
                assert(xvs[i as int].exchange == name@);
            }
            return true;
        }
        i += 1;
    }
    false
}

/// Reads one exchange.
fn p_exchange(s: &Vec<char>, i: usize) -> (r: Option<(ExchangeBalance, usize)>)
    ensures
        match r {
            Some((x, j)) => parse_exchange(s@, i as int) == Some((x@, j as int)) && j <= s@.len(),
            None => parse_exchange(s@, i as int) is None,
        },
{
    let (name, j0) = match p_string(s, i) {
        Some(x) => x,
        None => {
            return None;
        },
    };
    let j1 = match p_lit(s, j0, ":[") {
        Some(j) => j,
        None => {
            return None;
        },
    };
    match p_entries(s, j1) {
        Some((es, k)) => {
            let x = ExchangeBalance { exchange: name, entries: es };
            Some((x, k))
        },
        None => None,
    }
}

/// Reads the exchange list of an account.
fn p_exchanges(s: &Vec<char>, i: usize) -> (r: Option<(Vec<ExchangeBalance>, usize)>)
    ensures
        match r {
            Some((xs, j)) => parse_exchanges(s@, i as int) == Some(
                (xs@.map_values(|x: ExchangeBalance| x@), j as int),
            ) && j <= s@.len(),
            None => parse_exchanges(s@, i as int) is None,
        },
    decreases s@.len() - i,
{
    if i < s.len() && s[i] == '}' {
        let xs: Vec<ExchangeBalance> = Vec::new();
        proof {
            assert(xs@.map_values(|x: ExchangeBalance| x@) =~= Seq::<ExchangeV>::empty());
        }
        return Some((xs, i + 1));
    }
    let (x, j) = match p_exchange(s, i) {
        Some(v) => v,
        None => {
            return None;
        },
    };
    if j <= i {
        return None;
    }
    if j < s.len() && s[j] == ',' {
        match p_exchanges(s, j + 1) {
            Some((mut rest, k)) => {
                if vec_has_exchange(&rest, x.exchange.as_str()) {
                    None
                } else {
                    let ghost rest0 = rest@;
                    rest.insert(0, x);
                    proof {
                        assert(rest@.map_values(|y: ExchangeBalance| y@) =~= seq![
                            rest@[0]@,
                        ] + rest0.map_values(|y: ExchangeBalance| y@));
                    }
                    Some((rest, k))
                }
            },
            None => None,
        }
    } else if j < s.len() && s[j] == '}' {
        let mut xs: Vec<ExchangeBalance> = Vec::new();
        xs.push(x);
        proof {
            assert(xs@.map_values(|y: ExchangeBalance| y@) =~= seq![xs@[0]@]);
        }
        Some((xs, j + 1))
    } else {
        None
    }
}

/// `name` names one of the accounts in the vector.
fn vec_has_account(accs: &Vec<AccountBalance>, name: &str) -> (r: bool)
    ensures
        r == seq_has_account(accs@.map_values(|a: AccountBalance| a@), name@),
{
    let ghost avs = accs@.map_values(|a: AccountBalance| a@);
    let n = accs.len();
    let mut i: usize = 0;
    while i < n
        invariant
            avs == accs@.map_values(|a: AccountBalance| a@),
            n == accs@.len(),
            i <= n,
            forall|k: int| 0 <= k < i ==> avs[k].account != name@,
        decreases n - i,
    {
        if str_eq(accs[i].account.as_str(), name) {
            proof {
                assert(avs[i as int].account == name@);
            }
            return true;
        }
        i += 1;
    }
    false
}

/// Reads one account.
fn p_account(s: &Vec<char>, i: usize) -> (r: Option<(AccountBalance, usize)>)
    ensures
        match r {
            Some((a, j)) => parse_account(s@, i as int) == Some((a@, j as int)) && j <= s@.len(),
            None => parse_account(s@, i as int) is None,
        },
{
    let (name, j0) = match p_string(s, i) {
        Some(x) => x,
        None => {
            return None;
        },
    };
    let j1 = match p_lit(s, j0, ":{") {
        Some(j) => j,
        None => {
            return None;
        },
    };
    match p_exchanges(s, j1) {
        Some((xs, k)) => {
            let a = AccountBalance { account: name, exchanges: xs };
            Some((a, k))
        },
        None => None,
    }
}

/// Reads the account list.
fn p_accounts(s: &Vec<char>, i: usize) -> (r: Option<(Vec<AccountBalance>, usize)>)
    ensures
        match r {
            Some((accs, j)) => parse_accounts(s@, i as int) == Some(
                (accs@.map_values(|a: AccountBalance| a@), j as int),
            ) && j <= s@.len(),
            None => parse_accounts(s@, i as int) is None,
        },
    decreases s@.len() - i,
{
    if i < s.len() && s[i] == '}' {
        let accs: Vec<AccountBalance> = Vec::new();
        proof {
            assert(accs@.map_values(|a: AccountBalance| a@) =~= Seq::<AccountV>::empty());
        }
        return Some((accs, i + 1));
    }
    let (a, j) = match p_account(s, i) {
        Some(v) => v,
        None => {
            return None;
        },
    };
    if j <= i {
        return None;
    }
    if j < s.len() && s[j] == ',' {
        match p_accounts(s, j + 1) {
            Some((mut rest, k)) => {
                if vec_has_account(&rest, a.account.as_str()) {
                    None
                } else {
                    let ghost rest0 = rest@;
                    rest.insert(0, a);
                    proof {
                        assert(rest@.map_values(|y: AccountBalance| y@) =~= seq![
                            rest@[0]@,
                        ] + rest0.map_values(|y: AccountBalance| y@));
                    }
                    Some((rest, k))
                }
            },
            None => None,
        }
    } else if j < s.len() && s[j] == '}' {
        let mut accs: Vec<AccountBalance> = Vec::new();
        accs.push(a);
        proof {
            assert(accs@.map_values(|y: AccountBalance| y@) =~= seq![accs@[0]@]);
        }
        Some((accs, j + 1))
    } else {
        None
    }
}

/// Decodes one line into a snapshot; returns nothing exactly when the line
/// is not a record of the store's format.
pub fn decode_record(line: &str) -> (r: Option<BotBalance>)
    ensures
        match r {
            Some(b) => parse_record(line@) == Some(b@),
            None => parse_record(line@) is None,
        },
{
    let s = crate::text::str_chars(line);
    let j0 = match p_lit(&s, 0, "{\"accounts\":{") {
        Some(j) => j,
        None => {
            return None;
        },
    };
    let (accs, j1) = match p_accounts(&s, j0) {
        Some(x) => x,
        None => {
            return None;
        },
    };
    let j2 = match p_lit(&s, j1, ",\"timestamp\":") {
        Some(j) => j,
        None => {
            return None;
        },
    };
    let (ts, j3) = match p_nat(&s, j2) {
        Some((Some(u), j)) => (u, j),
        Some((None, _)) => {
            return None;
        },
        None => {
            return None;
        },
    };
    if j3 < s.len() && s[j3] == '}' && j3 + 1 == s.len() {
        Some(BotBalance { accounts: accs, timestamp: ts })
    } else {
        None
    }
}

} // verus!

verus! {

// ------------------------------------------------------- round-trip lemmas

/// A literal split: text spelling `a + b` spells `a`, then `b`.
proof fn lemma_at_lit_split(s: Seq<char>, i: int, a: Seq<char>, b: Seq<char>)
    requires
        at_lit(s, i, a + b),
    ensures
        at_lit(s, i, a),
        at_lit(s, i + a.len(), b),
{
    assert(s.subrange(i, i + a.len()) =~= a) by {
        assert forall|k: int| 0 <= k < a.len() implies s.subrange(i, i + a.len())[k] == a[k] by {
            assert(s.subrange(i, i + (a + b).len())[k] == (a + b)[k]);
        }
    }
    assert(s.subrange(i + a.len(), i + a.len() + b.len()) =~= b) by {
        assert forall|k: int| 0 <= k < b.len() implies s.subrange(
            i + a.len(),
            i + a.len() + b.len(),
        )[k] == b[k] by {
            assert(s.subrange(i, i + (a + b).len())[a.len() + k] == (a + b)[a.len() + k]);
        }
    }
}

/// Characters spelled by a literal are the literal's characters.
proof fn lemma_at_lit_index(s: Seq<char>, i: int, lit: Seq<char>, k: int)
    requires
        at_lit(s, i, lit),
        0 <= k < lit.len(),
    ensures
        s[i + k] == lit[k],
{
    assert(s.subrange(i, i + lit.len())[k] == lit[k]);
}

/// Parsing the escaped body of a clean name, followed by the closing quote,
/// gives the name back.
proof fn lemma_parse_str_rest_of_encode(s: Seq<char>, i: int, name: Seq<char>)
    requires
        wf_name(name),
        at_lit(s, i, encode_str_chars(name).push('"')),
    ensures
        parse_str_rest(s, i) == Some((name, i + encode_str_chars(name).len() + 1)),
    decreases name.len(),
{
    if name.len() == 0 {
        assert(encode_str_chars(name).push('"') =~= seq!['"']);
        lemma_at_lit_index(s, i, seq!['"'], 0);
        assert(parse_str_rest(s, i) == Some((Seq::<char>::empty(), i + 1)));
        assert(name =~= Seq::<char>::empty());
    } else {
        let c = name[0];
        let rest = name.skip(1);
        let enc_rest = encode_str_chars(rest).push('"');
        assert(!is_ctl_char(c));
        if c == '"' || c == '\\' {
            assert(encode_str_chars(name).push('"') =~= seq!['\\', c] + enc_rest);
            lemma_at_lit_split(s, i, seq!['\\', c], enc_rest);
            lemma_at_lit_index(s, i, seq!['\\', c], 0);
            lemma_at_lit_index(s, i, seq!['\\', c], 1);
            assert(s[i] == '\\');
            assert(s[i + 1] == c);
            assert(i + 1 < s.len());
            lemma_parse_str_rest_of_encode(s, i + 2, rest);
            assert(forall|k: int| 0 <= k < rest.len() ==> rest[k] == name[k + 1]);
            assert(seq![s[i + 1]] + rest =~= name);
        } else {
            assert(encode_str_chars(name).push('"') =~= seq![c] + enc_rest);
            lemma_at_lit_split(s, i, seq![c], enc_rest);
            lemma_at_lit_index(s, i, seq![c], 0);
            assert(s[i] == c);
            assert(c != '"' && c != '\\' && !is_ctl_char(c));
            lemma_parse_str_rest_of_encode(s, i + 1, rest);
            assert(seq![s[i]] + rest =~= name);
        }
    }
}

/// Parsing an encoded string gives the name back.
proof fn lemma_parse_string_of_encode(s: Seq<char>, i: int, name: Seq<char>)
    requires
        wf_name(name),
        at_lit(s, i, encode_string(name)),
    ensures
        parse_string(s, i) == Some((name, i + encode_string(name).len())),
{
    assert(encode_string(name) =~= seq!['"'] + encode_str_chars(name).push('"'));
    lemma_at_lit_split(s, i, seq!['"'], encode_str_chars(name).push('"'));
    lemma_at_lit_index(s, i, seq!['"'], 0);
    lemma_parse_str_rest_of_encode(s, i + 1, name);
}

/// Digit characters carry their digit's value.
proof fn lemma_digit_char_val(d: int)
    requires
        0 <= d < 10,
    ensures
        is_digit(digit_char(d)),
        digit_val(digit_char(d)) == d,
{
    assert('0' as u32 == 48);
    assert('1' as u32 == 49);
    assert('2' as u32 == 50);
    assert('3' as u32 == 51);
    assert('4' as u32 == 52);
    assert('5' as u32 == 53);
    assert('6' as u32 == 54);
    assert('7' as u32 == 55);
    assert('8' as u32 == 56);
    assert('9' as u32 == 57);
}

/// Every character of an encoded number is a digit.
proof fn lemma_encode_nat_digits(n: int)
    requires
        n >= 0,
    ensures
        forall|k: int|
            0 <= k < encode_nat(n).len() ==> is_digit(#[trigger] encode_nat(n)[k]),
    decreases n,
{
    if n < 10 {
        lemma_digit_char_val(n);
        assert(encode_nat(n)[0] == digit_char(n));
    } else {
        lemma_encode_nat_digits(n / 10);
        lemma_digit_char_val(n % 10);
        assert forall|k: int| 0 <= k < encode_nat(n).len() implies is_digit(
            #[trigger] encode_nat(n)[k],
        ) by {
            if k < encode_nat(n / 10).len() {
                assert(encode_nat(n)[k] == encode_nat(n / 10)[k]);
            } else {
                assert(encode_nat(n)[k] == digit_char(n % 10));
            }
        }
    }
}

/// A digit run bounded by a non-digit ends exactly at the boundary.
proof fn lemma_digit_run(s: Seq<char>, i: int, e: int)
    requires
        0 <= i <= e <= s.len(),
        forall|k: int| i <= k < e ==> is_digit(#[trigger] s[k]),
        e == s.len() || !is_digit(s[e]),
    ensures
        digit_run_end(s, i) == e,
    decreases e - i,
{
    if i < e {
        lemma_digit_run(s, i + 1, e);
    }
}

/// Reading back the digits of an encoded number gives the number.
proof fn lemma_digits_val_of_encode(s: Seq<char>, i: int, n: int)
    requires
        n >= 0,
        at_lit(s, i, encode_nat(n)),
    ensures
        digits_val(s, i, i + encode_nat(n).len()) == n,
    decreases n,
{
    if n < 10 {
        lemma_at_lit_index(s, i, encode_nat(n), 0);
        lemma_digit_char_val(n);
        assert(digits_val(s, i, i) == 0);
        assert(s[i] == digit_char(n));
        assert(digits_val(s, i, i + 1) == digits_val(s, i, i) * 10 + digit_val(s[i]));
    } else {
        let pre = encode_nat(n / 10);
        assert(encode_nat(n) =~= pre + seq![digit_char(n % 10)]);
        lemma_at_lit_split(s, i, pre, seq![digit_char(n % 10)]);
        lemma_digits_val_of_encode(s, i, n / 10);
        lemma_at_lit_index(s, i + pre.len(), seq![digit_char(n % 10)], 0);
        lemma_digit_char_val(n % 10);
        assert(digits_val(s, i, i + encode_nat(n).len()) == digits_val(s, i, i + pre.len()) * 10
            + digit_val(s[i + pre.len()]));
    }
}

/// Parsing an encoded nonnegative number, bounded by a non-digit, gives the
/// number back.
proof fn lemma_parse_nat_of_encode(s: Seq<char>, i: int, n: int)
    requires
        n >= 0,
        at_lit(s, i, encode_nat(n)),
        i + encode_nat(n).len() == s.len() || !is_digit(s[i + encode_nat(n).len()]),
    ensures
        parse_nat(s, i) == Some((n, i + encode_nat(n).len())),
{
    let e = i + encode_nat(n).len();
    lemma_encode_nat_digits(n);
    assert forall|k: int| i <= k < e implies is_digit(#[trigger] s[k]) by {
        lemma_at_lit_index(s, i, encode_nat(n), k - i);
    }
    lemma_digit_run(s, i, e);
    lemma_digits_val_of_encode(s, i, n);
    assert(encode_nat(n).len() >= 1) by {
        if n < 10 {
        }
    }
}

/// Parsing an encoded signed number in `i64` range, bounded by a non-digit,
/// gives the number back.
proof fn lemma_parse_int_of_encode(s: Seq<char>, i: int, n: int)
    requires
        i64::MIN <= n <= i64::MAX,
        at_lit(s, i, encode_int(n)),
        i + encode_int(n).len() == s.len() || !is_digit(s[i + encode_int(n).len()]),
    ensures
        parse_i64_val(s, i) == Some((n, i + encode_int(n).len())),
{
    if n < 0 {
        assert(encode_int(n) =~= seq!['-'] + encode_nat(-n));
        lemma_at_lit_split(s, i, seq!['-'], encode_nat(-n));
        lemma_at_lit_index(s, i, seq!['-'], 0);
        lemma_parse_nat_of_encode(s, i + 1, -n);
        assert(at_ch(s, i, '-'));
    } else {
        lemma_parse_nat_of_encode(s, i, n);
        lemma_at_lit_index(s, i, encode_nat(n), 0);
        lemma_encode_nat_digits(n);
        assert(is_digit(s[i]));
        assert(!at_ch(s, i, '-'));
    }
}

/// Parsing an encoded entry gives the entry back.
proof fn lemma_parse_entry_of_encode(s: Seq<char>, i: int, e: EntryV)
    requires
        e.wf(),
        at_lit(s, i, encode_entry(e)),
    ensures
        parse_entry(s, i) == Some((e, i + encode_entry(e).len())),
        s[i] == '{',
        i + encode_entry(e).len() > i,
{
    let l1 = "{\"coin\":"@;
    let l2 = ",\"amount\":"@;
    let l3 = "}"@;
    let t1 = encode_string(e.coin);
    let t2 = encode_int(e.amount);
    reveal_strlit("{\"coin\":");
    reveal_strlit(",\"amount\":");
    reveal_strlit("}");
    assert(encode_entry(e) =~= l1 + (t1 + (l2 + (t2 + l3))));
    lemma_at_lit_split(s, i, l1, t1 + (l2 + (t2 + l3)));
    let i1 = i + l1.len();
    lemma_at_lit_split(s, i1, t1, l2 + (t2 + l3));
    let i2 = i1 + t1.len();
    lemma_at_lit_split(s, i2, l2, t2 + l3);
    let i3 = i2 + l2.len();
    lemma_at_lit_split(s, i3, t2, l3);
    let i4 = i3 + t2.len();
    lemma_parse_string_of_encode(s, i1, e.coin);
    lemma_at_lit_index(s, i4, l3, 0);
    assert(s[i4] == '}');
    assert(!is_digit('}'));
    lemma_parse_int_of_encode(s, i3, e.amount);
    lemma_at_lit_index(s, i, l1, 0);
    assert(s[i] == '{');
    assert(at_ch(s, i4, '}'));
}

/// Parsing an encoded entry list, bounded by `]`, gives the entries back.
proof fn lemma_parse_entries_of_encode(s: Seq<char>, i: int, es: Seq<EntryV>)
    requires
        forall|k: int| 0 <= k < es.len() ==> (#[trigger] es[k]).wf(),
        at_lit(s, i, encode_entries(es)),
        at_ch(s, i + encode_entries(es).len(), ']'),
    ensures
        parse_entries(s, i) == Some((es, i + encode_entries(es).len() + 1)),
    decreases es.len(),
{
    if es.len() == 0 {
        assert(encode_entries(es).len() == 0);
        assert(at_ch(s, i, ']'));
        assert(es =~= Seq::<EntryV>::empty());
    } else if es.len() == 1 {
        lemma_parse_entry_of_encode(s, i, es[0]);
        let j = i + encode_entry(es[0]).len();
        assert(s[i] == '{');
        assert(!at_ch(s, i, ']'));
        assert(s[j] == ']');
        assert(!at_ch(s, j, ','));
        assert(seq![es[0]] =~= es);
    } else {
        let enc0 = encode_entry(es[0]);
        let encr = encode_entries(es.skip(1));
        assert(encode_entries(es) =~= enc0 + (seq![','] + encr));
        lemma_at_lit_split(s, i, enc0, seq![','] + encr);
        let j = i + enc0.len();
        lemma_at_lit_split(s, j, seq![','], encr);
        lemma_at_lit_index(s, j, seq![','], 0);
        lemma_parse_entry_of_encode(s, i, es[0]);
        assert(!at_ch(s, i, ']'));
        assert(at_ch(s, j, ','));
        assert forall|k: int| 0 <= k < es.skip(1).len() implies (#[trigger] es.skip(
            1,
        )[k]).wf() by {
            assert(es.skip(1)[k] == es[k + 1]);
        }
        lemma_parse_entries_of_encode(s, j + 1, es.skip(1));
        assert(seq![es[0]] + es.skip(1) =~= es);
    }
}

/// Parsing an encoded exchange gives it back.
proof fn lemma_parse_exchange_of_encode(s: Seq<char>, i: int, x: ExchangeV)
    requires
        x.wf(),
        at_lit(s, i, encode_exchange(x)),
    ensures
        parse_exchange(s, i) == Some((x, i + encode_exchange(x).len())),
        s[i] == '"',
        i + encode_exchange(x).len() > i,
{
    let l1 = ":["@;
    let l2 = "]"@;
    let t1 = encode_string(x.exchange);
    let t2 = encode_entries(x.entries);
    reveal_strlit(":[");
    reveal_strlit("]");
    assert(encode_exchange(x) =~= t1 + (l1 + (t2 + l2)));
    lemma_at_lit_split(s, i, t1, l1 + (t2 + l2));
    let i1 = i + t1.len();
    lemma_at_lit_split(s, i1, l1, t2 + l2);
    let i2 = i1 + l1.len();
    lemma_at_lit_split(s, i2, t2, l2);
    let i3 = i2 + t2.len();
    lemma_parse_string_of_encode(s, i, x.exchange);
    lemma_at_lit_index(s, i3, l2, 0);
    assert(at_ch(s, i3, ']'));
    lemma_parse_entries_of_encode(s, i2, x.entries);
    assert(encode_string(x.exchange) =~= seq!['"'] + encode_str_chars(x.exchange).push('"'));
    lemma_at_lit_index(s, i, encode_string(x.exchange), 0);
    assert(s[i] == '"');
}

/// Parsing an encoded exchange list with distinct names, bounded by `}`,
/// gives it back.
proof fn lemma_parse_exchanges_of_encode(s: Seq<char>, i: int, xs: Seq<ExchangeV>)
    requires
        forall|k: int| 0 <= k < xs.len() ==> (#[trigger] xs[k]).wf(),
        forall|p: int, q: int| 0 <= p < q < xs.len() ==> xs[p].exchange != xs[q].exchange,
        at_lit(s, i, encode_exchanges(xs)),
        at_ch(s, i + encode_exchanges(xs).len(), '}'),
    ensures
        parse_exchanges(s, i) == Some((xs, i + encode_exchanges(xs).len() + 1)),
    decreases xs.len(),
{
    if xs.len() == 0 {
        assert(at_ch(s, i, '}'));
        assert(xs =~= Seq::<ExchangeV>::empty());
    } else if xs.len() == 1 {
        lemma_parse_exchange_of_encode(s, i, xs[0]);
        let j = i + encode_exchange(xs[0]).len();
        assert(!at_ch(s, i, '}'));
        assert(!at_ch(s, j, ','));
        assert(seq![xs[0]] =~= xs);
    } else {
        let enc0 = encode_exchange(xs[0]);
        let encr = encode_exchanges(xs.skip(1));
        assert(encode_exchanges(xs) =~= enc0 + (seq![','] + encr));
        lemma_at_lit_split(s, i, enc0, seq![','] + encr);
        let j = i + enc0.len();
        lemma_at_lit_split(s, j, seq![','], encr);
        lemma_at_lit_index(s, j, seq![','], 0);
        lemma_parse_exchange_of_encode(s, i, xs[0]);
        assert(!at_ch(s, i, '}'));
        assert(at_ch(s, j, ','));
        assert forall|k: int| 0 <= k < xs.skip(1).len() implies (#[trigger] xs.skip(
            1,
        )[k]).wf() by {
            assert(xs.skip(1)[k] == xs[k + 1]);
        }
        assert forall|p: int, q: int|
            0 <= p < q < xs.skip(1).len() implies xs.skip(1)[p].exchange != xs.skip(
            1,
        )[q].exchange by {
            assert(xs.skip(1)[p] == xs[p + 1]);
            assert(xs.skip(1)[q] == xs[q + 1]);
        }
        lemma_parse_exchanges_of_encode(s, j + 1, xs.skip(1));
        assert(!seq_has_exchange(xs.skip(1), xs[0].exchange)) by {
            if seq_has_exchange(xs.skip(1), xs[0].exchange) {
                let k = choose|k: int|
                    0 <= k < xs.skip(1).len() && xs.skip(1)[k].exchange == xs[0].exchange;
                assert(xs[k + 1].exchange == xs[0].exchange);
            }
        }
        assert(seq![xs[0]] + xs.skip(1) =~= xs);
    }
}

/// Parsing an encoded account gives it back.
proof fn lemma_parse_account_of_encode(s: Seq<char>, i: int, a: AccountV)
    requires
        a.wf(),
        at_lit(s, i, encode_account(a)),
    ensures
        parse_account(s, i) == Some((a, i + encode_account(a).len())),
        s[i] == '"',
        i + encode_account(a).len() > i,
{
    let l1 = ":{"@;
    let l2 = "}"@;
    let t1 = encode_string(a.account);
    let t2 = encode_exchanges(a.exchanges);
    reveal_strlit(":{");
    reveal_strlit("}");
    assert(encode_account(a) =~= t1 + (l1 + (t2 + l2)));
    lemma_at_lit_split(s, i, t1, l1 + (t2 + l2));
    let i1 = i + t1.len();
    lemma_at_lit_split(s, i1, l1, t2 + l2);
    let i2 = i1 + l1.len();
    lemma_at_lit_split(s, i2, t2, l2);
    let i3 = i2 + t2.len();
    lemma_parse_string_of_encode(s, i, a.account);
    lemma_at_lit_index(s, i3, l2, 0);
    assert(at_ch(s, i3, '}'));
    lemma_parse_exchanges_of_encode(s, i2, a.exchanges);
    assert(encode_string(a.account) =~= seq!['"'] + encode_str_chars(a.account).push('"'));
    lemma_at_lit_index(s, i, encode_string(a.account), 0);
    assert(s[i] == '"');
}

/// Parsing an encoded account list with distinct names, bounded by `}`,
/// gives it back.
proof fn lemma_parse_accounts_of_encode(s: Seq<char>, i: int, accs: Seq<AccountV>)
    requires
        forall|k: int| 0 <= k < accs.len() ==> (#[trigger] accs[k]).wf(),
        forall|p: int, q: int| 0 <= p < q < accs.len() ==> accs[p].account != accs[q].account,
        at_lit(s, i, encode_accounts(accs)),
        at_ch(s, i + encode_accounts(accs).len(), '}'),
    ensures
        parse_accounts(s, i) == Some((accs, i + encode_accounts(accs).len() + 1)),
    decreases accs.len(),
{
    if accs.len() == 0 {
        assert(at_ch(s, i, '}'));
        assert(accs =~= Seq::<AccountV>::empty());
    } else if accs.len() == 1 {
        lemma_parse_account_of_encode(s, i, accs[0]);
        let j = i + encode_account(accs[0]).len();
        assert(!at_ch(s, i, '}'));
        assert(!at_ch(s, j, ','));
        assert(seq![accs[0]] =~= accs);
    } else {
        let enc0 = encode_account(accs[0]);
        let encr = encode_accounts(accs.skip(1));
        assert(encode_accounts(accs) =~= enc0 + (seq![','] + encr));
        lemma_at_lit_split(s, i, enc0, seq![','] + encr);
        let j = i + enc0.len();
        lemma_at_lit_split(s, j, seq![','], encr);
        lemma_at_lit_index(s, j, seq![','], 0);
        lemma_parse_account_of_encode(s, i, accs[0]);
        assert(!at_ch(s, i, '}'));
        assert(at_ch(s, j, ','));
        assert forall|k: int| 0 <= k < accs.skip(1).len() implies (#[trigger] accs.skip(
            1,
        )[k]).wf() by {
            assert(accs.skip(1)[k] == accs[k + 1]);
        }
        assert forall|p: int, q: int|
            0 <= p < q < accs.skip(1).len() implies accs.skip(1)[p].account != accs.skip(
            1,
        )[q].account by {
            assert(accs.skip(1)[p] == accs[p + 1]);
            assert(accs.skip(1)[q] == accs[q + 1]);
        }
        lemma_parse_accounts_of_encode(s, j + 1, accs.skip(1));
        assert(!seq_has_account(accs.skip(1), accs[0].account)) by {
            if seq_has_account(accs.skip(1), accs[0].account) {
                let k = choose|k: int|
                    0 <= k < accs.skip(1).len() && accs.skip(1)[k].account == accs[0].account;
                assert(accs[k + 1].account == accs[0].account);
            }
        }
        assert(seq![accs[0]] + accs.skip(1) =~= accs);
    }
}

/// The text after the account list: the closing brace, then the timestamp
/// field's name.
proof fn lemma_close_then_timestamp(s: Seq<char>, i: int)
    requires
        at_lit(s, i, "},\"timestamp\":"@),
    ensures
        at_ch(s, i, '}'),
        at_lit(s, i + 1, ",\"timestamp\":"@),
        (",\"timestamp\":"@).len() + 1 == ("},\"timestamp\":"@).len(),
{
    reveal_strlit("},\"timestamp\":");
    reveal_strlit(",\"timestamp\":");
    assert(("},\"timestamp\":"@) =~= seq!['}'] + (",\"timestamp\":"@));
    lemma_at_lit_split(s, i, seq!['}'], ",\"timestamp\":"@);
    lemma_at_lit_index(s, i, seq!['}'], 0);
}

/// A lone closing brace: not a digit.
proof fn lemma_rbrace(s: Seq<char>, i: int)
    requires
        at_lit(s, i, "}"@),
    ensures
        at_ch(s, i, '}'),
        !is_digit(s[i]),
        ("}"@).len() == 1,
{
    reveal_strlit("}");
    lemma_at_lit_index(s, i, "}"@, 0);
}

/// Round trip: parsing the encoding of a well-formed snapshot gives the
/// snapshot back.  With this, whatever the store writes, its readers decode.
#[verifier::rlimit(100)]
pub proof fn lemma_parse_encode_record(b: BalanceV)
    requires
        b.wf(),
    ensures
        parse_record(encode_record(b)) == Some(b),
{
    let s = encode_record(b);
    let l0 = "{\"accounts\":{"@;
    let l1 = "},\"timestamp\":"@;
    let l2 = "}"@;
    let t1 = encode_accounts(b.accounts);
    let t2 = encode_nat(b.timestamp as int);
    let part1 = l0 + t1;
    let part2 = part1 + l1;
    let part3 = part2 + t2;
    assert(s == part3 + l2);
    assert(at_lit(s, 0, s)) by {
        assert(s.subrange(0, s.len() as int) =~= s);
    }
    lemma_at_lit_split(s, 0, part3, l2);
    lemma_at_lit_split(s, 0, part2, t2);
    lemma_at_lit_split(s, 0, part1, l1);
    lemma_at_lit_split(s, 0, l0, t1);
    lemma_close_then_timestamp(s, part1.len() as int);
    lemma_parse_accounts_of_encode(s, l0.len() as int, b.accounts);
    lemma_rbrace(s, part3.len() as int);
    lemma_parse_nat_of_encode(s, part2.len() as int, b.timestamp as int);
    assert(part3.len() + 1 == s.len());
}

// --------------------------------------------------- what parsing produces

/// Every character inside a digit run is a digit.
proof fn lemma_digit_run_chars(s: Seq<char>, i: int)
    ensures
        forall|k: int| i <= k < digit_run_end(s, i) ==> is_digit(#[trigger] s[k]),
    decreases s.len() - i,
{
    if 0 <= i < s.len() && is_digit(s[i]) {
        lemma_digit_run_chars(s, i + 1);
        lemma_digit_run_end_ge(s, i + 1);
    }
}

/// The value of a digit run is nonnegative.
proof fn lemma_digits_val_nonneg(s: Seq<char>, i: int, j: int)
    requires
        forall|k: int| i <= k < j ==> is_digit(#[trigger] s[k]),
    ensures
        digits_val(s, i, j) >= 0,
    decreases j - i,
{
    if j > i {
        lemma_digits_val_nonneg(s, i, j - 1);
    }
}

/// A parsed string body is a clean name.
proof fn lemma_parse_str_rest_wf(s: Seq<char>, i: int)
    requires
        parse_str_rest(s, i) is Some,
    ensures
        wf_name(parse_str_rest(s, i).unwrap().0),
    decreases s.len() - i,
{
    if s[i] == '"' {
    } else if s[i] == '\\' {
        lemma_parse_str_rest_wf(s, i + 2);
    } else {
        lemma_parse_str_rest_wf(s, i + 1);
    }
}

/// A parsed entry is well formed.
proof fn lemma_parse_entry_wf(s: Seq<char>, i: int)
    requires
        parse_entry(s, i) is Some,
    ensures
        parse_entry(s, i).unwrap().0.wf(),
{
    let l1 = "{\"coin\":"@;
    let l2 = ",\"amount\":"@;
    lemma_parse_str_rest_wf(s, i + l1.len() + 1);
    let (coin, j) = parse_string(s, i + l1.len()).unwrap();
    assert(wf_name(coin));
    let pos = j + l2.len();
    if at_ch(s, pos, '-') {
        lemma_digit_run_chars(s, pos + 1);
        lemma_digits_val_nonneg(s, pos + 1, digit_run_end(s, pos + 1));
    } else {
        lemma_digit_run_chars(s, pos);
        lemma_digits_val_nonneg(s, pos, digit_run_end(s, pos));
    }
    let (amt, k) = parse_i64_val(s, pos).unwrap();
    assert(i64::MIN <= amt <= i64::MAX);
    assert(parse_entry(s, i).unwrap().0 == EntryV { coin, amount: amt });
}

/// Parsed entry lists are well formed.
proof fn lemma_parse_entries_wf(s: Seq<char>, i: int)
    requires
        parse_entries(s, i) is Some,
    ensures
        forall|k: int|
            0 <= k < parse_entries(s, i).unwrap().0.len() ==> (#[trigger] parse_entries(
                s,
                i,
            ).unwrap().0[k]).wf(),
    decreases s.len() - i,
{
    if at_ch(s, i, ']') {
    } else {
        let (e, j) = parse_entry(s, i).unwrap();
        lemma_parse_entry_wf(s, i);
        if at_ch(s, j, ',') {
            lemma_parse_entries_wf(s, j + 1);
            let rest = parse_entries(s, j + 1).unwrap().0;
            assert forall|k: int|
                0 <= k < parse_entries(s, i).unwrap().0.len() implies (#[trigger] parse_entries(
                s,
                i,
            ).unwrap().0[k]).wf() by {
                if k > 0 {
                    assert(parse_entries(s, i).unwrap().0[k] == rest[k - 1]);
                }
            }
        }
    }
}

/// A parsed exchange is well formed.
proof fn lemma_parse_exchange_wf(s: Seq<char>, i: int)
    requires
        parse_exchange(s, i) is Some,
    ensures
        parse_exchange(s, i).unwrap().0.wf(),
{
    lemma_parse_str_rest_wf(s, i + 1);
    let (name, j) = parse_string(s, i).unwrap();
    lemma_parse_entries_wf(s, j + ":["@.len());
}

/// Parsed exchange lists are well formed and free of repeated names.
proof fn lemma_parse_exchanges_wf(s: Seq<char>, i: int)
    requires
        parse_exchanges(s, i) is Some,
    ensures
        forall|k: int|
            0 <= k < parse_exchanges(s, i).unwrap().0.len() ==> (#[trigger] parse_exchanges(
                s,
                i,
            ).unwrap().0[k]).wf(),
        forall|p: int, q: int|
            0 <= p < q < parse_exchanges(s, i).unwrap().0.len() ==> parse_exchanges(
                s,
                i,
            ).unwrap().0[p].exchange != parse_exchanges(s, i).unwrap().0[q].exchange,
    decreases s.len() - i,
{
    if at_ch(s, i, '}') {
    } else {
        let (x, j) = parse_exchange(s, i).unwrap();
        lemma_parse_exchange_wf(s, i);
        if at_ch(s, j, ',') {
            lemma_parse_exchanges_wf(s, j + 1);
            let rest = parse_exchanges(s, j + 1).unwrap().0;
            let whole = parse_exchanges(s, i).unwrap().0;
            assert forall|k: int| 0 <= k < whole.len() implies (#[trigger] whole[k]).wf() by {
                if k > 0 {
                    assert(whole[k] == rest[k - 1]);
                }
            }
            assert forall|p: int, q: int| 0 <= p < q < whole.len() implies whole[p].exchange
                != whole[q].exchange by {
                if p == 0 {
                    assert(whole[q] == rest[q - 1]);
                    assert(!seq_has_exchange(rest, x.exchange));
                } else {
                    assert(whole[p] == rest[p - 1]);
                    assert(whole[q] == rest[q - 1]);
                }
            }
        }
    }
}

/// A parsed account is well formed.
proof fn lemma_parse_account_wf(s: Seq<char>, i: int)
    requires
        parse_account(s, i) is Some,
    ensures
        parse_account(s, i).unwrap().0.wf(),
{
    lemma_parse_str_rest_wf(s, i + 1);
    let (name, j) = parse_string(s, i).unwrap();
    lemma_parse_exchanges_wf(s, j + ":{"@.len());
}

/// Parsed account lists are well formed and free of repeated names.
proof fn lemma_parse_accounts_wf(s: Seq<char>, i: int)
    requires
        parse_accounts(s, i) is Some,
    ensures
        forall|k: int|
            0 <= k < parse_accounts(s, i).unwrap().0.len() ==> (#[trigger] parse_accounts(
                s,
                i,
            ).unwrap().0[k]).wf(),
        forall|p: int, q: int|
            0 <= p < q < parse_accounts(s, i).unwrap().0.len() ==> parse_accounts(
                s,
                i,
            ).unwrap().0[p].account != parse_accounts(s, i).unwrap().0[q].account,
    decreases s.len() - i,
{
    if at_ch(s, i, '}') {
    } else {
        let (a, j) = parse_account(s, i).unwrap();
        lemma_parse_account_wf(s, i);
        if at_ch(s, j, ',') {
            lemma_parse_accounts_wf(s, j + 1);
            let rest = parse_accounts(s, j + 1).unwrap().0;
            let whole = parse_accounts(s, i).unwrap().0;
            assert forall|k: int| 0 <= k < whole.len() implies (#[trigger] whole[k]).wf() by {
                if k > 0 {
                    assert(whole[k] == rest[k - 1]);
                }
            }
            assert forall|p: int, q: int| 0 <= p < q < whole.len() implies whole[p].account
                != whole[q].account by {
                if p == 0 {
                    assert(whole[q] == rest[q - 1]);
                    assert(!seq_has_account(rest, a.account));
                } else {
                    assert(whole[p] == rest[p - 1]);
                    assert(whole[q] == rest[q - 1]);
                }
            }
        }
    }
}

/// Whatever a line parses to is a well-formed snapshot.
pub proof fn lemma_parse_record_wf(line: Seq<char>)
    requires
        parse_record(line) is Some,
    ensures
        parse_record(line).unwrap().wf(),
{
    lemma_parse_accounts_wf(line, "{\"accounts\":{"@.len() as int);
}

} // verus!
