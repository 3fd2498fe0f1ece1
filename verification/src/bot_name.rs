//! Bot-name normalization.
//!
//! Deployed bot instances are named `hummingbot-<name>-YYYY.MM.DD_HH.MM`.
//! [`extract_bot_name`] recovers `<name>`: it finds the leftmost position
//! where the pattern matches and takes the longest underscore-free name that
//! still leaves a dash and a date stamp — the same match the greedy pattern
//! of the original tooling picks.  [`beautify_bot_name`] keeps everything
//! between the marker and the last dash of the line.

use vstd::prelude::*;
use crate::codec::is_digit;
use crate::text::{collect_chars, find_char, str_chars};

verus! {

/// The marker `hummingbot-` stands at `p`.
pub open spec fn prefix_at(s: Seq<char>, p: int) -> bool {
    &&& p >= 0
    &&& p + 11 <= s.len()
    &&& s.subrange(p, p + 11) == "hummingbot-"@
}

/// A date stamp `YYYY.MM.DD_HH.MM` stands at `i`.
pub open spec fn date_at(s: Seq<char>, i: int) -> bool {
    &&& i >= 0
    &&& i + 16 <= s.len()
    &&& is_digit(s[i]) && is_digit(s[i + 1]) && is_digit(s[i + 2]) && is_digit(s[i + 3])
    &&& s[i + 4] == '.'
    &&& is_digit(s[i + 5]) && is_digit(s[i + 6])
    &&& s[i + 7] == '.'
    &&& is_digit(s[i + 8]) && is_digit(s[i + 9])
    &&& s[i + 10] == '_'
    &&& is_digit(s[i + 11]) && is_digit(s[i + 12])
    &&& s[i + 13] == '.'
    &&& is_digit(s[i + 14]) && is_digit(s[i + 15])
}

/// At marker position `p`, a name of `k` underscore-free characters is
/// followed by a dash and a date stamp.
pub open spec fn cap_ok(s: Seq<char>, p: int, k: int) -> bool {
    &&& prefix_at(s, p)
    &&& k >= 1
    &&& p + 11 + k + 17 <= s.len()
    &&& (forall|m: int| p + 11 <= m < p + 11 + k ==> s[m] != '_')
    &&& s[p + 11 + k] == '-'
    &&& date_at(s, p + 12 + k)
}

/// The pattern matches with its name starting at `p + 11`.
pub open spec fn match_at(s: Seq<char>, p: int) -> bool {
    exists|k: int| cap_ok(s, p, k)
}

/// Recovers the bot's short name: the capture of the leftmost match, with
/// the longest name the pattern allows; nothing when the pattern does not
/// match anywhere.
#[verifier::loop_isolation(false)]
pub fn extract_bot_name(bot_name: &str) -> (r: Option<String>)
    ensures
        match r {
            Some(name) => exists|p: int, k: int|
                {
                    &&& #[trigger] cap_ok(bot_name@, p, k)
                    &&& name@ == bot_name@.subrange(p + 11, p + 11 + k)
                    &&& forall|q: int| 0 <= q < p ==> !match_at(bot_name@, q)
                    &&& forall|k2: int| k2 > k ==> !cap_ok(bot_name@, p, k2)
                },
            None => forall|p: int| !match_at(bot_name@, p),
        },
{
    let s = str_chars(bot_name);
    let n = s.len();
    if n < 29 {
        proof {
            assert forall|p: int| !match_at(bot_name@, p) by {
                if match_at(bot_name@, p) {
                    let k = choose|k: int| cap_ok(bot_name@, p, k);
                }
            }
        }
        return None;
    }
    let mut p: usize = 0;
    while p <= n - 29
        invariant
            s@ == bot_name@,
            n == s@.len(),
            n >= 29,
            p <= n - 29 + 1,
            forall|q: int| 0 <= q < p ==> !match_at(bot_name@, q),
        decreases n - p,
    {
        if check_prefix(&s, p) {
            // The name may reach to the next underscore (or the end).
            let u = find_char(&s, p + 11, '_');
            // Longest name first: the greedy capture.
            let mut k: usize = u - (p + 11);
            while k >= 1
                invariant
                    s@ == bot_name@,
                    n == s@.len(),
                    k <= u - (p + 11),
                    u <= n,
                    u == n || s@[u as int] == '_',
                    prefix_at(s@, p as int),
                    forall|m: int| p + 11 <= m < u ==> s@[m] != '_',
                    forall|k2: int| k2 > k ==> !cap_ok(bot_name@, p as int, k2),
                decreases k,
            {
                let avail = n - (p + 11);
                if avail - k >= 17 && s[p + 11 + k] == '-' && check_date(&s, p + 12 + k) {
                    let name = collect_chars(&s, p + 11, p + 11 + k);
                    proof {
                        assert(cap_ok(bot_name@, p as int, k as int));
                        assert(name@ == bot_name@.subrange(
                            p as int + 11,
                            p as int + 11 + k as int,
                        ));
                        assert(exists|pp: int, kk: int|
                            {
                                &&& #[trigger] cap_ok(bot_name@, pp, kk)
                                &&& name@ == bot_name@.subrange(pp + 11, pp + 11 + kk)
                                &&& forall|q: int| 0 <= q < pp ==> !match_at(bot_name@, q)
                                &&& forall|k2: int| k2 > kk ==> !cap_ok(bot_name@, pp, k2)
                            }) by {
                            assert({
                                &&& cap_ok(bot_name@, p as int, k as int)
                                &&& name@ == bot_name@.subrange(
                                    p as int + 11,
                                    p as int + 11 + k as int,
                                )
                                &&& forall|q: int| 0 <= q < p as int ==> !match_at(bot_name@, q)
                                &&& forall|k2: int|
                                    k2 > k as int ==> !cap_ok(bot_name@, p as int, k2)
                            });
                        }
                    }
                    return Some(name);
                }
                proof {
                    assert(!cap_ok(bot_name@, p as int, k as int));
                }
                k -= 1;
            }
            proof {
                assert(!match_at(bot_name@, p as int)) by {
                    if match_at(bot_name@, p as int) {
                        let k2 = choose|k2: int| cap_ok(bot_name@, p as int, k2);
                        if k2 > u - (p + 11) {
                            assert(u < n) by {
                                if u == n {
                                    assert(p as int + 11 + k2 + 17 <= n);
                                }
                            }
                            assert(s@[u as int] == '_');
                            assert(p + 11 <= u < p + 11 + k2);
                        }
                    }
                }
            }
        } else {
            proof {
                assert(!match_at(bot_name@, p as int)) by {
                    if match_at(bot_name@, p as int) {
                        let k2 = choose|k2: int| cap_ok(bot_name@, p as int, k2);
                    }
                }
            }
        }
        p += 1;
    }
    proof {
        assert forall|q: int| !match_at(bot_name@, q) by {
            if match_at(bot_name@, q) {
                let k = choose|k: int| cap_ok(bot_name@, q, k);
                assert(q + 11 + k + 17 <= n);
                assert(k >= 1);
                assert(0 <= q <= n - 29);
            }
        }
    }
    None
}

/// The pattern of a display name: the marker, then anything on the line up
/// to a later dash.
pub open spec fn beaut_ok(s: Seq<char>, p: int, k: int) -> bool {
    &&& prefix_at(s, p)
    &&& k >= 1
    &&& p + 11 + k < s.len()
    &&& s[p + 11 + k] == '-'
    &&& (forall|m: int| p + 11 <= m < p + 11 + k ==> s[m] != '\n')
}

/// A display-name match starts at `p`.
pub open spec fn beaut_match_at(s: Seq<char>, p: int) -> bool {
    exists|k: int| beaut_ok(s, p, k)
}

/// The middle of a deployed bot name: everything between the leftmost
/// marker that a dash follows and the last such dash on the line — the
/// greedy capture of the original tooling.
#[verifier::loop_isolation(false)]
pub fn beautify_bot_name(bot_name: &str) -> (r: String)
    requires
        exists|p: int| beaut_match_at(bot_name@, p),
    ensures
        exists|p: int, k: int|
            {
                &&& #[trigger] beaut_ok(bot_name@, p, k)
                &&& r@ == bot_name@.subrange(p + 11, p + 11 + k)
                &&& forall|q: int| 0 <= q < p ==> !beaut_match_at(bot_name@, q)
                &&& forall|k2: int| k2 > k ==> !beaut_ok(bot_name@, p, k2)
            },
{
    let s = str_chars(bot_name);
    let n = s.len();
    let mut p: usize = 0;
    loop
        invariant
            s@ == bot_name@,
            n == s@.len(),
            p <= n,
            exists|q: int| beaut_match_at(bot_name@, q),
            forall|q: int| 0 <= q < p ==> !beaut_match_at(bot_name@, q),
        decreases n - p,
    {
        proof {
            assert(p < n) by {
                if p >= n {
                    let q = choose|q: int| beaut_match_at(bot_name@, q);
                    let k = choose|k: int| beaut_ok(bot_name@, q, k);
                    assert(q + 11 + k < n);
                    assert(!beaut_match_at(bot_name@, q));
                }
            }
        }
        if n - p >= 11 && check_prefix(&s, p) {
            // Find where the line (and so the capture) must end.
            let e = find_char(&s, p + 11, '\n');
            proof {
                assert forall|k2: int| k2 > e - (p + 11) - 1 implies !beaut_ok(
                    bot_name@,
                    p as int,
                    k2,
                ) by {
                    if beaut_ok(bot_name@, p as int, k2) {
                        if p + 11 + k2 == e {
                            assert(e < n);
                            assert(s@[e as int] == '\n');
                            assert(s@[p + 11 + k2] == '-');
                        } else if p + 11 + k2 > e {
                            if e == n {
                                assert(p as int + 11 + k2 < n);
                            } else {
                                assert(s@[e as int] == '\n');
                                assert(p + 11 <= e < p + 11 + k2);
                            }
                        }
                    }
                }
            }
            // The last dash before the line end, scanned from the right.
            let mut j: usize = e;
            while j - (p + 11) >= 2
                invariant
                    s@ == bot_name@,
                    n == s@.len(),
                    p + 11 <= j <= e,
                    e <= n,
                    e == n || s@[e as int] == '\n',
                    prefix_at(s@, p as int),
                    forall|m: int| p + 11 <= m < e ==> s@[m] != '\n',
                    forall|k2: int| k2 > j - (p + 11) - 1 ==> !beaut_ok(bot_name@, p as int, k2),
                decreases j,
            {
                if s[j - 1] == '-' {
                    let k = j - 1 - (p + 11);
                    let name = collect_chars(&s, p + 11, p + 11 + k);
                    proof {
                        assert(beaut_ok(bot_name@, p as int, k as int));
                        assert(exists|pp: int, kk: int|
                            {
                                &&& #[trigger] beaut_ok(bot_name@, pp, kk)
                                &&& name@ == bot_name@.subrange(pp + 11, pp + 11 + kk)
                                &&& forall|q: int| 0 <= q < pp ==> !beaut_match_at(bot_name@, q)
                                &&& forall|k2: int| k2 > kk ==> !beaut_ok(bot_name@, pp, k2)
                            }) by {
                            assert({
                                &&& beaut_ok(bot_name@, p as int, k as int)
                                &&& name@ == bot_name@.subrange(
                                    p as int + 11,
                                    p as int + 11 + k as int,
                                )
                                &&& forall|q: int|
                                    0 <= q < p as int ==> !beaut_match_at(bot_name@, q)
                                &&& forall|k2: int|
                                    k2 > k as int ==> !beaut_ok(bot_name@, p as int, k2)
                            });
                        }
                    }
                    return name;
                }
                proof {
                    assert(!beaut_ok(bot_name@, p as int, j - (p + 11) - 1)) by {
                        if beaut_ok(bot_name@, p as int, j - (p + 11) - 1) {
                            assert(s@[j - 1] == '-');
                        }
                    }
                }
                j -= 1;
            }
            proof {
                assert(!beaut_match_at(bot_name@, p as int)) by {
                    if beaut_match_at(bot_name@, p as int) {
                        let k2 = choose|k2: int| beaut_ok(bot_name@, p as int, k2);
                        if k2 > e - (p + 11) - 1 {
                            if p + 11 + k2 < e {
                            } else {
                                assert(e < n) by {
                                    if e == n {
                                        assert(p as int + 11 + k2 < n);
                                    }
                                }
                                assert(p + 11 <= e < p + 11 + k2 || s@[p + 11 + k2] == '-');
                                if p + 11 <= e && e < p + 11 + k2 {
                                    assert(s@[e as int] == '\n');
                                } else {
                                    assert(p as int + 11 + k2 == e);
                                    assert(s@[e as int] == '\n');
                                    assert(s@[p + 11 + k2] == '-');
                                }
                            }
                        }
                    }
                }
            }
        } else {
            proof {
                assert(!beaut_match_at(bot_name@, p as int)) by {
                    if beaut_match_at(bot_name@, p as int) {
                        let k2 = choose|k2: int| beaut_ok(bot_name@, p as int, k2);
                    }
                }
            }
        }
        p += 1;
    }
}

/// The marker `hummingbot-` stands at `p`.
fn check_prefix(s: &Vec<char>, p: usize) -> (r: bool)
    ensures
        r == prefix_at(s@, p as int),
{
    proof {
        reveal_strlit("hummingbot-");
    }
    if p > s.len() || s.len() - p < 11 {
        return false;
    }
    let ok = s[p] == 'h' && s[p + 1] == 'u' && s[p + 2] == 'm' && s[p + 3] == 'm' && s[p + 4]
        == 'i' && s[p + 5] == 'n' && s[p + 6] == 'g' && s[p + 7] == 'b' && s[p + 8] == 'o' && s[p
        + 9] == 't' && s[p + 10] == '-';
    proof {
        if ok {
            assert(s@.subrange(p as int, p as int + 11) =~= "hummingbot-"@);
        } else {
            if s@.subrange(p as int, p as int + 11) == "hummingbot-"@ {
                assert(s@[p as int] == 'h') by {
                    assert(s@.subrange(p as int, p as int + 11)[0] == 'h');
                }
                assert(s@.subrange(p as int, p as int + 11)[1] == 'u');
                assert(s@.subrange(p as int, p as int + 11)[2] == 'm');
                assert(s@.subrange(p as int, p as int + 11)[3] == 'm');
                assert(s@.subrange(p as int, p as int + 11)[4] == 'i');
                assert(s@.subrange(p as int, p as int + 11)[5] == 'n');
                assert(s@.subrange(p as int, p as int + 11)[6] == 'g');
                assert(s@.subrange(p as int, p as int + 11)[7] == 'b');
                assert(s@.subrange(p as int, p as int + 11)[8] == 'o');
                assert(s@.subrange(p as int, p as int + 11)[9] == 't');
                assert(s@.subrange(p as int, p as int + 11)[10] == '-');
            }
        }
    }
    ok
}

/// A date stamp stands at `i`.
fn check_date(s: &Vec<char>, i: usize) -> (r: bool)
    ensures
        r == date_at(s@, i as int),
{
    if i > s.len() || s.len() - i < 16 {
        return false;
    }
    digit_at(s, i) && digit_at(s, i + 1) && digit_at(s, i + 2) && digit_at(s, i + 3) && s[i + 4]
        == '.' && digit_at(s, i + 5) && digit_at(s, i + 6) && s[i + 7] == '.' && digit_at(s, i + 8)
        && digit_at(s, i + 9) && s[i + 10] == '_' && digit_at(s, i + 11) && digit_at(s, i + 12)
        && s[i + 13] == '.' && digit_at(s, i + 14) && digit_at(s, i + 15)
}

fn digit_at(s: &Vec<char>, i: usize) -> (r: bool)
    requires
        i < s@.len(),
    ensures
        r == is_digit(s@[i as int]),
{
    let u = s[i] as u32;
    48 <= u && u <= 57
}

} // verus!
