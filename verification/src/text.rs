//! Small executable helpers over strings, shared by the record codec, the
//! store and the name utilities.

use vstd::prelude::*;

verus! {

/// Appends one character to a string.
/// Relies on `String::push` from the standard library, which appends the
/// given char to the end of the string.
pub assume_specification[ String::push ](s: &mut String, c: char)
    ensures
        final(s)@ == old(s)@.push(c),
;

/// Character-wise string equality.
pub fn str_eq(a: &str, b: &str) -> (r: bool)
    ensures
        r == (a@ == b@),
{
    let la = a.unicode_len();
    let lb = b.unicode_len();
    if la != lb {
        return false;
    }
    let mut i: usize = 0;
    while i < la
        invariant
            la == a@.len(),
            la == b@.len(),
            i <= la,
            forall|k: int| 0 <= k < i ==> a@[k] == b@[k],
        decreases la - i,
    {
        if a.get_char(i) != b.get_char(i) {
            return false;
        }
        i += 1;
    }
    proof {
        assert(a@ =~= b@);
    }
    true
}

/// Copies a string.
pub fn copy_str(a: &str) -> (r: String)
    ensures
        r@ == a@,
{
    String::from_str(a)
}

/// The characters of a string, as a vector.
pub fn str_chars(s: &str) -> (r: Vec<char>)
    ensures
        r@ == s@,
{
    let n = s.unicode_len();
    let mut r: Vec<char> = Vec::new();
    let mut i: usize = 0;
    while i < n
        invariant
            n == s@.len(),
            i <= n,
            r@ == s@.take(i as int),
        decreases n - i,
    {
        r.push(s.get_char(i));
        proof {
            assert(r@ =~= s@.take(i as int + 1));
        }
        i += 1;
    }
    proof {
        assert(s@.take(n as int) =~= s@);
    }
    r
}

/// The first position at or after `start` holding `c`, or the end.
pub(crate) fn find_char(s: &Vec<char>, start: usize, c: char) -> (u: usize)
    requires
        start <= s@.len(),
    ensures
        start <= u <= s@.len(),
        forall|m: int| start <= m < u ==> s@[m] != c,
        u == s@.len() || s@[u as int] == c,
{
    let n = s.len();
    let mut u: usize = start;
    while u < n
        invariant
            n == s@.len(),
            start <= u <= n,
            forall|m: int| start <= m < u ==> s@[m] != c,
        decreases n - u,
    {
        if s[u] == c {
            return u;
        }
        u += 1;
    }
    n
}

/// The characters `s[a..b)`, as a string.
pub(crate) fn collect_chars(s: &Vec<char>, a: usize, b: usize) -> (r: String)
    requires
        a <= b <= s@.len(),
    ensures
        r@ == s@.subrange(a as int, b as int),
{
    let mut r = String::new();
    let mut i: usize = a;
    while i < b
        invariant
            a <= i <= b <= s@.len(),
            r@ == s@.subrange(a as int, i as int),
        decreases b - i,
    {
        r.push(s[i]);
        proof {
            assert(r@ =~= s@.subrange(a as int, i as int + 1));
        }
        i += 1;
    }
    r
}

} // verus!
