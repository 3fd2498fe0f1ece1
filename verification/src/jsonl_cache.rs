//! The append-only, newline-delimited snapshot store.
//!
//! A [`JsonCache`] holds the text of the backing file: records separated by
//! newlines, appended and never edited.  Readers work over the *complete*
//! lines — a trailing partial line with no terminating newline is treated as
//! absent, never as a record.  `get_all_objects` aborts on the first line
//! that fails to decode; `get_first_objects` and `get_last_objects` skip
//! undecodable lines instead — an intentional asymmetry of the store's
//! policy.  The head read examines a fixed window of lines, so a bad line
//! costs one of its attempts; the tail read keeps scanning backward until
//! it has collected its count of records.  The surrounding application
//! owns the file
//! itself: it loads the text into the store and appends encoded lines to
//! disk as [`JsonCache::write`] appends them here.

use vstd::prelude::*;
use crate::bot_balance::{BalanceV, BotBalance};
use crate::codec::{encode_record, parse_record};

verus! {

// ------------------------------------------------------------ line framing

/// The index of the first newline, or the length if there is none.
pub open spec fn first_nl(s: Seq<char>) -> int
    decreases s.len(),
{
    if s.len() == 0 {
        0
    } else if s[0] == '\n' {
        0
    } else {
        1 + first_nl(s.skip(1))
    }
}

/// The newline-terminated lines, in order.  Text after the last newline —
/// a partial trailing line — is not a line.
pub open spec fn complete_lines(s: Seq<char>) -> Seq<Seq<char>>
    decreases s.len(),
{
    let k = first_nl(s);
    if 0 <= k < s.len() {
        seq![s.subrange(0, k)] + complete_lines(s.skip(k + 1))
    } else {
        Seq::empty()
    }
}

/// The maximal nonempty newline-free runs, the partial trailing line
/// included: what `count_objects` counts.
pub open spec fn chunks(s: Seq<char>) -> Seq<Seq<char>>
    decreases s.len(),
{
    if s.len() == 0 {
        Seq::empty()
    } else if s[0] == '\n' {
        chunks(s.skip(1))
    } else {
        let k = first_nl(s);
        if 1 <= k <= s.len() {
            seq![s.subrange(0, k)] + chunks(s.skip(k))
        } else {
            Seq::empty()
        }
    }
}

/// The text ends on a line boundary.
pub open spec fn terminated(s: Seq<char>) -> bool {
    s.len() == 0 || s[s.len() - 1] == '\n'
}

/// `t` holds no newline.
pub open spec fn no_nl(t: Seq<char>) -> bool {
    forall|k: int| 0 <= k < t.len() ==> t[k] != '\n'
}

/// An ASCII whitespace character, as the head and tail readers strip it.
pub open spec fn is_ws(c: char) -> bool {
    c == ' ' || c == '\t' || c == '\r' || c == '\n' || c == '\u{b}' || c == '\u{c}'
}

/// `s` without leading whitespace.
pub open spec fn trim_start(s: Seq<char>) -> Seq<char>
    decreases s.len(),
{
    if s.len() > 0 && is_ws(s[0]) {
        trim_start(s.skip(1))
    } else {
        s
    }
}

/// `s` without trailing whitespace.
pub open spec fn trim_end(s: Seq<char>) -> Seq<char>
    decreases s.len(),
{
    if s.len() > 0 && is_ws(s.last()) {
        trim_end(s.drop_last())
    } else {
        s
    }
}

/// `s` without surrounding whitespace.
pub open spec fn trim(s: Seq<char>) -> Seq<char> {
    trim_end(trim_start(s))
}

/// The lines that are not empty.
pub open spec fn nonempty_lines(ls: Seq<Seq<char>>) -> Seq<Seq<char>>
    decreases ls.len(),
{
    if ls.len() == 0 {
        Seq::empty()
    } else if ls[0].len() > 0 {
        seq![ls[0]] + nonempty_lines(ls.skip(1))
    } else {
        nonempty_lines(ls.skip(1))
    }
}

/// The records of the lines that decode, after trimming, in order:
/// the skip-on-failure read policy.
pub open spec fn successes(ls: Seq<Seq<char>>) -> Seq<BalanceV>
    decreases ls.len(),
{
    if ls.len() == 0 {
        Seq::empty()
    } else {
        match parse_record(trim(ls[0])) {
            Some(b) => seq![b] + successes(ls.skip(1)),
            None => successes(ls.skip(1)),
        }
    }
}

/// What `get_first_objects(n)` returns: the decodable records among the
/// first `n` complete lines.
pub open spec fn read_first_spec(s: Seq<char>, n: int) -> Seq<BalanceV> {
    let ls = complete_lines(s);
    let m = if n < ls.len() { n } else { ls.len() as int };
    successes(ls.take(m))
}

/// What `get_last_objects(n)` returns: scanning the nonempty complete
/// lines backward from the end, undecodable lines are skipped until `n`
/// records are collected or the start is reached — that is, the last
/// `min(n, all)` decodable records, in chronological order.
pub open spec fn read_last_spec(s: Seq<char>, n: int) -> Seq<BalanceV> {
    let all = successes(nonempty_lines(complete_lines(s)));
    let start = if all.len() - n > 0 { all.len() - n } else { 0 };
    all.skip(start)
}

// ----------------------------------------------------------------- errors

/// A line of the backing text that failed to decode, and where it stood.
#[derive(Debug)]
pub struct ParseError {
    pub line_index: usize,
    pub line: String,
}

// ------------------------------------------------------------------ store

/// The append-only snapshot store over the backing file's text.
#[derive(Debug)]
pub struct JsonCache {
    content: String,
}

impl View for JsonCache {
    type V = Seq<char>;

    closed spec fn view(&self) -> Seq<char> {
        self.content@
    }
}

impl JsonCache {
    /// An empty store: what a missing backing file reads as.
    pub fn new() -> (s: JsonCache)
        ensures
            s@ == Seq::<char>::empty(),
    {
        JsonCache { content: String::new() }
    }

    /// A store over text loaded from the backing file.
    pub fn from_content(content: String) -> (s: JsonCache)
        ensures
            s@ == content@,
    {
        JsonCache { content }
    }

    /// Whether the text ends at a line boundary — what an intact,
    /// append-only backing file satisfies, and a crash-truncated one lacks.
    pub fn is_line_terminated(&self) -> (r: bool)
        ensures
            r == terminated(self@),
    {
        let n = self.content.as_str().unicode_len();
        if n == 0 {
            return true;
        }
        self.content.as_str().get_char(n - 1) == '\n'
    }

    /// The backing text, for the application to persist.
    pub fn content(&self) -> (r: &String)
        ensures
            r@ == self@,
    {
        &self.content
    }

    /// Appends one record as one newline-terminated line.  On a store whose
    /// text ends at a line boundary this adds exactly one complete line,
    /// which decodes back to the record ([`lemma_append_read_back`]).
    pub fn write(&mut self, obj: &BotBalance)
        requires
            obj@.wf(),
        ensures
            final(self)@ == old(self)@ + encode_record(obj@) + seq!['\n'],
            terminated(final(self)@),
    {
        let line = crate::codec::encode_record_string(obj);
        self.content.append(line.as_str());
        self.content.push('\n');
        proof {
            assert(old(self)@ + line@ + seq!['\n'] =~= (old(self)@ + line@).push('\n'));
            assert(final(self)@[final(self)@.len() - 1] == '\n');
        }
    }

    /// All records, in append order; the first undecodable complete line
    /// aborts the read and is reported with its position and text.
    pub fn get_all_objects(&self) -> (r: Result<Vec<BotBalance>, ParseError>)
        ensures
            ({
                let ls = complete_lines(self@);
                match r {
                    Ok(v) => {
                        &&& v@.len() == ls.len()
                        &&& forall|j: int|
                            0 <= j < ls.len() ==> parse_record(#[trigger] ls[j]) == Some(v@[j]@)
                    },
                    Err(e) => {
                        &&& 0 <= e.line_index < ls.len()
                        &&& parse_record(ls[e.line_index as int]) is None
                        &&& e.line@ == ls[e.line_index as int]
                        &&& forall|j: int|
                            0 <= j < e.line_index ==> parse_record(#[trigger] ls[j]) is Some
                    },
                }
            }),
    {
        let lines = split_lines(&self.content);
        let ghost ls = complete_lines(self@);
        let n = lines.len();
        let mut out: Vec<BotBalance> = Vec::new();
        let mut i: usize = 0;
        while i < n
            invariant
                lines@.map_values(|l: String| l@) == complete_lines(self@),
                n == lines@.len(),
                i <= n,
                out@.len() == i,
                forall|j: int|
                    0 <= j < i ==> parse_record(#[trigger] complete_lines(self@)[j]) == Some(
                        out@[j]@,
                    ),
            decreases n - i,
        {
            match crate::codec::decode_record(lines[i].as_str()) {
                Some(b) => {
                    proof {
                        assert(lines@.map_values(|l: String| l@)[i as int] == lines@[i as int]@);
                    }
                    out.push(b);
                },
                None => {
                    proof {
                        assert(lines@.map_values(|l: String| l@)[i as int] == lines@[i as int]@);
                    }
                    let line = lines[i].clone();
                    return Err(ParseError { line_index: i, line });
                },
            }
            i += 1;
        }
        Ok(out)
    }

    /// Up to the first `count` complete lines are examined; those that
    /// decode (after trimming) are returned in order, the rest are skipped.
    pub fn get_first_objects(&self, count: usize) -> (r: Vec<BotBalance>)
        ensures
            r@.map_values(|b: BotBalance| b@) == read_first_spec(self@, count as int),
    {
        let lines = split_lines(&self.content);
        let ghost ls = complete_lines(self@);
        let n = lines.len();
        let m = if count < n {
            count
        } else {
            n
        };
        let mut out: Vec<BotBalance> = Vec::new();
        let mut i: usize = 0;
        proof {
            assert(out@.map_values(|b: BotBalance| b@) =~= successes(ls.take(0)));
        }
        while i < m
            invariant
                lines@.map_values(|l: String| l@) == complete_lines(self@),
                ls == complete_lines(self@),
                n == lines@.len(),
                m <= n,
                i <= m,
                out@.map_values(|b: BotBalance| b@) == successes(ls.take(i as int)),
            decreases m - i,
        {
            proof {
                assert(lines@.map_values(|l: String| l@)[i as int] == lines@[i as int]@);
                lemma_successes_snoc(ls.take(i as int), ls[i as int]);
                assert(ls.take(i as int).push(ls[i as int]) =~= ls.take(i as int + 1));
            }
            let t = trim_string(&lines[i]);
            match crate::codec::decode_record(t.as_str()) {
                Some(b) => {
                    out.push(b);
                    proof {
                        assert(out@.map_values(|x: BotBalance| x@) =~= successes(ls.take(
                            i as int,
                        )) + seq![out@[out@.len() - 1]@]);
                        assert(successes(ls.take(i as int)) + seq![
                            parse_record(trim(ls[i as int])).unwrap(),
                        ] =~= successes(ls.take(i as int + 1)));
                    }
                },
                None => {
                    proof {
                        assert(out@.map_values(|x: BotBalance| x@) =~= successes(ls.take(
                            i as int + 1,
                        )));
                    }
                },
            }
            i += 1;
        }
        proof {
            assert(ls.take(m as int) =~= ls.take(
                if (count as int) < ls.len() {
                    count as int
                } else {
                    ls.len() as int
                },
            ));
        }
        out
    }

    /// Scans the nonempty complete lines backward: lines that fail to
    /// decode (after trimming) are skipped until `count` records are
    /// collected or the start is reached, and the records come back in
    /// chronological order.
    pub fn get_last_objects(&self, count: usize) -> (r: Vec<BotBalance>)
        ensures
            r@.map_values(|b: BotBalance| b@) == read_last_spec(self@, count as int),
    {
        let lines = split_lines(&self.content);
        let cands = keep_nonempty(lines);
        let ghost cs = nonempty_lines(complete_lines(self@));
        let n = cands.len();
        // How many decodable lines there are in all, so that the right
        // number of early ones can be passed over.
        let mut total: usize = 0;
        let mut i: usize = 0;
        proof {
            assert(successes(cs.take(0)) =~= Seq::<BalanceV>::empty());
        }
        while i < n
            invariant
                cands@.map_values(|l: String| l@) == cs,
                cs == nonempty_lines(complete_lines(self@)),
                n == cands@.len(),
                i <= n,
                total <= i,
                total as int == successes(cs.take(i as int)).len(),
            decreases n - i,
        {
            proof {
                assert(cands@.map_values(|l: String| l@)[i as int] == cands@[i as int]@);
                lemma_successes_snoc(cs.take(i as int), cs[i as int]);
                assert(cs.take(i as int).push(cs[i as int]) =~= cs.take(i as int + 1));
            }
            let t = trim_string(&cands[i]);
            if crate::codec::decode_record(t.as_str()).is_some() {
                total += 1;
            }
            i += 1;
        }
        proof {
            assert(cs.take(n as int) =~= cs);
        }
        let skip_succ = if count < total {
            total - count
        } else {
            0
        };
        let mut out: Vec<BotBalance> = Vec::new();
        let mut seen: usize = 0;
        let mut i: usize = 0;
        proof {
            assert(successes(cs.take(0)) =~= Seq::<BalanceV>::empty());
            assert(out@.map_values(|b: BotBalance| b@) =~= Seq::<BalanceV>::empty());
        }
        while i < n
            invariant
                cands@.map_values(|l: String| l@) == cs,
                cs == nonempty_lines(complete_lines(self@)),
                n == cands@.len(),
                i <= n,
                seen <= i,
                skip_succ as int == if successes(cs).len() - count as int > 0 {
                    successes(cs).len() - count as int
                } else {
                    0
                },
                seen as int == successes(cs.take(i as int)).len(),
                seen >= skip_succ ==> out@.map_values(|b: BotBalance| b@) == successes(
                    cs.take(i as int),
                ).skip(skip_succ as int),
                seen <= skip_succ ==> out@.len() == 0,
            decreases n - i,
        {
            proof {
                assert(cands@.map_values(|l: String| l@)[i as int] == cands@[i as int]@);
                lemma_successes_snoc(cs.take(i as int), cs[i as int]);
                assert(cs.take(i as int).push(cs[i as int]) =~= cs.take(i as int + 1));
            }
            let t = trim_string(&cands[i]);
            match crate::codec::decode_record(t.as_str()) {
                Some(b) => {
                    if seen >= skip_succ {
                        out.push(b);
                        proof {
                            assert(out@.map_values(|x: BotBalance| x@) =~= successes(cs.take(
                                i as int,
                            )).skip(skip_succ as int) + seq![out@[out@.len() - 1]@]);
                            assert(successes(cs.take(i as int)).skip(skip_succ as int) + seq![
                                parse_record(trim(cs[i as int])).unwrap(),
                            ] =~= successes(cs.take(i as int + 1)).skip(skip_succ as int));
                        }
                    } else {
                        proof {
                            if seen + 1 >= skip_succ {
                                assert(successes(cs.take(i as int + 1)).len() == seen + 1);
                                assert(out@.map_values(|x: BotBalance| x@) =~= successes(cs.take(
                                    i as int + 1,
                                )).skip(skip_succ as int));
                            }
                        }
                    }
                    seen += 1;
                },
                None => {
                    proof {
                        if seen >= skip_succ {
                            assert(out@.map_values(|x: BotBalance| x@) =~= successes(cs.take(
                                i as int + 1,
                            )).skip(skip_succ as int));
                        }
                    }
                },
            }
            i += 1;
        }
        proof {
            assert(cs.take(n as int) =~= cs);
            assert(seen == total);
            assert(out@.map_values(|b: BotBalance| b@) =~= successes(cs).skip(skip_succ as int));
        }
        out
    }

    /// The number of nonempty lines, a partial trailing line included.
    pub fn count_objects(&self) -> (r: usize)
        ensures
            r as int == chunks(self@).len(),
    {
        let n = self.content.as_str().unicode_len();
        let mut i: usize = 0;
        let mut cnt: usize = 0;
        proof {
            assert(self@.skip(0) =~= self@);
        }
        while i < n
            invariant
                n == self@.len(),
                i <= n,
                cnt <= i,
                chunks(self@).len() == cnt + chunks(self@.skip(i as int)).len(),
            decreases n - i,
        {
            let c = self.content.as_str().get_char(i);
            if c == '\n' {
                proof {
                    assert(self@.skip(i as int)[0] == '\n');
                    assert(self@.skip(i as int).skip(1) =~= self@.skip(i as int + 1));
                }
                i += 1;
            } else {
                let j = find_nl(&self.content, i + 1);
                proof {
                    lemma_chunk_at(self@, i as int, j as int);
                }
                cnt += 1;
                i = j;
            }
        }
        proof {
            assert(self@.skip(n as int) =~= Seq::<char>::empty());
        }
        cnt
    }

    /// True exactly when the store holds no nonempty line: a missing or
    /// blank backing file.
    pub fn is_empty(&self) -> (r: bool)
        ensures
            r == (chunks(self@).len() == 0),
    {
        let n = self.content.as_str().unicode_len();
        let mut i: usize = 0;
        proof {
            assert(self@.skip(0) =~= self@);
        }
        while i < n
            invariant
                n == self@.len(),
                i <= n,
                chunks(self@).len() == chunks(self@.skip(i as int)).len(),
            decreases n - i,
        {
            let c = self.content.as_str().get_char(i);
            if c != '\n' {
                proof {
                    lemma_chunks_nonempty(self@, i as int);
                }
                return false;
            }
            proof {
                assert(self@.skip(i as int)[0] == '\n');
                assert(self@.skip(i as int).skip(1) =~= self@.skip(i as int + 1));
            }
            i += 1;
        }
        proof {
            assert(self@.skip(n as int) =~= Seq::<char>::empty());
        }
        true
    }
}

// ------------------------------------------------------------ exec helpers

/// The first newline at or after `i`, or the end.
fn find_nl(s: &String, i: usize) -> (j: usize)
    requires
        i <= s@.len(),
    ensures
        i <= j <= s@.len(),
        forall|k: int| i <= k < j ==> s@[k] != '\n',
        j == s@.len() || s@[j as int] == '\n',
{
    let n = s.as_str().unicode_len();
    let mut j: usize = i;
    while j < n
        invariant
            n == s@.len(),
            i <= j <= n,
            forall|k: int| i <= k < j ==> s@[k] != '\n',
        decreases n - j,
    {
        if s.as_str().get_char(j) == '\n' {
            return j;
        }
        j += 1;
    }
    n
}

/// The first newline lies within the text.
proof fn lemma_first_nl_bounds(s: Seq<char>)
    ensures
        0 <= first_nl(s) <= s.len(),
    decreases s.len(),
{
    if s.len() > 0 && s[0] != '\n' {
        lemma_first_nl_bounds(s.skip(1));
    }
}

/// A suffix that starts with a visible character holds at least one chunk.
proof fn lemma_chunks_nonempty(s: Seq<char>, i: int)
    requires
        0 <= i < s.len(),
        s[i] != '\n',
    ensures
        chunks(s.skip(i)).len() >= 1,
{
    let t = s.skip(i);
    assert(t[0] == s[i]);
    lemma_first_nl_bounds(t.skip(1));
    assert(first_nl(t) == 1 + first_nl(t.skip(1)));
}

/// Splits the text into its complete lines.
fn split_lines(content: &String) -> (r: Vec<String>)
    ensures
        r@.map_values(|l: String| l@) == complete_lines(content@),
{
    let n = content.as_str().unicode_len();
    let mut r: Vec<String> = Vec::new();
    let mut i: usize = 0;
    proof {
        assert(r@.map_values(|l: String| l@) =~= Seq::<Seq<char>>::empty());
        assert(content@.skip(0) =~= content@);
    }
    while i < n
        invariant
            n == content@.len(),
            i <= n,
            complete_lines(content@) == r@.map_values(|l: String| l@) + complete_lines(
                content@.skip(i as int),
            ),
        decreases n - i,
    {
        let j = find_nl(content, i);
        if j == n {
            proof {
                lemma_first_nl_at(content@, i as int, n as int);
                assert(complete_lines(content@.skip(i as int)) =~= Seq::<Seq<char>>::empty());
                assert(r@.map_values(|l: String| l@) + Seq::<Seq<char>>::empty() =~= r@.map_values(
                    |l: String| l@,
                ));
            }
            return r;
        }
        let line = String::from_str(content.as_str().substring_char(i, j));
        proof {
            lemma_first_nl_at(content@, i as int, j as int);
            lemma_line_at(content@, i as int, j as int);
        }
        r.push(line);
        proof {
            assert(complete_lines(content@) =~= r@.map_values(|l: String| l@) + complete_lines(
                content@.skip(j + 1),
            ));
        }
        i = j + 1;
    }
    proof {
        assert(complete_lines(content@.skip(n as int)) =~= Seq::<Seq<char>>::empty());
        assert(r@.map_values(|l: String| l@) + Seq::<Seq<char>>::empty() =~= r@.map_values(
            |l: String| l@,
        ));
    }
    r
}

/// Keeps the nonempty lines.
fn keep_nonempty(lines: Vec<String>) -> (r: Vec<String>)
    ensures
        r@.map_values(|l: String| l@) == nonempty_lines(lines@.map_values(|l: String| l@)),
{
    let n = lines.len();
    let mut r: Vec<String> = Vec::new();
    let mut i: usize = 0;
    let ghost lv = lines@.map_values(|l: String| l@);
    proof {
        assert(r@.map_values(|l: String| l@) =~= Seq::<Seq<char>>::empty());
        assert(nonempty_lines(lv.take(0)) =~= Seq::<Seq<char>>::empty());
    }
    while i < n
        invariant
            lv == lines@.map_values(|l: String| l@),
            n == lines@.len(),
            i <= n,
            r@.map_values(|l: String| l@) == nonempty_lines(lv.take(i as int)),
        decreases n - i,
    {
        proof {
            lemma_nonempty_snoc(lv.take(i as int), lv[i as int]);
            assert(lv.take(i as int).push(lv[i as int]) =~= lv.take(i as int + 1));
            assert(lv[i as int] == lines@[i as int]@);
        }
        if lines[i].as_str().unicode_len() > 0 {
            let line = lines[i].clone();
            r.push(line);
            proof {
                assert(r@.map_values(|l: String| l@) =~= nonempty_lines(lv.take(i as int)) + seq![
                    lv[i as int],
                ]);
            }
        }
        i += 1;
    }
    proof {
        assert(lv.take(n as int) =~= lv);
    }
    r
}

/// Strips surrounding ASCII whitespace.
fn trim_string(line: &String) -> (r: String)
    ensures
        r@ == trim(line@),
{
    let a = first_non_ws(line);
    let b = last_non_ws_end(line, a);
    proof {
        lemma_trim_start_at(line@, a as int);
        lemma_trim_end_at(line@.skip(a as int), b - a);
        assert(line@.skip(a as int).take(b - a) =~= line@.subrange(a as int, b as int));
    }
    String::from_str(line.as_str().substring_char(a, b))
}

/// The first position that holds no whitespace, or the end.
fn first_non_ws(line: &String) -> (a: usize)
    ensures
        a <= line@.len(),
        forall|k: int| 0 <= k < a ==> is_ws(#[trigger] line@[k]),
        a == line@.len() || !is_ws(line@[a as int]),
{
    let n = line.as_str().unicode_len();
    let mut a: usize = 0;
    while a < n
        invariant
            n == line@.len(),
            a <= n,
            forall|k: int| 0 <= k < a ==> is_ws(#[trigger] line@[k]),
        decreases n - a,
    {
        if !is_ws_ch(line.as_str().get_char(a)) {
            return a;
        }
        a += 1;
    }
    n
}

/// The position past the last non-whitespace at or after `a`, or `a`.
fn last_non_ws_end(line: &String, a: usize) -> (b: usize)
    requires
        a <= line@.len(),
    ensures
        a <= b <= line@.len(),
        forall|k: int| b <= k < line@.len() ==> is_ws(#[trigger] line@[k]),
        b == a || !is_ws(line@[b - 1]),
{
    let n = line.as_str().unicode_len();
    let mut b: usize = n;
    while b > a
        invariant
            n == line@.len(),
            a <= b <= n,
            forall|k: int| b <= k < n ==> is_ws(#[trigger] line@[k]),
        decreases b,
    {
        if !is_ws_ch(line.as_str().get_char(b - 1)) {
            return b;
        }
        b -= 1;
    }
    a
}

fn is_ws_ch(c: char) -> (r: bool)
    ensures
        r == is_ws(c),
{
    c == ' ' || c == '\t' || c == '\r' || c == '\n' || c == '\u{b}' || c == '\u{c}'
}

// ----------------------------------------------------------- frame lemmas

/// `first_nl` finds the boundary that a scan found.
proof fn lemma_first_nl_at(s: Seq<char>, i: int, j: int)
    requires
        0 <= i <= j <= s.len(),
        forall|k: int| i <= k < j ==> s[k] != '\n',
        j == s.len() || s[j] == '\n',
    ensures
        first_nl(s.skip(i)) == j - i,
    decreases j - i,
{
    if i < j {
        lemma_first_nl_at(s, i + 1, j);
        assert(s.skip(i)[0] == s[i]);
        assert(s.skip(i).skip(1) =~= s.skip(i + 1));
    } else {
        if j < s.len() {
            assert(s.skip(i)[0] == '\n');
        }
    }
}

/// Peeling one complete line off the suffix.
proof fn lemma_line_at(s: Seq<char>, i: int, j: int)
    requires
        0 <= i <= j < s.len(),
        forall|k: int| i <= k < j ==> s[k] != '\n',
        s[j] == '\n',
    ensures
        complete_lines(s.skip(i)) == seq![s.subrange(i, j)] + complete_lines(s.skip(j + 1)),
{
    lemma_first_nl_at(s, i, j);
    assert(s.skip(i).subrange(0, j - i) =~= s.subrange(i, j));
    assert(s.skip(i).skip(j - i + 1) =~= s.skip(j + 1));
}

/// Peeling one chunk off the suffix.
proof fn lemma_chunk_at(s: Seq<char>, i: int, j: int)
    requires
        0 <= i < s.len(),
        s[i] != '\n',
        i < j <= s.len(),
        forall|k: int| i < k < j ==> s[k] != '\n',
        j == s.len() || s[j] == '\n',
    ensures
        chunks(s.skip(i)) == seq![s.subrange(i, j)] + chunks(s.skip(j)),
        chunks(s.skip(i)).len() >= 1,
{
    lemma_first_nl_at(s, i, j);
    assert(s.skip(i)[0] == s[i]);
    assert(s.skip(i).subrange(0, j - i) =~= s.subrange(i, j));
    assert(s.skip(i).skip(j - i) =~= s.skip(j));
}

/// One more line examined: the read policy on a grown prefix.
proof fn lemma_successes_snoc(ls: Seq<Seq<char>>, l: Seq<char>)
    ensures
        successes(ls.push(l)) == successes(ls) + (match parse_record(trim(l)) {
            Some(b) => seq![b],
            None => Seq::<BalanceV>::empty(),
        }),
    decreases ls.len(),
{
    if ls.len() == 0 {
        assert(ls.push(l)[0] == l);
        assert(ls.push(l).skip(1) =~= Seq::<Seq<char>>::empty());
        assert(successes(Seq::<Seq<char>>::empty()) =~= Seq::<BalanceV>::empty());
        match parse_record(trim(l)) {
            Some(b) => {
                assert(successes(ls.push(l)) =~= seq![b]);
                assert(successes(ls) + seq![b] =~= seq![b]);
            },
            None => {
                assert(successes(ls) + Seq::<BalanceV>::empty() =~= successes(ls));
            },
        }
    } else {
        assert(ls.push(l)[0] == ls[0]);
        assert(ls.push(l).skip(1) =~= ls.skip(1).push(l));
        lemma_successes_snoc(ls.skip(1), l);
        match parse_record(trim(ls[0])) {
            Some(b) => {
                assert(seq![b] + (successes(ls.skip(1)) + (match parse_record(trim(l)) {
                    Some(b2) => seq![b2],
                    None => Seq::<BalanceV>::empty(),
                })) =~= (seq![b] + successes(ls.skip(1))) + (match parse_record(trim(l)) {
                    Some(b2) => seq![b2],
                    None => Seq::<BalanceV>::empty(),
                }));
            },
            None => {
            },
        }
    }
}

/// One more line kept or dropped by the nonempty filter.
proof fn lemma_nonempty_snoc(ls: Seq<Seq<char>>, l: Seq<char>)
    ensures
        nonempty_lines(ls.push(l)) == nonempty_lines(ls) + (if l.len() > 0 {
            seq![l]
        } else {
            Seq::<Seq<char>>::empty()
        }),
    decreases ls.len(),
{
    if ls.len() == 0 {
        assert(ls.push(l)[0] == l);
        assert(ls.push(l).skip(1) =~= Seq::<Seq<char>>::empty());
        assert(nonempty_lines(Seq::<Seq<char>>::empty()) =~= Seq::<Seq<char>>::empty());
        if l.len() > 0 {
            assert(nonempty_lines(ls.push(l)) =~= seq![l]);
            assert(nonempty_lines(ls) + seq![l] =~= seq![l]);
        } else {
            assert(nonempty_lines(ls) + Seq::<Seq<char>>::empty() =~= nonempty_lines(ls));
        }
    } else {
        assert(ls.push(l)[0] == ls[0]);
        assert(ls.push(l).skip(1) =~= ls.skip(1).push(l));
        lemma_nonempty_snoc(ls.skip(1), l);
        if ls[0].len() > 0 {
            assert(seq![ls[0]] + (nonempty_lines(ls.skip(1)) + (if l.len() > 0 {
                seq![l]
            } else {
                Seq::<Seq<char>>::empty()
            })) =~= (seq![ls[0]] + nonempty_lines(ls.skip(1))) + (if l.len() > 0 {
                seq![l]
            } else {
                Seq::<Seq<char>>::empty()
            }));
        }
    }
}

/// A scanned whitespace prefix is what `trim_start` strips.
proof fn lemma_trim_start_at(s: Seq<char>, a: int)
    requires
        0 <= a <= s.len(),
        forall|k: int| 0 <= k < a ==> is_ws(#[trigger] s[k]),
        a == s.len() || !is_ws(s[a]),
    ensures
        trim_start(s) == s.skip(a),
    decreases a,
{
    if a > 0 {
        assert(is_ws(s[0]));
        lemma_trim_start_at(s.skip(1), a - 1);
        assert(s.skip(1).skip(a - 1) =~= s.skip(a));
        assert(forall|k: int| 0 <= k < a - 1 ==> is_ws(#[trigger] s.skip(1)[k]));
    } else {
        if s.len() > 0 && is_ws(s[0]) {
            assert(false);
        }
        assert(s.skip(0) =~= s);
    }
}

/// A scanned whitespace suffix is what `trim_end` strips.
proof fn lemma_trim_end_at(s: Seq<char>, b: int)
    requires
        0 <= b <= s.len(),
        forall|k: int| b <= k < s.len() ==> is_ws(#[trigger] s[k]),
        b == 0 || !is_ws(s[b - 1]),
    ensures
        trim_end(s) == s.take(b),
    decreases s.len() - b,
{
    if b < s.len() {
        assert(is_ws(s.last()));
        lemma_trim_end_at(s.drop_last(), b);
        assert(s.drop_last().take(b) =~= s.take(b));
    } else {
        if s.len() > 0 && is_ws(s.last()) {
            assert(false);
        }
        assert(s.take(s.len() as int) =~= s);
    }
}

} // verus!

verus! {

// ------------------------------------------------------------- store laws

/// Everything `first_nl` promises: its range, the newline it found, and the
/// clean prefix before it.
proof fn lemma_first_nl_props(s: Seq<char>)
    ensures
        0 <= first_nl(s) <= s.len(),
        first_nl(s) < s.len() ==> s[first_nl(s)] == '\n',
        forall|m: int| 0 <= m < first_nl(s) ==> s[m] != '\n',
        first_nl(s) == s.len() ==> no_nl(s),
    decreases s.len(),
{
    if s.len() > 0 && s[0] != '\n' {
        lemma_first_nl_props(s.skip(1));
        assert forall|m: int| 0 <= m < first_nl(s) implies s[m] != '\n' by {
            if m > 0 {
                assert(s.skip(1)[m - 1] != '\n');
            }
        }
        if first_nl(s) == s.len() {
            assert forall|m: int| 0 <= m < s.len() implies s[m] != '\n' by {
                if m > 0 {
                    assert(s.skip(1)[m - 1] != '\n');
                }
            }
        }
        if first_nl(s) < s.len() {
            assert(s[first_nl(s)] == s.skip(1)[first_nl(s) - 1]);
        }
    }
}

/// Appending one newline-terminated, newline-free line to a line-terminated
/// text adds exactly that line.
pub proof fn lemma_complete_lines_append(s: Seq<char>, line: Seq<char>)
    requires
        terminated(s),
        no_nl(line),
    ensures
        complete_lines(s + line + seq!['\n']) == complete_lines(s).push(line),
    decreases s.len(),
{
    let t = s + line + seq!['\n'];
    if s.len() == 0 {
        assert(t =~= line + seq!['\n']);
        lemma_first_nl_at(t, 0, line.len() as int);
        assert(t.skip(0) =~= t);
        assert(first_nl(t) == line.len());
        assert(t.subrange(0, line.len() as int) =~= line);
        assert(t.skip(line.len() as int + 1) =~= Seq::<char>::empty());
        assert(complete_lines(Seq::<char>::empty()) =~= Seq::<Seq<char>>::empty());
        assert(complete_lines(t) =~= seq![line]);
        assert(complete_lines(s) =~= Seq::<Seq<char>>::empty());
        assert(complete_lines(s).push(line) =~= seq![line]);
    } else {
        lemma_first_nl_props(s);
        let k = first_nl(s);
        assert(k < s.len()) by {
            if k == s.len() {
                assert(s[s.len() - 1] != '\n');
            }
        }
        lemma_first_nl_at(t, 0, k);
        assert(t.skip(0) =~= t);
        assert(first_nl(t) == k);
        assert(t.subrange(0, k) =~= s.subrange(0, k));
        assert(t.skip(k + 1) =~= s.skip(k + 1) + line + seq!['\n']);
        assert(terminated(s.skip(k + 1))) by {
            if s.len() - (k + 1) > 0 {
                assert(s.skip(k + 1)[s.len() - k - 2] == s[s.len() - 1]);
            }
        }
        lemma_complete_lines_append(s.skip(k + 1), line);
        assert(complete_lines(t) =~= complete_lines(s).push(line));
    }
}

/// Text after the last newline never becomes a line: the readers treat a
/// partial trailing line as absent.
pub proof fn lemma_corrupt_tail_ignored(s: Seq<char>, t: Seq<char>)
    requires
        no_nl(t),
    ensures
        complete_lines(s + t) == complete_lines(s),
    decreases s.len(),
{
    let u = s + t;
    lemma_first_nl_props(s);
    let k = first_nl(s);
    if k < s.len() {
        lemma_first_nl_at(u, 0, k);
        assert(u.skip(0) =~= u);
        assert(first_nl(u) == k);
        assert(u.subrange(0, k) =~= s.subrange(0, k));
        assert(u.skip(k + 1) =~= s.skip(k + 1) + t);
        lemma_corrupt_tail_ignored(s.skip(k + 1), t);
        assert(complete_lines(u) =~= complete_lines(s));
    } else {
        assert(no_nl(s));
        lemma_first_nl_at(u, 0, u.len() as int);
        assert(u.skip(0) =~= u);
        assert(first_nl(u) == u.len());
        assert(complete_lines(u) =~= Seq::<Seq<char>>::empty());
        assert(complete_lines(s) =~= Seq::<Seq<char>>::empty());
    }
}

/// On line-terminated text, the chunks are exactly the nonempty lines: the
/// count agrees with what the readers see.
pub proof fn lemma_chunks_of_terminated(s: Seq<char>)
    requires
        terminated(s),
    ensures
        chunks(s) == nonempty_lines(complete_lines(s)),
    decreases s.len(),
{
    if s.len() == 0 {
        assert(complete_lines(s) =~= Seq::<Seq<char>>::empty());
        assert(chunks(s) =~= nonempty_lines(complete_lines(s)));
    } else if s[0] == '\n' {
        assert(terminated(s.skip(1))) by {
            if s.len() > 1 {
                assert(s.skip(1)[s.len() - 2] == s[s.len() - 1]);
            }
        }
        lemma_chunks_of_terminated(s.skip(1));
        assert(first_nl(s) == 0);
        assert(s.subrange(0, 0) =~= Seq::<char>::empty());
        let rest = complete_lines(s.skip(1));
        assert(complete_lines(s) == seq![Seq::<char>::empty()] + rest);
        assert((seq![Seq::<char>::empty()] + rest)[0].len() == 0);
        assert((seq![Seq::<char>::empty()] + rest).skip(1) =~= rest);
        assert(chunks(s) =~= nonempty_lines(complete_lines(s)));
    } else {
        lemma_first_nl_props(s);
        let k = first_nl(s);
        assert(k >= 1);
        assert(k < s.len()) by {
            if k == s.len() {
                assert(s[s.len() - 1] != '\n');
            }
        }
        assert(chunks(s) == seq![s.subrange(0, k)] + chunks(s.skip(k)));
        assert(s.skip(k)[0] == s[k]);
        assert(s.skip(k).skip(1) =~= s.skip(k + 1));
        assert(chunks(s.skip(k)) == chunks(s.skip(k + 1)));
        assert(terminated(s.skip(k + 1))) by {
            if s.len() - (k + 1) > 0 {
                assert(s.skip(k + 1)[s.len() - k - 2] == s[s.len() - 1]);
            }
        }
        lemma_chunks_of_terminated(s.skip(k + 1));
        let rest = complete_lines(s.skip(k + 1));
        assert(complete_lines(s) == seq![s.subrange(0, k)] + rest);
        assert((seq![s.subrange(0, k)] + rest)[0].len() == k);
        assert((seq![s.subrange(0, k)] + rest).skip(1) =~= rest);
        assert(chunks(s) =~= nonempty_lines(complete_lines(s)));
    }
}

// -------------------------------------------- the encoded line is one line

/// No character of an escaped clean name is a newline.
proof fn lemma_str_chars_no_nl(name: Seq<char>)
    requires
        crate::bot_balance::wf_name(name),
    ensures
        no_nl(crate::codec::encode_str_chars(name)),
    decreases name.len(),
{
    if name.len() > 0 {
        assert(crate::bot_balance::wf_name(name.skip(1))) by {
            assert(forall|i: int|
                0 <= i < name.skip(1).len() ==> !crate::bot_balance::is_ctl_char(
                    #[trigger] name.skip(1)[i],
                ));
        }
        lemma_str_chars_no_nl(name.skip(1));
        assert(!crate::bot_balance::is_ctl_char(name[0]));
        assert(name[0] != '\n') by {
            assert(('\n' as u32) < 0x20);
        }
        let e = crate::codec::esc_char(name[0]);
        let r = crate::codec::encode_str_chars(name.skip(1));
        assert forall|m: int|
            0 <= m < crate::codec::encode_str_chars(name).len() implies crate::codec::encode_str_chars(
            name,
        )[m] != '\n' by {
            if m < e.len() {
                assert(crate::codec::encode_str_chars(name)[m] == e[m]);
            } else {
                assert(crate::codec::encode_str_chars(name)[m] == r[m - e.len()]);
            }
        }
    }
}

/// No character of an encoded string is a newline.
proof fn lemma_string_no_nl(name: Seq<char>)
    requires
        crate::bot_balance::wf_name(name),
    ensures
        no_nl(crate::codec::encode_string(name)),
{
    lemma_str_chars_no_nl(name);
    let e = crate::codec::encode_string(name);
    let body = crate::codec::encode_str_chars(name);
    assert forall|m: int| 0 <= m < e.len() implies e[m] != '\n' by {
        if m == 0 {
            assert(e[m] == '"');
        } else if m < body.len() + 1 {
            assert(e[m] == body[m - 1]);
        } else {
            assert(e[m] == '"');
        }
    }
}

/// No character of an encoded number is a newline.
proof fn lemma_nat_no_nl(n: int)
    ensures
        no_nl(crate::codec::encode_nat(n)),
    decreases n,
{
    let e = crate::codec::encode_nat(n);
    if n < 10 {
        assert(e[0] == crate::codec::digit_char(n));
        assert(crate::codec::digit_char(n) != '\n');
    } else {
        lemma_nat_no_nl(n / 10);
        let pre = crate::codec::encode_nat(n / 10);
        assert forall|m: int| 0 <= m < e.len() implies e[m] != '\n' by {
            if m < pre.len() {
                assert(e[m] == pre[m]);
            } else {
                assert(e[m] == crate::codec::digit_char(n % 10));
            }
        }
    }
}

proof fn lemma_int_no_nl(n: int)
    ensures
        no_nl(crate::codec::encode_int(n)),
{
    let e = crate::codec::encode_int(n);
    if n < 0 {
        lemma_nat_no_nl(-n);
        let mag = crate::codec::encode_nat(-n);
        assert forall|m: int| 0 <= m < e.len() implies e[m] != '\n' by {
            if m == 0 {
                assert(e[m] == '-');
            } else {
                assert(e[m] == mag[m - 1]);
            }
        }
    } else {
        lemma_nat_no_nl(n);
    }
}

/// Newline-free concatenation.
proof fn lemma_no_nl_concat(a: Seq<char>, b: Seq<char>)
    requires
        no_nl(a),
        no_nl(b),
    ensures
        no_nl(a + b),
{
    assert forall|m: int| 0 <= m < (a + b).len() implies (a + b)[m] != '\n' by {
        if m < a.len() {
            assert((a + b)[m] == a[m]);
        } else {
            assert((a + b)[m] == b[m - a.len()]);
        }
    }
}

/// A string literal of the record grammar holds no newline.
proof fn lemma_lit_no_nl()
    ensures
        no_nl("{\"coin\":"@),
        no_nl(",\"amount\":"@),
        no_nl("}"@),
        no_nl(":["@),
        no_nl("]"@),
        no_nl(":{"@),
        no_nl("{\"accounts\":{"@),
        no_nl("},\"timestamp\":"@),
        no_nl(","@),
{
    reveal_strlit("{\"coin\":");
    reveal_strlit(",\"amount\":");
    reveal_strlit("}");
    reveal_strlit(":[");
    reveal_strlit("]");
    reveal_strlit(":{");
    reveal_strlit("{\"accounts\":{");
    reveal_strlit("},\"timestamp\":");
    reveal_strlit(",");
}

proof fn lemma_entry_no_nl(e: crate::bot_balance::EntryV)
    requires
        e.wf(),
    ensures
        no_nl(crate::codec::encode_entry(e)),
{
    lemma_lit_no_nl();
    lemma_string_no_nl(e.coin);
    lemma_int_no_nl(e.amount);
    lemma_no_nl_concat("{\"coin\":"@, crate::codec::encode_string(e.coin));
    lemma_no_nl_concat("{\"coin\":"@ + crate::codec::encode_string(e.coin), ",\"amount\":"@);
    lemma_no_nl_concat(
        "{\"coin\":"@ + crate::codec::encode_string(e.coin) + ",\"amount\":"@,
        crate::codec::encode_int(e.amount),
    );
    lemma_no_nl_concat(
        "{\"coin\":"@ + crate::codec::encode_string(e.coin) + ",\"amount\":"@
            + crate::codec::encode_int(e.amount),
        "}"@,
    );
}

proof fn lemma_entries_no_nl(es: Seq<crate::bot_balance::EntryV>)
    requires
        forall|k: int| 0 <= k < es.len() ==> (#[trigger] es[k]).wf(),
    ensures
        no_nl(crate::codec::encode_entries(es)),
    decreases es.len(),
{
    lemma_lit_no_nl();
    if es.len() == 0 {
    } else if es.len() == 1 {
        lemma_entry_no_nl(es[0]);
    } else {
        lemma_entry_no_nl(es[0]);
        assert forall|k: int| 0 <= k < es.skip(1).len() implies (#[trigger] es.skip(
            1,
        )[k]).wf() by {
            assert(es.skip(1)[k] == es[k + 1]);
        }
        lemma_entries_no_nl(es.skip(1));
        lemma_no_nl_concat(crate::codec::encode_entry(es[0]), seq![',']);
        lemma_no_nl_concat(
            crate::codec::encode_entry(es[0]) + seq![','],
            crate::codec::encode_entries(es.skip(1)),
        );
    }
}

proof fn lemma_exchange_no_nl(x: crate::bot_balance::ExchangeV)
    requires
        x.wf(),
    ensures
        no_nl(crate::codec::encode_exchange(x)),
{
    lemma_lit_no_nl();
    lemma_string_no_nl(x.exchange);
    lemma_entries_no_nl(x.entries);
    lemma_no_nl_concat(crate::codec::encode_string(x.exchange), ":["@);
    lemma_no_nl_concat(
        crate::codec::encode_string(x.exchange) + ":["@,
        crate::codec::encode_entries(x.entries),
    );
    lemma_no_nl_concat(
        crate::codec::encode_string(x.exchange) + ":["@ + crate::codec::encode_entries(x.entries),
        "]"@,
    );
}

proof fn lemma_exchanges_no_nl(xs: Seq<crate::bot_balance::ExchangeV>)
    requires
        forall|k: int| 0 <= k < xs.len() ==> (#[trigger] xs[k]).wf(),
    ensures
        no_nl(crate::codec::encode_exchanges(xs)),
    decreases xs.len(),
{
    lemma_lit_no_nl();
    if xs.len() == 0 {
    } else if xs.len() == 1 {
        lemma_exchange_no_nl(xs[0]);
    } else {
        lemma_exchange_no_nl(xs[0]);
        assert forall|k: int| 0 <= k < xs.skip(1).len() implies (#[trigger] xs.skip(
            1,
        )[k]).wf() by {
            assert(xs.skip(1)[k] == xs[k + 1]);
        }
        lemma_exchanges_no_nl(xs.skip(1));
        lemma_no_nl_concat(crate::codec::encode_exchange(xs[0]), seq![',']);
        lemma_no_nl_concat(
            crate::codec::encode_exchange(xs[0]) + seq![','],
            crate::codec::encode_exchanges(xs.skip(1)),
        );
    }
}

proof fn lemma_account_no_nl(a: crate::bot_balance::AccountV)
    requires
        a.wf(),
    ensures
        no_nl(crate::codec::encode_account(a)),
{
    lemma_lit_no_nl();
    lemma_string_no_nl(a.account);
    lemma_exchanges_no_nl(a.exchanges);
    lemma_no_nl_concat(crate::codec::encode_string(a.account), ":{"@);
    lemma_no_nl_concat(
        crate::codec::encode_string(a.account) + ":{"@,
        crate::codec::encode_exchanges(a.exchanges),
    );
    lemma_no_nl_concat(
        crate::codec::encode_string(a.account) + ":{"@ + crate::codec::encode_exchanges(
            a.exchanges,
        ),
        "}"@,
    );
}

proof fn lemma_accounts_no_nl(accs: Seq<crate::bot_balance::AccountV>)
    requires
        forall|k: int| 0 <= k < accs.len() ==> (#[trigger] accs[k]).wf(),
    ensures
        no_nl(crate::codec::encode_accounts(accs)),
    decreases accs.len(),
{
    lemma_lit_no_nl();
    if accs.len() == 0 {
    } else if accs.len() == 1 {
        lemma_account_no_nl(accs[0]);
    } else {
        lemma_account_no_nl(accs[0]);
        assert forall|k: int| 0 <= k < accs.skip(1).len() implies (#[trigger] accs.skip(
            1,
        )[k]).wf() by {
            assert(accs.skip(1)[k] == accs[k + 1]);
        }
        lemma_accounts_no_nl(accs.skip(1));
        lemma_no_nl_concat(crate::codec::encode_account(accs[0]), seq![',']);
        lemma_no_nl_concat(
            crate::codec::encode_account(accs[0]) + seq![','],
            crate::codec::encode_accounts(accs.skip(1)),
        );
    }
}

/// An encoded record is one newline-free line.
pub proof fn lemma_encode_record_no_nl(b: BalanceV)
    requires
        b.wf(),
    ensures
        no_nl(encode_record(b)),
{
    lemma_lit_no_nl();
    lemma_accounts_no_nl(b.accounts);
    lemma_nat_no_nl(b.timestamp as int);
    lemma_no_nl_concat("{\"accounts\":{"@, crate::codec::encode_accounts(b.accounts));
    lemma_no_nl_concat(
        "{\"accounts\":{"@ + crate::codec::encode_accounts(b.accounts),
        "},\"timestamp\":"@,
    );
    lemma_no_nl_concat(
        "{\"accounts\":{"@ + crate::codec::encode_accounts(b.accounts) + "},\"timestamp\":"@,
        crate::codec::encode_nat(b.timestamp as int),
    );
    lemma_no_nl_concat(
        "{\"accounts\":{"@ + crate::codec::encode_accounts(b.accounts) + "},\"timestamp\":"@
            + crate::codec::encode_nat(b.timestamp as int),
        "}"@,
    );
}

// ------------------------------------------------------------ append laws

/// The text after appending each record in turn, as `write` appends them.
pub open spec fn append_all(s: Seq<char>, recs: Seq<BalanceV>) -> Seq<char>
    decreases recs.len(),
{
    if recs.len() == 0 {
        s
    } else {
        append_all(s + encode_record(recs[0]) + seq!['\n'], recs.skip(1))
    }
}

/// Append/read-back: appending well-formed records to a line-terminated
/// store adds exactly their encoded lines, in order, with nothing lost or
/// reordered.
pub proof fn lemma_append_read_back(s: Seq<char>, recs: Seq<BalanceV>)
    requires
        terminated(s),
        forall|i: int| 0 <= i < recs.len() ==> (#[trigger] recs[i]).wf(),
    ensures
        terminated(append_all(s, recs)),
        complete_lines(append_all(s, recs)) == complete_lines(s) + recs.map_values(
            |b: BalanceV| encode_record(b),
        ),
    decreases recs.len(),
{
    let f = |b: BalanceV| encode_record(b);
    if recs.len() == 0 {
        assert(complete_lines(s) + recs.map_values(f) =~= complete_lines(s));
    } else {
        let line = encode_record(recs[0]);
        lemma_encode_record_no_nl(recs[0]);
        lemma_complete_lines_append(s, line);
        let s1 = s + line + seq!['\n'];
        assert(terminated(s1)) by {
            assert(s1[s1.len() - 1] == '\n');
        }
        assert forall|i: int| 0 <= i < recs.skip(1).len() implies (#[trigger] recs.skip(
            1,
        )[i]).wf() by {
            assert(recs.skip(1)[i] == recs[i + 1]);
        }
        lemma_append_read_back(s1, recs.skip(1));
        assert(complete_lines(s).push(line) + recs.skip(1).map_values(f) =~= complete_lines(s)
            + recs.map_values(f));
    }
}

/// Append/read-back on a fresh store: the complete lines are exactly the
/// records' encodings, and each decodes back to its record.  Together with
/// the contract of `get_all_objects`, reading returns the appended records
/// in append order.
pub proof fn lemma_store_round_trip(recs: Seq<BalanceV>)
    requires
        forall|i: int| 0 <= i < recs.len() ==> (#[trigger] recs[i]).wf(),
    ensures
        ({
            let ls = complete_lines(append_all(Seq::empty(), recs));
            &&& ls.len() == recs.len()
            &&& forall|i: int|
                0 <= i < recs.len() ==> #[trigger] parse_record(ls[i]) == Some(recs[i])
        }),
{
    let f = |b: BalanceV| encode_record(b);
    lemma_append_read_back(Seq::empty(), recs);
    assert(complete_lines(Seq::<char>::empty()) =~= Seq::<Seq<char>>::empty());
    let ls = complete_lines(append_all(Seq::empty(), recs));
    assert(ls =~= recs.map_values(f));
    assert forall|i: int| 0 <= i < recs.len() implies #[trigger] parse_record(ls[i]) == Some(
        recs[i],
    ) by {
        assert(ls[i] == encode_record(recs[i]));
        crate::codec::lemma_parse_encode_record(recs[i]);
    }
}

// --------------------------------------------- head and tail on clean text

/// An encoded record starts with a brace and ends with one: trimming leaves
/// it alone, and it is never the empty line.
proof fn lemma_encode_record_trim(b: BalanceV)
    ensures
        trim(encode_record(b)) == encode_record(b),
        encode_record(b).len() > 0,
{
    reveal_strlit("{\"accounts\":{");
    reveal_strlit("}");
    let e = encode_record(b);
    let l0 = "{\"accounts\":{"@;
    assert(e[0] == l0[0]) by {
        assert(e == l0 + crate::codec::encode_accounts(b.accounts) + "},\"timestamp\":"@
            + crate::codec::encode_nat(b.timestamp as int) + "}"@);
    }
    assert(e[0] == '{');
    assert(e.last() == '}') by {
        assert(("}"@).len() == 1);
        assert(("}"@)[0] == '}');
    }
    assert(!is_ws('{'));
    assert(!is_ws('}'));
    assert(trim_start(e) == e);
    assert(trim_end(e) == e);
}

/// When every examined line decodes to the matching record, the skip-on-
/// failure policy returns exactly those records.
proof fn lemma_successes_all(ls: Seq<Seq<char>>, rs: Seq<BalanceV>)
    requires
        ls.len() == rs.len(),
        forall|j: int|
            0 <= j < ls.len() ==> parse_record(trim(#[trigger] ls[j])) == Some(rs[j]),
    ensures
        successes(ls) == rs,
    decreases ls.len(),
{
    if ls.len() == 0 {
        assert(successes(ls) =~= rs);
    } else {
        assert forall|j: int|
            0 <= j < ls.skip(1).len() implies parse_record(trim(#[trigger] ls.skip(1)[j]))
            == Some(rs.skip(1)[j]) by {
            assert(ls.skip(1)[j] == ls[j + 1]);
            assert(rs.skip(1)[j] == rs[j + 1]);
        }
        lemma_successes_all(ls.skip(1), rs.skip(1));
        assert(parse_record(trim(ls[0])) == Some(rs[0]));
        assert(successes(ls) =~= rs);
    }
}

/// Lines that are all nonempty pass the nonempty filter unchanged.
proof fn lemma_nonempty_all(ls: Seq<Seq<char>>)
    requires
        forall|j: int| 0 <= j < ls.len() ==> (#[trigger] ls[j]).len() > 0,
    ensures
        nonempty_lines(ls) == ls,
    decreases ls.len(),
{
    if ls.len() > 0 {
        assert forall|j: int| 0 <= j < ls.skip(1).len() implies (#[trigger] ls.skip(
            1,
        )[j]).len() > 0 by {
            assert(ls.skip(1)[j] == ls[j + 1]);
        }
        lemma_nonempty_all(ls.skip(1));
        assert(nonempty_lines(ls) =~= ls);
    } else {
        assert(nonempty_lines(ls) =~= ls);
    }
}

/// Tail semantics: on a store holding exactly the appended records, reading
/// the last `k` returns the last `min(k, N)` records, in chronological
/// order; `k > N` returns all of them.
pub proof fn lemma_tail_semantics(recs: Seq<BalanceV>, k: int)
    requires
        forall|i: int| 0 <= i < recs.len() ==> (#[trigger] recs[i]).wf(),
        k >= 0,
    ensures
        read_last_spec(append_all(Seq::empty(), recs), k) == recs.skip(
            if recs.len() - k > 0 {
                recs.len() - k
            } else {
                0
            },
        ),
{
    let f = |b: BalanceV| encode_record(b);
    lemma_store_round_trip(recs);
    lemma_append_read_back(Seq::empty(), recs);
    assert(complete_lines(Seq::<char>::empty()) =~= Seq::<Seq<char>>::empty());
    let ls = complete_lines(append_all(Seq::empty(), recs));
    assert(ls =~= recs.map_values(f));
    assert forall|j: int| 0 <= j < ls.len() implies (#[trigger] ls[j]).len() > 0 by {
        lemma_encode_record_trim(recs[j]);
    }
    lemma_nonempty_all(ls);
    assert forall|j: int|
        0 <= j < ls.len() implies parse_record(trim(#[trigger] ls[j])) == Some(recs[j]) by {
        lemma_encode_record_trim(recs[j]);
        crate::codec::lemma_parse_encode_record(recs[j]);
    }
    lemma_successes_all(ls, recs);
}

/// Head semantics: on a store holding exactly the appended records, reading
/// the first `k` returns records `1..min(k, N)`, in chronological order.
pub proof fn lemma_head_semantics(recs: Seq<BalanceV>, k: int)
    requires
        forall|i: int| 0 <= i < recs.len() ==> (#[trigger] recs[i]).wf(),
        k >= 0,
    ensures
        read_first_spec(append_all(Seq::empty(), recs), k) == recs.take(
            if k < recs.len() {
                k
            } else {
                recs.len() as int
            },
        ),
{
    let f = |b: BalanceV| encode_record(b);
    lemma_store_round_trip(recs);
    lemma_append_read_back(Seq::empty(), recs);
    assert(complete_lines(Seq::<char>::empty()) =~= Seq::<Seq<char>>::empty());
    let ls = complete_lines(append_all(Seq::empty(), recs));
    assert(ls =~= recs.map_values(f));
    let m = if k < ls.len() {
        k
    } else {
        ls.len() as int
    };
    assert forall|j: int|
        0 <= j < ls.take(m).len() implies parse_record(trim(#[trigger] ls.take(m)[j]))
        == Some(recs.take(m)[j]) by {
        assert(ls.take(m)[j] == ls[j]);
        assert(recs.take(m)[j] == recs[j]);
        lemma_encode_record_trim(recs[j]);
        crate::codec::lemma_parse_encode_record(recs[j]);
    }
    lemma_successes_all(ls.take(m), recs.take(m));
}

/// Emptiness and count: a store holding exactly the appended records counts
/// one nonempty line per record, and is empty exactly when nothing was
/// appended.
pub proof fn lemma_count_of_appends(recs: Seq<BalanceV>)
    requires
        forall|i: int| 0 <= i < recs.len() ==> (#[trigger] recs[i]).wf(),
    ensures
        chunks(append_all(Seq::empty(), recs)).len() == recs.len(),
{
    let f = |b: BalanceV| encode_record(b);
    lemma_append_read_back(Seq::empty(), recs);
    lemma_chunks_of_terminated(append_all(Seq::empty(), recs));
    assert(complete_lines(Seq::<char>::empty()) =~= Seq::<Seq<char>>::empty());
    let ls = complete_lines(append_all(Seq::empty(), recs));
    assert(ls =~= recs.map_values(f));
    assert forall|j: int| 0 <= j < ls.len() implies (#[trigger] ls[j]).len() > 0 by {
        lemma_encode_record_trim(recs[j]);
    }
    lemma_nonempty_all(ls);
}

} // verus!
