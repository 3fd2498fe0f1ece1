//! Per-bot profit-and-loss history, keyed by (optionally stripped) name.
//!
//! A [`BotCache`] holds one history entry per bot.  When name stripping is
//! on, entries are keyed by the short name that [`extract_bot_name`]
//! recovers, so differently dated deployments of one bot share a history.
//! The surrounding application persists entries; here they live in memory
//! under exact contracts.

use vstd::prelude::*;
use crate::bot_name::{cap_ok, extract_bot_name, match_at};
use crate::text::str_eq;

verus! {

/// One point of a controller's profit history, in fixed-point units.
#[derive(Debug, Clone, Copy, PartialEq, Eq, Structural, Default)]
pub struct ControllerPNLHistoryEntry {
    pub timestamp: u64,
    pub pct: i64,
    pub quote: i64,
}

/// One controller's profit history.
#[derive(Debug, PartialEq, Eq)]
pub struct Controller {
    pub pnl_history: Vec<ControllerPNLHistoryEntry>,
}

/// One bot's cached state: its controllers' histories, by controller name.
#[derive(Debug, PartialEq, Eq)]
pub struct BotCacheEntry {
    pub controllers: Vec<(String, Controller)>,
}

/// Mathematical model of a cache entry: controller names and histories.
pub open spec fn entry_view(e: BotCacheEntry) -> Seq<(Seq<char>, Seq<ControllerPNLHistoryEntry>)> {
    e.controllers@.map_values(|c: (String, Controller)| (c.0@, c.1.pnl_history@))
}

/// The in-memory bot cache.
#[derive(Debug)]
pub struct BotCache {
    pub entries: Vec<(String, BotCacheEntry)>,
    pub strip_bot_name: bool,
}

/// The pattern pick of `extract_bot_name`: the leftmost match with the
/// longest capture.
pub open spec fn cap_pick(s: Seq<char>, pk: (int, int)) -> bool {
    &&& cap_ok(s, pk.0, pk.1)
    &&& forall|q: int| 0 <= q < pk.0 ==> !match_at(s, q)
    &&& forall|k2: int| k2 > pk.1 ==> !cap_ok(s, pk.0, k2)
}

/// The short name `extract_bot_name` recovers.
pub open spec fn extracted(s: Seq<char>) -> Seq<char> {
    let pk = choose|pk: (int, int)| cap_pick(s, pk);
    s.subrange(pk.0 + 11, pk.0 + 11 + pk.1)
}

/// The key a bot's entry lives under.
pub open spec fn cache_key(name: Seq<char>, strip: bool) -> Seq<char> {
    if strip {
        extracted(name)
    } else {
        name
    }
}

/// The pick is unique: there is one leftmost match and one longest capture.
pub proof fn lemma_cap_pick_unique(s: Seq<char>, a: (int, int), b: (int, int))
    requires
        cap_pick(s, a),
        cap_pick(s, b),
    ensures
        a == b,
{
    assert(match_at(s, a.0));
    assert(match_at(s, b.0));
    assert(a.0 == b.0);
    if a.1 > b.1 {
        assert(!cap_ok(s, b.0, a.1));
    }
    if b.1 > a.1 {
        assert(!cap_ok(s, a.0, b.1));
    }
}

/// The stored entry for `key`, if any.
pub open spec fn cache_lookup(
    es: Seq<(String, BotCacheEntry)>,
    key: Seq<char>,
) -> Option<Seq<(Seq<char>, Seq<ControllerPNLHistoryEntry>)>>
    decreases es.len(),
{
    if es.len() == 0 {
        None
    } else if es[0].0@ == key {
        Some(entry_view(es[0].1))
    } else {
        cache_lookup(es.skip(1), key)
    }
}

impl BotCache {
    /// No two entries share a key.
    pub open spec fn wf(self) -> bool {
        forall|i: int, j: int|
            0 <= i < j < self.entries@.len() ==> self.entries@[i].0@ != self.entries@[j].0@
    }

    /// Whether lookups strip the dated deployment name down to the short
    /// bot name first.
    pub open spec fn strips(self) -> bool {
        self.strip_bot_name
    }

    /// An empty cache.
    pub fn new(strip_bot_name: bool) -> (r: BotCache)
        ensures
            r.wf(),
            r.strips() == strip_bot_name,
            r.entries@.len() == 0,
    {
        BotCache { entries: Vec::new(), strip_bot_name }
    }

    /// The cached entry of the named bot, or a fresh empty one.  With
    /// stripping on, the bot's name must carry the deployment pattern.
    pub fn get_entry(&self, bot_name: &str) -> (r: BotCacheEntry)
        requires
            self.wf(),
            self.strips() ==> exists|p: int| match_at(bot_name@, p),
        ensures
            entry_view(r) == match cache_lookup(
                self.entries@,
                cache_key(bot_name@, self.strips()),
            ) {
                Some(v) => v,
                None => Seq::<(Seq<char>, Seq<ControllerPNLHistoryEntry>)>::empty(),
            },
    {
        let key = self.resolve_key(bot_name);
        let n = self.entries.len();
        let mut i: usize = 0;
        while i < n
            invariant
                self.wf(),
                key@ == cache_key(bot_name@, self.strips()),
                n == self.entries@.len(),
                i <= n,
                forall|t: int| 0 <= t < i ==> (#[trigger] self.entries@[t]).0@ != key@,
            decreases n - i,
        {
            if str_eq(self.entries[i].0.as_str(), key.as_str()) {
                proof {
                    lemma_cache_lookup_index(self.entries@, i as int);
                }
                return copy_entry(&self.entries[i].1);
            }
            i += 1;
        }
        proof {
            lemma_cache_lookup_absent(self.entries@, key@);
        }
        let r = BotCacheEntry { controllers: Vec::new() };
        proof {
            assert(entry_view(r) =~= Seq::<(Seq<char>, Seq<ControllerPNLHistoryEntry>)>::empty());
        }
        r
    }

    /// Stores the named bot's entry, replacing any previous one under the
    /// same key.  With stripping on, the bot's name must carry the
    /// deployment pattern.
    pub fn save_entry(&mut self, bot_name: &str, entry: BotCacheEntry)
        requires
            old(self).wf(),
            old(self).strips() ==> exists|p: int| match_at(bot_name@, p),
        ensures
            final(self).wf(),
            final(self).strips() == old(self).strips(),
            cache_lookup(
                final(self).entries@,
                cache_key(bot_name@, old(self).strips()),
            ) == Some(entry_view(entry)),
            forall|k: Seq<char>|
                k != cache_key(bot_name@, old(self).strips()) ==> cache_lookup(
                    final(self).entries@,
                    k,
                ) == cache_lookup(old(self).entries@, k),
    {
        let key = self.resolve_key(bot_name);
        let n = self.entries.len();
        let mut i: usize = 0;
        while i < n
            invariant
                self.entries@ == old(self).entries@,
                self.strip_bot_name == old(self).strip_bot_name,
                old(self).wf(),
                key@ == cache_key(bot_name@, old(self).strips()),
                n == self.entries@.len(),
                i <= n,
                forall|t: int| 0 <= t < i ==> (#[trigger] self.entries@[t]).0@ != key@,
            decreases n - i,
        {
            if str_eq(self.entries[i].0.as_str(), key.as_str()) {
                let stored_key = self.entries[i].0.clone();
                self.entries.set(i, (stored_key, entry));
                proof {
                    assert(forall|t: int|
                        0 <= t < n ==> (#[trigger] self.entries@[t]).0@ == old(
                            self,
                        ).entries@[t].0@);
                    lemma_cache_lookup_index(self.entries@, i as int);
                    assert forall|k: Seq<char>|
                        k != cache_key(bot_name@, old(self).strips()) implies cache_lookup(
                        self.entries@,
                        k,
                    ) == cache_lookup(old(self).entries@, k) by {
                        lemma_cache_lookup_update(old(self).entries@, self.entries@, i as int, k);
                    }
                }
                return;
            }
            i += 1;
        }
        proof {
            lemma_cache_lookup_absent(self.entries@, key@);
        }
        self.entries.push((key, entry));
        proof {
            lemma_cache_lookup_snoc(old(self).entries@, self.entries@[n as int], key@);
            assert(cache_lookup(self.entries@, key@) == Some(entry_view(entry)));
            assert forall|k: Seq<char>|
                k != cache_key(bot_name@, old(self).strips()) implies cache_lookup(
                self.entries@,
                k,
            ) == cache_lookup(old(self).entries@, k) by {
                lemma_cache_lookup_snoc(old(self).entries@, self.entries@[n as int], k);
            }
        }
    }

    /// The key the name resolves to.
    fn resolve_key(&self, bot_name: &str) -> (r: String)
        requires
            self.strips() ==> exists|p: int| match_at(bot_name@, p),
        ensures
            r@ == cache_key(bot_name@, self.strips()),
    {
        if self.strip_bot_name {
            match extract_bot_name(bot_name) {
                Some(name) => {
                    proof {
                        let (p, k) = choose|p: int, k: int|
                            {
                                &&& #[trigger] cap_ok(bot_name@, p, k)
                                &&& name@ == bot_name@.subrange(p + 11, p + 11 + k)
                                &&& forall|q: int| 0 <= q < p ==> !match_at(bot_name@, q)
                                &&& forall|k2: int| k2 > k ==> !cap_ok(bot_name@, p, k2)
                            };
                        assert(cap_pick(bot_name@, (p, k)));
                        let pk = choose|pk: (int, int)| cap_pick(bot_name@, pk);
                        lemma_cap_pick_unique(bot_name@, (p, k), pk);
                    }
                    name
                },
                None => {
                    proof {
                        let p = choose|p: int| match_at(bot_name@, p);
                        assert(false);
                    }
                    vstd::pervasive::unreached()
                },
            }
        } else {
            crate::text::copy_str(bot_name)
        }
    }
}

/// A field-for-field copy of a cache entry.
fn copy_entry(e: &BotCacheEntry) -> (r: BotCacheEntry)
    ensures
        entry_view(r) == entry_view(*e),
{
    let n = e.controllers.len();
    let mut controllers: Vec<(String, Controller)> = Vec::new();
    let mut i: usize = 0;
    while i < n
        invariant
            n == e.controllers@.len(),
            i <= n,
            controllers@.len() == i,
            forall|t: int|
                0 <= t < i ==> (#[trigger] controllers@[t]).0@ == e.controllers@[t].0@
                    && controllers@[t].1.pnl_history@ == e.controllers@[t].1.pnl_history@,
        decreases n - i,
    {
        let pair = &e.controllers[i];
        let name = pair.0.clone();
        let history = copy_history(&pair.1.pnl_history);
        controllers.push((name, Controller { pnl_history: history }));
        i += 1;
    }
    let r = BotCacheEntry { controllers };
    proof {
        assert(entry_view(r) =~= entry_view(*e));
    }
    r
}

/// A copy of a profit history.
fn copy_history(h: &Vec<ControllerPNLHistoryEntry>) -> (r: Vec<ControllerPNLHistoryEntry>)
    ensures
        r@ == h@,
{
    let n = h.len();
    let mut r: Vec<ControllerPNLHistoryEntry> = Vec::new();
    let mut i: usize = 0;
    while i < n
        invariant
            n == h@.len(),
            i <= n,
            r@ == h@.take(i as int),
        decreases n - i,
    {
        r.push(h[i]);
        proof {
            assert(r@ =~= h@.take(i as int + 1));
        }
        i += 1;
    }
    proof {
        assert(h@.take(n as int) =~= h@);
    }
    r
}

/// In a well-keyed list, the lookup of the key at `i` finds that entry.
proof fn lemma_cache_lookup_index(es: Seq<(String, BotCacheEntry)>, i: int)
    requires
        0 <= i < es.len(),
        forall|p: int, q: int| 0 <= p < q < es.len() ==> es[p].0@ != es[q].0@,
        forall|t: int| 0 <= t < i ==> es[t].0@ != es[i].0@,
    ensures
        cache_lookup(es, es[i].0@) == Some(entry_view(es[i].1)),
    decreases es.len(),
{
    if i > 0 {
        lemma_cache_lookup_index(es.skip(1), i - 1);
    }
}

/// With no entry under the key, the lookup fails.
proof fn lemma_cache_lookup_absent(es: Seq<(String, BotCacheEntry)>, key: Seq<char>)
    requires
        forall|t: int| 0 <= t < es.len() ==> (#[trigger] es[t]).0@ != key,
    ensures
        cache_lookup(es, key) is None,
    decreases es.len(),
{
    if es.len() > 0 {
        lemma_cache_lookup_absent(es.skip(1), key);
    }
}

/// Replacing the value at one index leaves other keys' lookups alone.
proof fn lemma_cache_lookup_update(
    pre: Seq<(String, BotCacheEntry)>,
    post: Seq<(String, BotCacheEntry)>,
    i: int,
    k: Seq<char>,
)
    requires
        pre.len() == post.len(),
        0 <= i < pre.len(),
        forall|t: int| 0 <= t < pre.len() && t != i ==> post[t] == pre[t],
        post[i].0@ == pre[i].0@,
        k != pre[i].0@,
    ensures
        cache_lookup(post, k) == cache_lookup(pre, k),
    decreases pre.len(),
{
    if pre.len() > 0 {
        if i == 0 {
            assert(pre.skip(1) =~= post.skip(1));
        } else if pre[0].0@ == k {
        } else {
            lemma_cache_lookup_update(pre.skip(1), post.skip(1), i - 1, k);
        }
    }
}

/// Appending an entry only affects the lookup of its own, fresh key.
proof fn lemma_cache_lookup_snoc(
    es: Seq<(String, BotCacheEntry)>,
    e: (String, BotCacheEntry),
    k: Seq<char>,
)
    ensures
        cache_lookup(es.push(e), k) == if cache_lookup(es, k) is Some {
            cache_lookup(es, k)
        } else if e.0@ == k {
            Some(entry_view(e.1))
        } else {
            None
        },
    decreases es.len(),
{
    if es.len() == 0 {
        assert(es.push(e)[0] == e);
        assert(cache_lookup(es.push(e).skip(1), k) is None);
    } else {
        assert(es.push(e)[0] == es[0]);
        assert(es.push(e).skip(1) =~= es.skip(1).push(e));
        lemma_cache_lookup_snoc(es.skip(1), e, k);
    }
}

} // verus!
