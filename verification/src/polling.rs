//! Per-entity polling dedup engine.
//!
//! The engine keeps one cursor per tracked entity: the timestamp of the
//! latest event for which a notification was recorded.  On each tick the
//! surrounding application fetches the latest event for an entity and asks
//! [`DedupState::observe`] whether it is new; a lower-frequency refresh calls
//! [`DedupState::prune`] with the currently active entity set so that cursors
//! of vanished entities do not linger.

use vstd::prelude::*;
use crate::text::str_eq;

verus! {

/// One tracked entity's dedup cursor: the timestamp of the last event for
/// which a notification was reported (0 before any event was seen).
pub struct Cursor {
    pub entity: String,
    pub last_seen: u64,
}

/// Dedup state of the polling engine: one cursor per tracked entity,
/// created on first observation and removed when the entity disappears
/// from the active set.
pub struct DedupState {
    pub cursors: Vec<Cursor>,
}

/// The cursor value recorded for `entity` in a cursor list, if any.
pub open spec fn cursor_in(cs: Seq<Cursor>, entity: Seq<char>) -> Option<u64>
    decreases cs.len(),
{
    if cs.len() == 0 {
        None
    } else if cs[0].entity@ == entity {
        Some(cs[0].last_seen)
    } else {
        cursor_in(cs.skip(1), entity)
    }
}

/// The recorded cursor for `entity`, or 0 if none exists yet: the value the
/// engine compares an incoming event's timestamp against.
pub open spec fn cursor_or_zero(s: DedupState, entity: Seq<char>) -> u64 {
    match cursor_in(s.cursors@, entity) {
        Some(t) => t,
        None => 0,
    }
}

/// Everything one call of `observe` promises: whether it notifies, the new
/// cursor value, and that nothing else changes.
pub open spec fn observe_post(
    pre: DedupState,
    post: DedupState,
    entity: Seq<char>,
    timestamp: u64,
    notify: bool,
) -> bool {
    &&& notify == (cursor_or_zero(pre, entity) != timestamp)
    &&& cursor_in(post.cursors@, entity) == Some(timestamp)
    &&& forall|e: Seq<char>|
        e != entity ==> cursor_in(post.cursors@, e) == cursor_in(pre.cursors@, e)
    &&& post.cursors@.map_values(|c: Cursor| c.entity@) == if cursor_in(
        pre.cursors@,
        entity,
    ) is Some {
        pre.cursors@.map_values(|c: Cursor| c.entity@)
    } else {
        pre.cursors@.map_values(|c: Cursor| c.entity@).push(entity)
    }
}

/// `entity` appears in the active set.
pub open spec fn active_contains(active: Seq<String>, entity: Seq<char>) -> bool {
    exists|j: int| 0 <= j < active.len() && active[j]@ == entity
}

impl DedupState {
    /// No two cursors track the same entity.
    pub open spec fn wf(self) -> bool {
        forall|i: int, j: int|
            0 <= i < j < self.cursors@.len() ==> self.cursors@[i].entity@
                != self.cursors@[j].entity@
    }

    /// The cursor recorded for `entity`, if any.
    pub open spec fn spec_cursor_of(self, entity: Seq<char>) -> Option<u64> {
        cursor_in(self.cursors@, entity)
    }

    /// A fresh engine state with no cursors.
    pub fn new() -> (s: DedupState)
        ensures
            s.wf(),
            s.cursors@.len() == 0,
    {
        DedupState { cursors: Vec::new() }
    }

    /// One dedup step of a polling tick.  Compares the latest event's
    /// timestamp with the entity's cursor (0 if the entity is new): if they
    /// differ, reports that a notification is due and records the timestamp;
    /// if they are equal, suppresses the duplicate.  Either way the entity
    /// ends up with a cursor holding `timestamp`.  Any change — also to an
    /// older timestamp — counts as a new event; the cursor therefore never
    /// decreases only as long as a source hands out nondecreasing
    /// timestamps, which [`lemma_cursor_monotone`] states.
    pub fn observe(&mut self, entity: &str, timestamp: u64) -> (notify: bool)
        requires
            old(self).wf(),
        ensures
            final(self).wf(),
            observe_post(*old(self), *final(self), entity@, timestamp, notify),
    {
        let n = self.cursors.len();
        let mut i: usize = 0;
        while i < n
            invariant
                self.cursors@ == old(self).cursors@,
                old(self).wf(),
                n == self.cursors@.len(),
                i <= n,
                forall|k: int| 0 <= k < i ==> self.cursors@[k].entity@ != entity@,
            decreases n - i,
        {
            if str_eq(self.cursors[i].entity.as_str(), entity) {
                proof {
                    lemma_cursor_in_index(self.cursors@, i as int);
                }
                let prev = self.cursors[i].last_seen;
                let notify = prev != timestamp;
                if notify {
                    let name = self.cursors[i].entity.clone();
                    self.cursors.set(i, Cursor { entity: name, last_seen: timestamp });
                }
                proof {
                    assert(forall|k: int|
                        0 <= k < n ==> self.cursors@[k].entity@ == old(
                            self,
                        ).cursors@[k].entity@);
                    lemma_cursor_in_index(self.cursors@, i as int);
                    assert forall|e: Seq<char>| e != entity@ implies cursor_in(
                        self.cursors@,
                        e,
                    ) == cursor_in(old(self).cursors@, e) by {
                        lemma_cursor_in_update(old(self).cursors@, self.cursors@, i as int, e);
                    }
                    assert(self.cursors@.map_values(|c: Cursor| c.entity@) =~= old(
                        self,
                    ).cursors@.map_values(|c: Cursor| c.entity@));
                }
                return notify;
            }
            i += 1;
        }
        proof {
            lemma_cursor_in_absent(self.cursors@, entity@);
        }
        let notify = timestamp != 0;
        self.cursors.push(Cursor { entity: copy_entity(entity), last_seen: timestamp });
        proof {
            lemma_cursor_in_snoc(old(self).cursors@, self.cursors@[n as int], entity@);
            assert forall|e: Seq<char>| e != entity@ implies cursor_in(self.cursors@, e)
                == cursor_in(old(self).cursors@, e) by {
                lemma_cursor_in_snoc(old(self).cursors@, self.cursors@[n as int], e);
            }
            assert(self.cursors@.map_values(|c: Cursor| c.entity@) =~= old(
                self,
            ).cursors@.map_values(|c: Cursor| c.entity@).push(entity@));
        }
        notify
    }

    /// The refresh step: drops every cursor whose entity is no longer in the
    /// active set, keeping the rest in order.
    pub fn prune(&mut self, active: &Vec<String>)
        requires
            old(self).wf(),
        ensures
            final(self).wf(),
            final(self).cursors@ == pruned(old(self).cursors@, active@),
            forall|e: Seq<char>| #[trigger] cursor_in(final(self).cursors@, e) == if active_contains(
                active@,
                e,
            ) {
                cursor_in(old(self).cursors@, e)
            } else {
                None::<u64>
            },
    {
        let mut kept: Vec<Cursor> = Vec::new();
        let n = self.cursors.len();
        let mut i: usize = 0;
        while i < n
            invariant
                self.cursors@ == old(self).cursors@,
                n == self.cursors@.len(),
                i <= n,
                kept@ == pruned(self.cursors@.take(i as int), active@),
            decreases n - i,
        {
            proof {
                lemma_pruned_snoc(self.cursors@.take(i as int), self.cursors@[i as int], active@);
                assert(self.cursors@.take(i as int).push(self.cursors@[i as int]) =~= self
                    .cursors@
                    .take(i as int + 1));
            }
            let c = &self.cursors[i];
            if contains_name(active, c.entity.as_str()) {
                let name = c.entity.clone();
                let last_seen = c.last_seen;
                kept.push(Cursor { entity: name, last_seen });
            }
            i += 1;
        }
        proof {
            assert(self.cursors@.take(n as int) =~= self.cursors@);
            lemma_pruned_wf(self.cursors@, active@);
            assert forall|e: Seq<char>| #[trigger] cursor_in(pruned(self.cursors@, active@), e)
                == if active_contains(active@, e) {
                cursor_in(self.cursors@, e)
            } else {
                None::<u64>
            } by {
                lemma_pruned_cursor_in(self.cursors@, active@, e);
            }
        }
        self.cursors = kept;
    }
}

/// The cursors that survive a prune against `active`, in order.
pub open spec fn pruned(cs: Seq<Cursor>, active: Seq<String>) -> Seq<Cursor>
    decreases cs.len(),
{
    if cs.len() == 0 {
        cs
    } else {
        let rest = pruned(cs.drop_last(), active);
        if active_contains(active, cs.last().entity@) {
            rest.push(cs.last())
        } else {
            rest
        }
    }
}

fn copy_entity(entity: &str) -> (r: String)
    ensures
        r@ == entity@,
{
    crate::text::copy_str(entity)
}

fn contains_name(active: &Vec<String>, entity: &str) -> (r: bool)
    ensures
        r == active_contains(active@, entity@),
{
    let n = active.len();
    let mut i: usize = 0;
    while i < n
        invariant
            n == active@.len(),
            i <= n,
            forall|k: int| 0 <= k < i ==> active@[k]@ != entity@,
        decreases n - i,
    {
        if str_eq(active[i].as_str(), entity) {
            return true;
        }
        i += 1;
    }
    false
}

/// In a well-formed cursor list, the lookup of the entity at index `i`
/// returns that cursor's value.
proof fn lemma_cursor_in_index(cs: Seq<Cursor>, i: int)
    requires
        0 <= i < cs.len(),
        forall|p: int, q: int| 0 <= p < q < cs.len() ==> cs[p].entity@ != cs[q].entity@,
        forall|k: int| 0 <= k < i ==> cs[k].entity@ != cs[i].entity@,
    ensures
        cursor_in(cs, cs[i].entity@) == Some(cs[i].last_seen),
    decreases cs.len(),
{
    if i > 0 {
        lemma_cursor_in_index(cs.skip(1), i - 1);
    }
}

/// If no element matches `entity`, the lookup fails.
proof fn lemma_cursor_in_absent(cs: Seq<Cursor>, entity: Seq<char>)
    requires
        forall|k: int| 0 <= k < cs.len() ==> cs[k].entity@ != entity,
    ensures
        cursor_in(cs, entity) is None,
    decreases cs.len(),
{
    if cs.len() > 0 {
        lemma_cursor_in_absent(cs.skip(1), entity);
    }
}

/// Updating the value at one index leaves lookups of other entities alone.
proof fn lemma_cursor_in_update(pre: Seq<Cursor>, post: Seq<Cursor>, i: int, e: Seq<char>)
    requires
        pre.len() == post.len(),
        0 <= i < pre.len(),
        forall|k: int| 0 <= k < pre.len() && k != i ==> post[k] == pre[k],
        post[i].entity@ == pre[i].entity@,
        e != pre[i].entity@,
    ensures
        cursor_in(post, e) == cursor_in(pre, e),
    decreases pre.len(),
{
    if pre.len() > 0 {
        if i == 0 {
            assert(pre.skip(1) =~= post.skip(1));
        } else if pre[0].entity@ == e {
        } else {
            lemma_cursor_in_update(pre.skip(1), post.skip(1), i - 1, e);
        }
    }
}

/// Appending a cursor only affects the lookup of entities not present yet.
proof fn lemma_cursor_in_snoc(cs: Seq<Cursor>, c: Cursor, e: Seq<char>)
    ensures
        cursor_in(cs.push(c), e) == if cursor_in(cs, e) is Some {
            cursor_in(cs, e)
        } else if c.entity@ == e {
            Some(c.last_seen)
        } else {
            None::<u64>
        },
    decreases cs.len(),
{
    if cs.len() == 0 {
        assert(cs.push(c)[0] == c);
        assert(cursor_in(cs.push(c).skip(1), e) is None);
    } else {
        assert(cs.push(c)[0] == cs[0]);
        assert(cs.push(c).skip(1) =~= cs.skip(1).push(c));
        lemma_cursor_in_snoc(cs.skip(1), c, e);
    }
}

proof fn lemma_pruned_snoc(cs: Seq<Cursor>, c: Cursor, active: Seq<String>)
    ensures
        pruned(cs.push(c), active) == if active_contains(active, c.entity@) {
            pruned(cs, active).push(c)
        } else {
            pruned(cs, active)
        },
{
    assert(cs.push(c).drop_last() =~= cs);
    assert(cs.push(c).last() == c);
}

/// Every cursor in the pruned list comes from the original list.
proof fn lemma_pruned_membership(cs: Seq<Cursor>, active: Seq<String>, k: int)
    requires
        0 <= k < pruned(cs, active).len(),
    ensures
        exists|j: int| 0 <= j < cs.len() && cs[j] == pruned(cs, active)[k],
    decreases cs.len(),
{
    if cs.len() > 0 {
        let rest = pruned(cs.drop_last(), active);
        if active_contains(active, cs.last().entity@) && k == rest.len() {
            assert(cs[cs.len() - 1] == pruned(cs, active)[k]);
        } else {
            lemma_pruned_membership(cs.drop_last(), active, k);
            let j = choose|j: int|
                0 <= j < cs.drop_last().len() && cs.drop_last()[j] == pruned(cs, active)[k];
            assert(cs[j] == pruned(cs, active)[k]);
        }
    }
}

/// Pruning keeps the list well formed.
proof fn lemma_pruned_wf(cs: Seq<Cursor>, active: Seq<String>)
    requires
        forall|p: int, q: int| 0 <= p < q < cs.len() ==> cs[p].entity@ != cs[q].entity@,
    ensures
        forall|p: int, q: int|
            0 <= p < q < pruned(cs, active).len() ==> pruned(cs, active)[p].entity@ != pruned(
                cs,
                active,
            )[q].entity@,
    decreases cs.len(),
{
    if cs.len() > 0 {
        lemma_pruned_wf(cs.drop_last(), active);
        let pr = pruned(cs, active);
        let rest = pruned(cs.drop_last(), active);
        if active_contains(active, cs.last().entity@) {
            assert(pr == rest.push(cs.last()));
            assert forall|p: int, q: int| 0 <= p < q < pr.len() implies pr[p].entity@
                != pr[q].entity@ by {
                assert(pr[p] == rest[p]);
                if q == pr.len() - 1 {
                    assert(pr[q] == cs.last());
                    lemma_pruned_membership(cs.drop_last(), active, p);
                    let j = choose|j: int|
                        0 <= j < cs.drop_last().len() && cs.drop_last()[j] == rest[p];
                    assert(cs[j] == rest[p]);
                    assert(cs[j].entity@ != cs[cs.len() - 1].entity@);
                } else {
                    assert(pr[q] == rest[q]);
                }
            }
        } else {
            assert(pr == rest);
        }
    }
}

/// What pruning does to lookups: entities still active keep their cursor,
/// the rest lose it.
proof fn lemma_pruned_cursor_in(cs: Seq<Cursor>, active: Seq<String>, e: Seq<char>)
    ensures
        cursor_in(pruned(cs, active), e) == if active_contains(active, e) {
            cursor_in(cs, e)
        } else {
            None::<u64>
        },
    decreases cs.len(),
{
    if cs.len() == 0 {
    } else {
        lemma_pruned_cursor_in(cs.drop_last(), active, e);
        lemma_cursor_in_snoc(cs.drop_last(), cs.last(), e);
        if active_contains(active, cs.last().entity@) {
            lemma_cursor_in_snoc(pruned(cs.drop_last(), active), cs.last(), e);
        }
        assert(cs.drop_last().push(cs.last()) =~= cs);
    }
}

/// Dedup idempotence: when an event is new at one tick (its timestamp
/// differs from the recorded cursor), that tick notifies and records the
/// timestamp, and a second tick observing the same timestamp stays silent —
/// exactly one notification across the two ticks.
pub proof fn lemma_dedup_exactly_once(
    s0: DedupState,
    s1: DedupState,
    s2: DedupState,
    entity: Seq<char>,
    timestamp: u64,
    notify1: bool,
    notify2: bool,
)
    requires
        observe_post(s0, s1, entity, timestamp, notify1),
        observe_post(s1, s2, entity, timestamp, notify2),
        cursor_or_zero(s0, entity) != timestamp,
    ensures
        notify1,
        !notify2,
{
}

/// Cursor monotonicity: as long as an entity's events arrive with
/// timestamps no older than its cursor, the cursor never decreases.
pub proof fn lemma_cursor_monotone(
    pre: DedupState,
    post: DedupState,
    entity: Seq<char>,
    timestamp: u64,
    notify: bool,
)
    requires
        observe_post(pre, post, entity, timestamp, notify),
        timestamp >= cursor_or_zero(pre, entity),
    ensures
        cursor_or_zero(post, entity) >= cursor_or_zero(pre, entity),
{
}

/// Cursor pruning and reappearance: once an entity is pruned because it left
/// the active set, it holds no cursor, and an event with a fresh nonzero
/// timestamp observed after it reappears is treated as new.
pub proof fn lemma_pruned_entity_is_new(
    s0: DedupState,
    s1: DedupState,
    s2: DedupState,
    active: Seq<String>,
    entity: Seq<char>,
    timestamp: u64,
    notify: bool,
)
    requires
        s1.cursors@ == pruned(s0.cursors@, active),
        !active_contains(active, entity),
        observe_post(s1, s2, entity, timestamp, notify),
        timestamp != 0,
    ensures
        s1.spec_cursor_of(entity) is None,
        notify,
{
    lemma_pruned_cursor_in(s0.cursors@, active, entity);
}

} // verus!
