//! The fusion store: one entity state per id, merged under a single
//! writer, copied out by snapshots.
//!
//! `update` applies one validated record: raw fields are overwritten,
//! the smoothed position moves by one exponential-smoothing step, the
//! history trail gains one point and is then evicted from its head until
//! both the count bound and the age bound hold again. `snapshot` returns
//! an independent copy of every entity plus the global counters, so no
//! caller ever holds a live reference into the store.

use crate::record::{RecModel, TelemetryRecord};
use crate::smoothing::{ema_step, spec_ema, POS_LIMIT};
use vstd::prelude::*;

verus! {

/// Configuration of the fusion engine: the smoothing factor as a
/// rational `alpha_num / alpha_den`, and the two trail bounds.
#[derive(Clone, Copy, PartialEq, Eq, Structural)]
pub struct FusionConfig {
    pub alpha_num: u64,
    pub alpha_den: u64,
    /// Largest number of points a trail may keep.
    pub max_points: usize,
    /// Largest age, in milliseconds, the oldest trail point may reach.
    pub max_age_ms: u64,
}

impl FusionConfig {
    /// The smoothing factor is a fraction strictly between zero and one,
    /// with a small denominator so that smoothing never overflows.
    pub open spec fn wf(&self) -> bool {
        0 < self.alpha_num < self.alpha_den <= crate::smoothing::ALPHA_DEN_MAX
    }

    /// The reference configuration: alpha = 1/4, at most 600 trail
    /// points, at most 20 seconds of trail age.
    pub fn reference() -> (c: FusionConfig)
        ensures
            c.wf(),
            c.alpha_num == 1,
            c.alpha_den == 4,
            c.max_points == 600,
            c.max_age_ms == 20_000,
    {
        FusionConfig { alpha_num: 1, alpha_den: 4, max_points: 600, max_age_ms: 20_000 }
    }
}

/// One point of an entity's history trail: the smoothed position and the
/// local receive instant at which it was recorded.
#[derive(Clone, Copy, PartialEq, Eq, Structural, Debug)]
pub struct TrailPoint {
    pub x: i64,
    pub y: i64,
    pub at_ms: u64,
}

/// Mathematical model of one entity state.
pub ghost struct StateModel {
    pub x: int,
    pub y: int,
    pub z: int,
    pub battery: int,
    pub status: Seq<u8>,
    pub ts_ms: int,
    pub last_seen_ms: int,
    pub smoothed_x: int,
    pub smoothed_y: int,
    pub trail: Seq<TrailPoint>,
}

/// The state kept for one entity: the latest raw fields, the smoothed
/// position, the local receive instant of the latest record, and the
/// bounded history trail.
pub struct EntityState {
    pub x: i64,
    pub y: i64,
    pub z: i64,
    pub battery: i64,
    pub status: Vec<u8>,
    pub ts_ms: u128,
    /// Local monotonic receive instant of the latest record, distinct
    /// from the producer-supplied `ts_ms`.
    pub last_seen_ms: u64,
    pub smoothed_x: i64,
    pub smoothed_y: i64,
    pub trail: Vec<TrailPoint>,
}

impl View for EntityState {
    type V = StateModel;

    open spec fn view(&self) -> StateModel {
        StateModel {
            x: self.x as int,
            y: self.y as int,
            z: self.z as int,
            battery: self.battery as int,
            status: self.status@,
            ts_ms: self.ts_ms as int,
            last_seen_ms: self.last_seen_ms as int,
            smoothed_x: self.smoothed_x as int,
            smoothed_y: self.smoothed_y as int,
            trail: self.trail@,
        }
    }
}

/// Trail eviction by count: drop points from the head while the trail
/// holds more than `max_points`.
pub open spec fn spec_evict_len(t: Seq<TrailPoint>, max_points: int) -> Seq<TrailPoint>
    decreases t.len(),
{
    if t.len() > max_points && t.len() > 0 {
        spec_evict_len(t.drop_first(), max_points)
    } else {
        t
    }
}

/// Trail eviction by age: drop points from the head while the oldest
/// one is older than `max_age_ms` relative to `now_ms`.
pub open spec fn spec_evict_age(t: Seq<TrailPoint>, now_ms: int, max_age_ms: int) -> Seq<TrailPoint>
    decreases t.len(),
{
    if t.len() > 0 && now_ms - t[0].at_ms > max_age_ms {
        spec_evict_age(t.drop_first(), now_ms, max_age_ms)
    } else {
        t
    }
}

/// Both evictions, count first, as they run after every update.
pub open spec fn spec_evict(t: Seq<TrailPoint>, now_ms: int, cfg: FusionConfig) -> Seq<TrailPoint> {
    spec_evict_age(spec_evict_len(t, cfg.max_points as int), now_ms, cfg.max_age_ms as int)
}

/// The state created for the first record of an id: raw fields from the
/// record, smoothed position equal to the raw position, empty trail.
pub open spec fn spec_fresh(r: RecModel, now_ms: int) -> StateModel {
    StateModel {
        x: r.x,
        y: r.y,
        z: r.z,
        battery: r.battery,
        status: r.status,
        ts_ms: r.ts_ms,
        last_seen_ms: now_ms,
        smoothed_x: r.x,
        smoothed_y: r.y,
        trail: Seq::empty(),
    }
}

/// One update applied to an entity state: overwrite the raw fields, move
/// the smoothed position one smoothing step toward the raw position,
/// stamp the receive instant, append one trail point and evict.
pub open spec fn spec_apply(e: StateModel, r: RecModel, now_ms: int, cfg: FusionConfig) -> StateModel {
    let sx = spec_ema(e.smoothed_x, r.x, cfg.alpha_num as int, cfg.alpha_den as int);
    let sy = spec_ema(e.smoothed_y, r.y, cfg.alpha_num as int, cfg.alpha_den as int);
    let pt = TrailPoint { x: sx as i64, y: sy as i64, at_ms: now_ms as u64 };
    StateModel {
        x: r.x,
        y: r.y,
        z: r.z,
        battery: r.battery,
        status: r.status,
        ts_ms: r.ts_ms,
        last_seen_ms: now_ms,
        smoothed_x: sx,
        smoothed_y: sy,
        trail: spec_evict(e.trail.push(pt), now_ms, cfg),
    }
}

/// What an update leaves for the record's id: the previous state moved
/// one step, or a fresh state moved its first step (which leaves the
/// smoothed position at the raw position).
pub open spec fn spec_update_target(
    prev: Option<StateModel>,
    r: RecModel,
    now_ms: int,
    cfg: FusionConfig,
) -> StateModel {
    match prev {
        Some(e) => spec_apply(e, r, now_ms, cfg),
        None => spec_apply(spec_fresh(r, now_ms), r, now_ms, cfg),
    }
}

impl EntityState {
    /// Bounds and timing facts every stored entity satisfies.
    pub open spec fn wf(&self, cfg: FusionConfig) -> bool {
        &&& -POS_LIMIT <= self.x <= POS_LIMIT
        &&& -POS_LIMIT <= self.y <= POS_LIMIT
        &&& -POS_LIMIT <= self.z <= POS_LIMIT
        &&& -POS_LIMIT <= self.battery <= POS_LIMIT
        &&& -POS_LIMIT <= self.smoothed_x <= POS_LIMIT
        &&& -POS_LIMIT <= self.smoothed_y <= POS_LIMIT
        &&& self.trail@.len() <= cfg.max_points
        &&& forall|i: int|
            0 <= i < self.trail@.len() ==> (#[trigger] self.trail@[i]).at_ms <= self.last_seen_ms
        &&& self.trail@.len() > 0 ==> self.last_seen_ms - self.trail@[0].at_ms <= cfg.max_age_ms
    }
}

/// One store entry: an id and the state kept for it.
pub struct Entry {
    pub id: u32,
    pub state: EntityState,
}

/// First-match lookup over the entry sequence.
pub open spec fn lookup(s: Seq<Entry>, id: u32) -> Option<StateModel>
    decreases s.len(),
{
    if s.len() == 0 {
        None
    } else if s[0].id == id {
        Some(s[0].state@)
    } else {
        lookup(s.drop_first(), id)
    }
}

/// How many entries carry the given id.
pub open spec fn count_id(s: Seq<Entry>, id: u32) -> nat
    decreases s.len(),
{
    if s.len() == 0 {
        0
    } else {
        (if s[0].id == id {
            1nat
        } else {
            0nat
        }) + count_id(s.drop_first(), id)
    }
}

/// No two entries share an id.
pub open spec fn distinct_ids(s: Seq<Entry>) -> bool {
    forall|i: int, j: int| 0 <= i < j < s.len() ==> s[i].id != s[j].id
}

/// An independent copy of the store's state at one instant: every entity,
/// plus the two global counters.
pub struct StoreSnapshot {
    pub entities: Vec<Entry>,
    pub total_packets: u64,
    pub last_packet_ms: Option<u64>,
}

/// The shared map of entity id to entity state, with the two global
/// counters. The single source of truth; updates and snapshots go
/// through it alone.
pub struct FusionStore {
    pub cfg: FusionConfig,
    pub entities: Vec<Entry>,
    pub total_packets: u64,
    /// Local receive instant of the last accepted packet.
    pub last_packet_ms: Option<u64>,
}

impl FusionStore {
    /// The store's notion of the current instant: the receive instant of
    /// the last packet, or zero before any packet.
    pub open spec fn clock_ms(&self) -> int {
        match self.last_packet_ms {
            Some(t) => t as int,
            None => 0,
        }
    }

    /// The store invariant: a valid configuration, distinct ids, every
    /// entity well formed and none seen after the last packet.
    pub open spec fn wf(&self) -> bool {
        &&& self.cfg.wf()
        &&& distinct_ids(self.entities@)
        &&& forall|i: int|
            0 <= i < self.entities@.len() ==> (#[trigger] self.entities@[i]).state.wf(self.cfg)
        &&& forall|i: int|
            0 <= i < self.entities@.len() ==> (#[trigger] self.entities@[i]).state.last_seen_ms
                <= self.clock_ms()
    }

    /// An empty store under the given configuration.
    pub fn new(cfg: FusionConfig) -> (s: FusionStore)
        requires
            cfg.wf(),
        ensures
            s.wf(),
            s.cfg == cfg,
            s.entities@.len() == 0,
            s.total_packets == 0,
            s.last_packet_ms is None,
    {
        FusionStore { cfg, entities: Vec::new(), total_packets: 0, last_packet_ms: None }
    }

    fn find_index(&self, id: u32) -> (r: Option<usize>)
        ensures
            match r {
                Some(i) => i < self.entities@.len() && self.entities@[i as int].id == id
                    && forall|j: int| 0 <= j < i ==> (#[trigger] self.entities@[j]).id != id,
                None => forall|j: int|
                    0 <= j < self.entities@.len() ==> (#[trigger] self.entities@[j]).id != id,
            },
    {
        let n = self.entities.len();
        let mut i: usize = 0;
        while i < n
            invariant
                i <= n,
                n == self.entities@.len(),
                forall|j: int| 0 <= j < i ==> (#[trigger] self.entities@[j]).id != id,
            decreases n - i,
        {
            if self.entities[i].id == id {
                return Some(i);
            }
            i = i + 1;
        }
        None
    }

    /// Apply one validated record under the store's single critical
    /// section (the caller holds the store exclusively through `&mut`):
    /// merge it into the entity named by its id, then bump the global
    /// counters. Exactly the entry for `r.id` changes; every other id
    /// reads as before.
    pub fn update(&mut self, r: &TelemetryRecord, now_ms: u64)
        requires
            old(self).wf(),
            r.valid(),
            now_ms >= old(self).clock_ms(),
            old(self).total_packets < u64::MAX,
        ensures
            final(self).wf(),
            final(self).cfg == old(self).cfg,
            final(self).total_packets == old(self).total_packets + 1,
            final(self).last_packet_ms == Some(now_ms),
            lookup(final(self).entities@, r.id) == Some(
                spec_update_target(
                    lookup(old(self).entities@, r.id),
                    r@,
                    now_ms as int,
                    old(self).cfg,
                ),
            ),
            forall|k: u32|
                k != r.id ==> lookup(final(self).entities@, k) == lookup(old(self).entities@, k),
            final(self).entities@.len() == old(self).entities@.len() + (
            if lookup(old(self).entities@, r.id) is Some {
                0int
            } else {
                1int
            }),
            // The trail bounds hold immediately after the update.
            ({
                let t = spec_update_target(
                    lookup(old(self).entities@, r.id),
                    r@,
                    now_ms as int,
                    old(self).cfg,
                ).trail;
                &&& t.len() <= old(self).cfg.max_points
                &&& t.len() > 0 ==> now_ms - t[0].at_ms <= old(self).cfg.max_age_ms
            }),
            // The receive instant never runs backwards for an entity.
            (match lookup(old(self).entities@, r.id) {
                Some(prev) => prev.last_seen_ms <= now_ms,
                None => true,
            }),
    {
        let cfg = self.cfg;
        let found = self.find_index(r.id);
        match found {
            Some(i) => {
                proof {
                    lemma_lookup_at_first_index(self.entities@, i as int, r.id);
                }
                let ghost old_entities = self.entities@;
                let e = entry_mut(&mut self.entities, i);
                e.state.apply(r, now_ms, cfg);
                proof {
                    let new_entry = Entry { id: r.id, state: final(e).state };
                    assert(self.entities@ =~= old_entities.update(i as int, new_entry));
                    lemma_lookup_update_same(old_entities, i as int, new_entry);
                    assert forall|k: u32| k != r.id implies lookup(self.entities@, k) == lookup(
                        old_entities,
                        k,
                    ) by {
                        lemma_lookup_update_other(old_entities, i as int, new_entry, k);
                    }
                    assert(distinct_ids(self.entities@));
                }
            },
            None => {
                proof {
                    lemma_lookup_absent(self.entities@, r.id);
                }
                let ghost old_entities = self.entities@;
                let mut st = EntityState::fresh_from(r, now_ms);
                st.apply(r, now_ms, cfg);
                let entry = Entry { id: r.id, state: st };
                proof {
                    lemma_lookup_push_new(old_entities, entry);
                    assert forall|k: u32| k != r.id implies lookup(
                        old_entities.push(entry),
                        k,
                    ) == lookup(old_entities, k) by {
                        lemma_lookup_push_other(old_entities, entry, k);
                    }
                }
                self.entities.push(entry);
            },
        }
        self.total_packets = self.total_packets + 1;
        self.last_packet_ms = Some(now_ms);
    }

    /// How many entries the store holds for an id: never more than one
    /// in a well-formed store, and exactly one once a record for the id
    /// has been accepted.
    pub fn entity_count(&self, id: u32) -> (n: usize)
        ensures
            n == count_id(self.entities@, id),
            self.wf() ==> n <= 1,
            self.wf() ==> ((n == 1) == (lookup(self.entities@, id) is Some)),
    {
        let len = self.entities.len();
        let mut cnt: usize = 0;
        let mut i: usize = len;
        proof {
            assert(self.entities@.subrange(len as int, len as int) =~= Seq::<Entry>::empty());
        }
        while i > 0
            invariant
                i <= len,
                len == self.entities@.len(),
                cnt == count_id(self.entities@.subrange(i as int, len as int), id),
                cnt <= len - i,
            decreases i,
        {
            i = i - 1;
            let ghost pre = self.entities@.subrange(i as int, len as int);
            proof {
                assert(pre[0] == self.entities@[i as int]);
                assert(pre.drop_first() =~= self.entities@.subrange(i as int + 1, len as int));
            }
            if self.entities[i].id == id {
                cnt = cnt + 1;
            }
        }
        proof {
            assert(self.entities@.subrange(0, len as int) =~= self.entities@);
            if self.wf() {
                lemma_one_state_per_id(self.entities@, id);
            }
        }
        cnt
    }

    /// Copy the whole store state out: every entity and both counters.
    /// The copy is independent; later updates cannot reach it, and it
    /// reads exactly as the store read at the instant of the call.
    pub fn snapshot(&self) -> (snap: StoreSnapshot)
        ensures
            snap.total_packets == self.total_packets,
            snap.last_packet_ms == self.last_packet_ms,
            snap.entities@.len() == self.entities@.len(),
            forall|i: int|
                0 <= i < self.entities@.len() ==> (#[trigger] snap.entities@[i]).id
                    == self.entities@[i].id && snap.entities@[i].state@ == self.entities@[i].state@,
            forall|k: u32| #[trigger] lookup(snap.entities@, k) == lookup(self.entities@, k),
    {
        let n = self.entities.len();
        let mut out: Vec<Entry> = Vec::new();
        let mut i: usize = 0;
        while i < n
            invariant
                i <= n,
                n == self.entities@.len(),
                out@.len() == i,
                forall|j: int|
                    0 <= j < i ==> (#[trigger] out@[j]).id == self.entities@[j].id
                        && out@[j].state@ == self.entities@[j].state@,
            decreases n - i,
        {
            let src = &self.entities[i];
            let copied = Entry { id: src.id, state: src.state.copy_out() };
            out.push(copied);
            i = i + 1;
        }
        proof {
            lemma_lookup_congruent(out@, self.entities@);
        }
        StoreSnapshot {
            entities: out,
            total_packets: self.total_packets,
            last_packet_ms: self.last_packet_ms,
        }
    }
}

fn entry_mut(v: &mut Vec<Entry>, i: usize) -> (e: &mut Entry)
    requires
        i < old(v).len(),
    ensures
        *e == old(v)@[i as int],
        final(v)@ == old(v)@.update(i as int, *final(e)),
{
    &mut v[i]
}

/// Element-wise copy of a vector of plain values.
fn copy_vec<T: Copy>(v: &Vec<T>) -> (out: Vec<T>)
    ensures
        out@ == v@,
{
    let mut out: Vec<T> = Vec::new();
    let mut i: usize = 0;
    while i < v.len()
        invariant
            i <= v.len(),
            out@ == v@.subrange(0, i as int),
        decreases v.len() - i,
    {
        out.push(v[i]);
        i = i + 1;
        proof {
            assert(out@ =~= v@.subrange(0, i as int));
        }
    }
    proof {
        assert(out@ =~= v@);
    }
    out
}

impl EntityState {
    /// The state the first record of an id creates, before its first
    /// smoothing step runs.
    fn fresh_from(r: &TelemetryRecord, now_ms: u64) -> (st: EntityState)
        ensures
            st@ == spec_fresh(r@, now_ms as int),
    {
        let st = EntityState {
            x: r.x,
            y: r.y,
            z: r.z,
            battery: r.battery,
            status: copy_vec(&r.status),
            ts_ms: r.ts_ms,
            last_seen_ms: now_ms,
            smoothed_x: r.x,
            smoothed_y: r.y,
            trail: Vec::new(),
        };
        proof {
            assert(st@.trail =~= spec_fresh(r@, now_ms as int).trail);
        }
        st
    }

    /// An independent copy, equal to this state as a model.
    pub fn copy_out(&self) -> (out: EntityState)
        ensures
            out@ == self@,
    {
        EntityState {
            x: self.x,
            y: self.y,
            z: self.z,
            battery: self.battery,
            status: copy_vec(&self.status),
            ts_ms: self.ts_ms,
            last_seen_ms: self.last_seen_ms,
            smoothed_x: self.smoothed_x,
            smoothed_y: self.smoothed_y,
            trail: copy_vec(&self.trail),
        }
    }

    /// One update step on this entity, exactly [`spec_apply`].
    fn apply(&mut self, r: &TelemetryRecord, now_ms: u64, cfg: FusionConfig)
        requires
            old(self).wf(cfg),
            r.valid(),
            cfg.wf(),
            old(self).last_seen_ms <= now_ms,
        ensures
            final(self)@ == spec_apply(old(self)@, r@, now_ms as int, cfg),
            final(self).wf(cfg),
            final(self).trail@.len() <= cfg.max_points,
            final(self).trail@.len() > 0 ==> now_ms - final(self).trail@[0].at_ms
                <= cfg.max_age_ms,
            final(self).last_seen_ms == now_ms,
    {
        let sx = ema_step(self.smoothed_x, r.x, cfg.alpha_num, cfg.alpha_den);
        let sy = ema_step(self.smoothed_y, r.y, cfg.alpha_num, cfg.alpha_den);
        let pt = TrailPoint { x: sx, y: sy, at_ms: now_ms };
        self.trail.push(pt);
        let ghost after_push = self.trail@;
        // Evict by count.
        while self.trail.len() > cfg.max_points
            invariant
                spec_evict_len(after_push, cfg.max_points as int) == spec_evict_len(
                    self.trail@,
                    cfg.max_points as int,
                ),
                forall|i: int|
                    0 <= i < self.trail@.len() ==> (#[trigger] self.trail@[i]).at_ms <= now_ms,
            decreases self.trail@.len(),
        {
            let ghost before = self.trail@;
            self.trail.remove(0);
            proof {
                assert(self.trail@ =~= before.drop_first());
            }
        }
        proof {
            assert(spec_evict_len(self.trail@, cfg.max_points as int) == self.trail@);
            lemma_evict_len_bound(after_push, cfg.max_points as int);
        }
        let ghost after_len = self.trail@;
        // Evict by age.
        while self.trail.len() > 0 && now_ms - self.trail[0].at_ms > cfg.max_age_ms
            invariant
                spec_evict_age(after_len, now_ms as int, cfg.max_age_ms as int) == spec_evict_age(
                    self.trail@,
                    now_ms as int,
                    cfg.max_age_ms as int,
                ),
                self.trail@.len() <= after_len.len(),
                after_len == spec_evict_len(after_push, cfg.max_points as int),
                forall|i: int|
                    0 <= i < self.trail@.len() ==> (#[trigger] self.trail@[i]).at_ms <= now_ms,
            decreases self.trail@.len(),
        {
            let ghost before = self.trail@;
            self.trail.remove(0);
            proof {
                assert(self.trail@ =~= before.drop_first());
            }
        }
        proof {
            assert(spec_evict_age(self.trail@, now_ms as int, cfg.max_age_ms as int)
                == self.trail@);
            assert(self.trail@ == spec_evict(after_push, now_ms as int, cfg));
            assert(self.trail@.len() <= after_len.len());
        }
        self.x = r.x;
        self.y = r.y;
        self.z = r.z;
        self.battery = r.battery;
        self.status = copy_vec(&r.status);
        self.ts_ms = r.ts_ms;
        self.last_seen_ms = now_ms;
        self.smoothed_x = sx;
        self.smoothed_y = sy;
        proof {
            let target = spec_apply(old(self)@, r@, now_ms as int, cfg);
            assert(final(self)@.trail == target.trail);
            assert(final(self)@.status =~= target.status);
            assert(final(self)@ == target);
        }
    }
}

/// Count eviction leaves at most `max_points` points when the bound is
/// non-negative.
proof fn lemma_evict_len_bound(t: Seq<TrailPoint>, max_points: int)
    requires
        max_points >= 0,
    ensures
        spec_evict_len(t, max_points).len() <= max_points,
    decreases t.len(),
{
    if t.len() > max_points {
        lemma_evict_len_bound(t.drop_first(), max_points);
    }
}

/// First-match lookup finds the entry at the first index carrying the id.
pub proof fn lemma_lookup_at_first_index(s: Seq<Entry>, i: int, id: u32)
    requires
        0 <= i < s.len(),
        s[i].id == id,
        forall|j: int| 0 <= j < i ==> (#[trigger] s[j]).id != id,
    ensures
        lookup(s, id) == Some(s[i].state@),
    decreases i,
{
    if i > 0 {
        lemma_lookup_at_first_index(s.drop_first(), i - 1, id);
    }
}

/// Lookup misses when no entry carries the id.
pub proof fn lemma_lookup_absent(s: Seq<Entry>, id: u32)
    requires
        forall|j: int| 0 <= j < s.len() ==> (#[trigger] s[j]).id != id,
    ensures
        lookup(s, id) is None,
    decreases s.len(),
{
    if s.len() > 0 {
        lemma_lookup_absent(s.drop_first(), id);
    }
}

/// Replacing the first entry of an id changes its lookup to the new state.
proof fn lemma_lookup_update_same(s: Seq<Entry>, i: int, e: Entry)
    requires
        0 <= i < s.len(),
        s[i].id == e.id,
        forall|j: int| 0 <= j < i ==> (#[trigger] s[j]).id != e.id,
    ensures
        lookup(s.update(i, e), e.id) == Some(e.state@),
    decreases i,
{
    if i == 0 {
        assert(s.update(0, e)[0] == e);
    } else {
        assert(s.update(i, e).drop_first() =~= s.drop_first().update(i - 1, e));
        lemma_lookup_update_same(s.drop_first(), i - 1, e);
    }
}

/// Replacing an entry leaves lookups of every other id unchanged, as long
/// as the replacement keeps the id that was there.
proof fn lemma_lookup_update_other(s: Seq<Entry>, i: int, e: Entry, k: u32)
    requires
        0 <= i < s.len(),
        s[i].id == e.id,
        k != e.id,
    ensures
        lookup(s.update(i, e), k) == lookup(s, k),
    decreases i,
{
    if i == 0 {
        assert(s.update(0, e).drop_first() =~= s.drop_first());
    } else {
        assert(s.update(i, e)[0] == s[0]);
        if s[0].id != k {
            assert(s.update(i, e).drop_first() =~= s.drop_first().update(i - 1, e));
            lemma_lookup_update_other(s.drop_first(), i - 1, e, k);
        }
    }
}

/// Appending an entry whose id is absent makes its lookup find it.
proof fn lemma_lookup_push_new(s: Seq<Entry>, e: Entry)
    requires
        forall|j: int| 0 <= j < s.len() ==> (#[trigger] s[j]).id != e.id,
    ensures
        lookup(s.push(e), e.id) == Some(e.state@),
    decreases s.len(),
{
    if s.len() == 0 {
        assert(s.push(e)[0] == e);
    } else {
        assert(s.push(e).drop_first() =~= s.drop_first().push(e));
        lemma_lookup_push_new(s.drop_first(), e);
    }
}

/// Appending an entry leaves lookups of every other id unchanged.
proof fn lemma_lookup_push_other(s: Seq<Entry>, e: Entry, k: u32)
    requires
        k != e.id,
    ensures
        lookup(s.push(e), k) == lookup(s, k),
    decreases s.len(),
{
    if s.len() == 0 {
        assert(s.push(e)[0] == e);
        assert(s.push(e).drop_first() =~= Seq::<Entry>::empty());
        assert(lookup(Seq::<Entry>::empty(), k) is None);
    } else {
        assert(s.push(e)[0] == s[0]);
        if s[0].id != k {
            assert(s.push(e).drop_first() =~= s.drop_first().push(e));
            lemma_lookup_push_other(s.drop_first(), e, k);
        }
    }
}

/// Two entry sequences that agree entry by entry (same ids, equal state
/// models) agree on every lookup.
proof fn lemma_lookup_congruent(a: Seq<Entry>, b: Seq<Entry>)
    requires
        a.len() == b.len(),
        forall|i: int|
            0 <= i < a.len() ==> (#[trigger] a[i]).id == b[i].id && a[i].state@ == b[i].state@,
    ensures
        forall|k: u32| #[trigger] lookup(a, k) == lookup(b, k),
    decreases a.len(),
{
    if a.len() > 0 {
        assert(a.drop_first().len() == b.drop_first().len());
        assert forall|i: int|
            0 <= i < a.drop_first().len() implies (#[trigger] a.drop_first()[i]).id
            == b.drop_first()[i].id && a.drop_first()[i].state@ == b.drop_first()[i].state@ by {
            assert(a[i + 1].id == b[i + 1].id && a[i + 1].state@ == b[i + 1].state@);
        }
        lemma_lookup_congruent(a.drop_first(), b.drop_first());
        assert forall|k: u32| #[trigger] lookup(a, k) == lookup(b, k) by {
            assert(a[0].id == b[0].id && a[0].state@ == b[0].state@);
            if a[0].id != k {
                assert(lookup(a.drop_first(), k) == lookup(b.drop_first(), k));
            }
        }
    }
}

/// With distinct ids, an id occurs at most once, and a lookup hit means
/// it occurs exactly once: creation is idempotent on identity.
pub proof fn lemma_one_state_per_id(s: Seq<Entry>, id: u32)
    requires
        distinct_ids(s),
    ensures
        count_id(s, id) <= 1,
        lookup(s, id) is Some <==> count_id(s, id) == 1,
    decreases s.len(),
{
    if s.len() > 0 {
        assert(distinct_ids(s.drop_first())) by {
            assert forall|i: int, j: int|
                0 <= i < j < s.drop_first().len() implies s.drop_first()[i].id
                != s.drop_first()[j].id by {
                assert(s[i + 1].id != s[j + 1].id);
            }
        }
        lemma_one_state_per_id(s.drop_first(), id);
        if s[0].id == id {
            assert forall|j: int|
                0 <= j < s.drop_first().len() implies (#[trigger] s.drop_first()[j]).id != id by {
                assert(s[0].id != s[j + 1].id);
            }
            lemma_lookup_absent(s.drop_first(), id);
            assert(count_id(s.drop_first(), id) == 0) by {
                lemma_count_zero_when_absent(s.drop_first(), id);
            }
        }
    }
}

/// An id that no entry carries is counted zero times.
proof fn lemma_count_zero_when_absent(s: Seq<Entry>, id: u32)
    requires
        forall|j: int| 0 <= j < s.len() ==> (#[trigger] s[j]).id != id,
    ensures
        count_id(s, id) == 0,
    decreases s.len(),
{
    if s.len() > 0 {
        lemma_count_zero_when_absent(s.drop_first(), id);
    }
}

/// One datagram handled as the listener handles it: decode, and merge
/// into the store only when the whole datagram is well formed. Anything
/// malformed leaves the store exactly as it was — no counter moves, no
/// entity changes — and reports `false`; the caller retries with the
/// next datagram.
pub fn handle_datagram(store: &mut FusionStore, buf: &[u8], now_ms: u64) -> (accepted: bool)
    requires
        old(store).wf(),
        now_ms >= old(store).clock_ms(),
        old(store).total_packets < u64::MAX,
    ensures
        final(store).wf(),
        accepted == (crate::decode::spec_decode(buf@) is Some),
        match crate::decode::spec_decode(buf@) {
            Some(r) => {
                &&& final(store).cfg == old(store).cfg
                &&& final(store).total_packets == old(store).total_packets + 1
                &&& final(store).last_packet_ms == Some(now_ms)
                &&& lookup(final(store).entities@, r.id as u32) == Some(
                    spec_update_target(
                        lookup(old(store).entities@, r.id as u32),
                        r,
                        now_ms as int,
                        old(store).cfg,
                    ),
                )
                &&& forall|k: u32|
                    k != r.id as u32 ==> lookup(final(store).entities@, k) == lookup(
                        old(store).entities@,
                        k,
                    )
            },
            None => *final(store) == *old(store),
        },
{
    match crate::decode::decode_record(buf) {
        Some(rec) => {
            proof {
                assert(rec@.id == rec.id as int);
            }
            store.update(&rec, now_ms);
            true
        },
        None => false,
    }
}

/// Relies on std's `SystemTime::now`, `duration_since` and
/// `Duration::as_millis` for the wall clock; nothing is promised of the
/// value, since the clock can move arbitrarily.
#[verifier::external_body]
fn system_millis() -> u128 {
    match std::time::SystemTime::now().duration_since(std::time::UNIX_EPOCH) {
        Ok(d) => d.as_millis(),
        Err(_) => 0,
    }
}

/// The wall clock in milliseconds since the Unix epoch, as producers
/// stamp `ts_ms`. Display metadata only: never a receive instant, and
/// never used for smoothing, eviction or staleness.
pub fn now_ms() -> u128 {
    system_millis()
}

/// Freshness classification: stale exactly when the time since the
/// entity's last record has reached the threshold. Pure and stateless;
/// always recomputed from a snapshot, never cached.
pub fn is_stale(now_ms: u64, last_seen_ms: u64, threshold_ms: u64) -> (stale: bool)
    requires
        now_ms >= last_seen_ms,
    ensures
        stale == (now_ms - last_seen_ms >= threshold_ms),
{
    now_ms - last_seen_ms >= threshold_ms
}

} // verus!

