use vstd::prelude::*;
use crate::geometry::Point;

verus! {

/// What an agent remembers of an entity it has seen.
#[derive(Clone, Copy, Debug, PartialEq, Eq, Structural)]
pub struct SeenData {
    /// Milliseconds since the entity was last visible; 0 while visible.
    pub last_seen_elapsed: u64,
    /// Where the entity was when last visible.
    pub last_pos: Point,
    /// Whether the entity's last displacement was caused by the observer.
    pub pushed_by_self: bool,
}

/// One tracked entity and what is remembered of it.
#[derive(Clone, Copy, Debug, PartialEq, Eq, Structural)]
pub struct MemoryEntry {
    pub entity: u64,
    pub data: SeenData,
}

/// An entity visible in the current tick.
#[derive(Clone, Copy, Debug, PartialEq, Eq, Structural)]
pub struct Sighting {
    pub entity: u64,
    pub pos: Point,
    pub pushed_by_self: bool,
}

/// One agent's memory of every entity it has ever seen, in the order of
/// first sighting. Entries are never removed.
#[derive(Clone, Debug)]
pub struct VisualMemory {
    pub entries: Vec<MemoryEntry>,
}

/// No entity occurs twice.
pub open spec fn unique_entries(m: Seq<MemoryEntry>) -> bool {
    forall|i: int, j: int|
        0 <= i < m.len() && 0 <= j < m.len() && i != j ==> m[i].entity != m[j].entity
}

/// No entity is sighted twice in one tick.
pub open spec fn unique_sightings(seen: Seq<Sighting>) -> bool {
    forall|i: int, j: int|
        0 <= i < seen.len() && 0 <= j < seen.len() && i != j ==> seen[i].entity != seen[j].entity
}

pub open spec fn is_sighted(seen: Seq<Sighting>, e: u64) -> bool {
    exists|j: int| 0 <= j < seen.len() && (#[trigger] seen[j]).entity == e
}

/// The sighting of `e`, where `is_sighted(seen, e)`.
pub open spec fn sighting_of(seen: Seq<Sighting>, e: u64) -> Sighting {
    seen[choose|j: int| 0 <= j < seen.len() && (#[trigger] seen[j]).entity == e]
}

pub open spec fn is_known(m: Seq<MemoryEntry>, e: u64) -> bool {
    exists|i: int| 0 <= i < m.len() && (#[trigger] m[i]).entity == e
}

/// The Visible state: elapsed time 0, position and flag from the sighting.
pub open spec fn fresh(s: Sighting) -> MemoryEntry {
    MemoryEntry {
        entity: s.entity,
        data: SeenData { last_seen_elapsed: 0, last_pos: s.pos, pushed_by_self: s.pushed_by_self },
    }
}

/// `elapsed + dt`, held at `u64::MAX`.
pub open spec fn add_elapsed(elapsed: u64, dt: u64) -> u64 {
    if elapsed + dt > u64::MAX {
        u64::MAX
    } else {
        (elapsed + dt) as u64
    }
}

/// The Remembered state: elapsed time advances, the rest stays frozen.
pub open spec fn aged(m: MemoryEntry, dt: u64) -> MemoryEntry {
    MemoryEntry {
        entity: m.entity,
        data: SeenData { last_seen_elapsed: add_elapsed(m.data.last_seen_elapsed, dt), ..m.data },
    }
}

pub open spec fn refresh(m: MemoryEntry, seen: Seq<Sighting>, dt: u64) -> MemoryEntry {
    if is_sighted(seen, m.entity) {
        fresh(sighting_of(seen, m.entity))
    } else {
        aged(m, dt)
    }
}

/// Entries for the sightings of entities that `m` does not know yet.
pub open spec fn new_entries(m: Seq<MemoryEntry>, seen: Seq<Sighting>) -> Seq<MemoryEntry>
    decreases seen.len(),
{
    if seen.len() == 0 {
        Seq::empty()
    } else {
        let prev = new_entries(m, seen.drop_last());
        if is_known(m, seen.last().entity) {
            prev
        } else {
            prev.push(fresh(seen.last()))
        }
    }
}

/// One tick of the tracker: each known entity is refreshed or aged in place,
/// and first sightings are appended.
pub open spec fn step_entries(m: Seq<MemoryEntry>, seen: Seq<Sighting>, dt: u64) -> Seq<
    MemoryEntry,
> {
    m.map_values(|e: MemoryEntry| refresh(e, seen, dt)) + new_entries(m, seen)
}

/// Ticks in turn, one per set of sightings, each of duration `dt`.
pub open spec fn run_ticks(m: Seq<MemoryEntry>, ticks: Seq<Seq<Sighting>>, dt: u64) -> Seq<
    MemoryEntry,
>
    decreases ticks.len(),
{
    if ticks.len() == 0 {
        m
    } else {
        step_entries(run_ticks(m, ticks.drop_last(), dt), ticks.last(), dt)
    }
}

impl VisualMemory {
    pub open spec fn wf(&self) -> bool {
        unique_entries(self.entries@)
    }

    pub fn new() -> (r: VisualMemory)
        ensures
            r.entries@.len() == 0,
            r.wf(),
    {
        VisualMemory { entries: Vec::new() }
    }

    /// Advances the memory by one tick of `dt` milliseconds in which the
    /// entities of `seen` are visible.
    pub fn update(&mut self, seen: &Vec<Sighting>, dt: u64)
        requires
            unique_sightings(seen@),
        ensures
            final(self).entries@ == step_entries(old(self).entries@, seen@, dt),
            old(self).wf() ==> final(self).wf(),
    {
        let ghost m0 = self.entries@;
        let n0 = self.entries.len();
        let mut i: usize = 0;
        while i < n0
            invariant
                n0 == m0.len(),
                self.entries@.len() == n0,
                unique_sightings(seen@),
                i <= n0,
                forall|k: int|
                    0 <= k < n0 ==> #[trigger] self.entries@[k] == if k < i {
                        refresh(m0[k], seen@, dt)
                    } else {
                        m0[k]
                    },
            decreases n0 - i,
        {
            let cur = self.entries[i];
            let mut j: usize = 0;
            let mut found = false;
            let mut next = cur;
            while j < seen.len() && !found
                invariant
                    j <= seen@.len(),
                    unique_sightings(seen@),
                    found ==> 0 < j && seen@[j - 1].entity == cur.entity && next == fresh(
                        seen@[j - 1],
                    ),
                    !found ==> forall|k: int| 0 <= k < j ==> (#[trigger] seen@[k]).entity
                        != cur.entity,
                decreases seen@.len() - j,
            {
                if seen[j].entity == cur.entity {
                    found = true;
                    next = MemoryEntry {
                        entity: cur.entity,
                        data: SeenData {
                            last_seen_elapsed: 0,
                            last_pos: seen[j].pos,
                            pushed_by_self: seen[j].pushed_by_self,
                        },
                    };
                }
                j = j + 1;
            }
            if !found {
                let elapsed = if cur.data.last_seen_elapsed > u64::MAX - dt {
                    u64::MAX
                } else {
                    cur.data.last_seen_elapsed + dt
                };
                next = MemoryEntry {
                    entity: cur.entity,
                    data: SeenData { last_seen_elapsed: elapsed, ..cur.data },
                };
            }
            proof {
                if found {
                    let w = choose|w: int| 0 <= w < seen@.len() && (#[trigger] seen@[w]).entity == cur.entity;
                    assert(w == j - 1);
                }
            }
            self.entries.set(i, next);
            i = i + 1;
        }
        let mut s: usize = 0;
        while s < seen.len()
            invariant
                n0 == m0.len(),
                n0 <= self.entries@.len(),
                s <= seen@.len(),
                self.entries@ == m0.map_values(|e: MemoryEntry| refresh(e, seen@, dt))
                    + new_entries(m0, seen@.take(s as int)),
            decreases seen@.len() - s,
        {
            let mut k: usize = 0;
            let mut known = false;
            while k < n0 && !known
                invariant
                    k <= n0,
                    n0 == m0.len(),
                    n0 <= self.entries@.len(),
                    s < seen@.len(),
                    forall|t: int| 0 <= t < n0 ==> (#[trigger] self.entries@[t]).entity == m0[t].entity,
                    known ==> is_known(m0, seen@[s as int].entity),
                    !known ==> forall|t: int| 0 <= t < k ==> (#[trigger] m0[t]).entity
                        != seen@[s as int].entity,
                decreases n0 - k,
            {
                if self.entries[k].entity == seen[s].entity {
                    known = true;
                }
                k = k + 1;
            }
            assert(seen@.take(s + 1).drop_last() =~= seen@.take(s as int));
            assert(seen@.take(s + 1).last() == seen@[s as int]);
            if !known {
                let sg = seen[s];
                self.entries.push(
                    MemoryEntry {
                        entity: sg.entity,
                        data: SeenData {
                            last_seen_elapsed: 0,
                            last_pos: sg.pos,
                            pushed_by_self: sg.pushed_by_self,
                        },
                    },
                );
            }
            s = s + 1;
        }
        assert(seen@.take(seen@.len() as int) =~= seen@);
        assert(self.entries@ =~= step_entries(m0, seen@, dt));
        proof {
            if unique_entries(m0) {
                lemma_step_keeps_unique(m0, seen@, dt);
            }
        }
    }
}

/// Every first-sighting entry is the fresh entry of a sighting of an entity
/// unknown to `m`, and no two of them share an entity.
proof fn lemma_new_entries(m: Seq<MemoryEntry>, seen: Seq<Sighting>)
    requires
        unique_sightings(seen),
    ensures
        unique_entries(new_entries(m, seen)),
        forall|k: int|
            0 <= k < new_entries(m, seen).len() ==> exists|j: int|
                0 <= j < seen.len() && #[trigger] new_entries(m, seen)[k] == fresh(seen[j])
                    && !is_known(m, seen[j].entity),
    decreases seen.len(),
{
    if seen.len() > 0 {
        let prev_seen = seen.drop_last();
        lemma_new_entries(m, prev_seen);
        let prev = new_entries(m, prev_seen);
        let ne = new_entries(m, seen);
        assert forall|k: int| 0 <= k < prev.len() implies exists|j: int|
            0 <= j < seen.len() && #[trigger] prev[k] == fresh(seen[j]) && !is_known(
                m,
                seen[j].entity,
            ) by {
            let j = choose|j: int|
                0 <= j < prev_seen.len() && #[trigger] prev[k] == fresh(prev_seen[j]) && !is_known(
                    m,
                    prev_seen[j].entity,
                );
            assert(seen[j] == prev_seen[j]);
        }
        if !is_known(m, seen.last().entity) {
            assert forall|k: int| 0 <= k < prev.len() implies prev[k].entity != seen.last().entity by {
                let j = choose|j: int|
                    0 <= j < prev_seen.len() && #[trigger] prev[k] == fresh(prev_seen[j]) && !is_known(
                        m,
                        prev_seen[j].entity,
                    );
                assert(seen[j] == prev_seen[j]);
            }
            assert forall|k: int| 0 <= k < ne.len() implies exists|j: int|
                0 <= j < seen.len() && #[trigger] ne[k] == fresh(seen[j]) && !is_known(
                    m,
                    seen[j].entity,
                ) by {
                if k < prev.len() {
                    assert(ne[k] == prev[k]);
                } else {
                    assert(ne[k] == fresh(seen[seen.len() - 1]));
                }
            }
        }
    }
}

/// One tick keeps entity keys unique.
pub proof fn lemma_step_keeps_unique(m: Seq<MemoryEntry>, seen: Seq<Sighting>, dt: u64)
    requires
        unique_entries(m),
        unique_sightings(seen),
    ensures
        unique_entries(step_entries(m, seen, dt)),
{
    lemma_new_entries(m, seen);
    let r = step_entries(m, seen, dt);
    let ne = new_entries(m, seen);
    assert forall|i: int| 0 <= i < m.len() implies #[trigger] r[i].entity == m[i].entity by {
        if is_sighted(seen, m[i].entity) {
            let j = choose|j: int| 0 <= j < seen.len() && (#[trigger] seen[j]).entity == m[i].entity;
        }
    }
    assert forall|i: int, j: int|
        0 <= i < r.len() && 0 <= j < r.len() && i != j implies r[i].entity != r[j].entity by {
        if i >= m.len() && j < m.len() {
            let w = choose|w: int|
                0 <= w < seen.len() && #[trigger] ne[i - m.len()] == fresh(seen[w]) && !is_known(
                    m,
                    seen[w].entity,
                );
            assert(r[i] == ne[i - m.len()]);
        } else if i < m.len() && j >= m.len() {
            let w = choose|w: int|
                0 <= w < seen.len() && #[trigger] ne[j - m.len()] == fresh(seen[w]) && !is_known(
                    m,
                    seen[w].entity,
                );
            assert(r[j] == ne[j - m.len()]);
        } else if i >= m.len() && j >= m.len() {
            assert(r[i] == ne[i - m.len()]);
            assert(r[j] == ne[j - m.len()]);
        }
    }
}

/// `n * dt`, held at `u64::MAX`.
pub open spec fn capped_product(n: nat, dt: u64) -> u64 {
    if n * dt > u64::MAX {
        u64::MAX
    } else {
        (n * dt) as u64
    }
}

proof fn lemma_hidden_ticks(x: Seq<MemoryEntry>, i: int, hidden: Seq<Seq<Sighting>>, dt: u64)
    requires
        0 <= i < x.len(),
        x[i].data.last_seen_elapsed == 0,
        forall|k: int| 0 <= k < hidden.len() ==> !is_sighted(#[trigger] hidden[k], x[i].entity),
    ensures
        run_ticks(x, hidden, dt).len() >= x.len(),
        run_ticks(x, hidden, dt)[i].entity == x[i].entity,
        run_ticks(x, hidden, dt)[i].data.last_pos == x[i].data.last_pos,
        run_ticks(x, hidden, dt)[i].data.pushed_by_self == x[i].data.pushed_by_self,
        run_ticks(x, hidden, dt)[i].data.last_seen_elapsed == capped_product(hidden.len(), dt),
    decreases hidden.len(),
{
    if hidden.len() > 0 {
        let rest = hidden.drop_last();
        assert forall|k: int| 0 <= k < rest.len() implies !is_sighted(#[trigger] rest[k], x[i].entity) by {
            assert(rest[k] == hidden[k]);
        }
        lemma_hidden_ticks(x, i, rest, dt);
        let prev = run_ticks(x, rest, dt);
        assert(!is_sighted(hidden[hidden.len() - 1], x[i].entity));
        let n = hidden.len();
        let before = prev[i].data.last_seen_elapsed as int;
        assert((n - 1) * dt + dt == n * dt) by (nonlinear_arith);
        assert(n * dt >= (n - 1) * dt) by (nonlinear_arith);
    } else {
        assert(0 * dt == 0);
    }
}

/// An entity seen in one tick and then hidden for `hidden.len()` ticks of
/// `dt` milliseconds each keeps its index, its last position and its flag,
/// and has been unseen for `hidden.len() * dt` milliseconds (held at
/// `u64::MAX`).
pub proof fn lemma_memory_round_trip(
    m: Seq<MemoryEntry>,
    seen: Seq<Sighting>,
    s: Sighting,
    i: int,
    hidden: Seq<Seq<Sighting>>,
    dt: u64,
)
    requires
        unique_sightings(seen),
        seen.contains(s),
        0 <= i < step_entries(m, seen, dt).len(),
        step_entries(m, seen, dt)[i].entity == s.entity,
        forall|k: int| 0 <= k < hidden.len() ==> !is_sighted(#[trigger] hidden[k], s.entity),
    ensures
        ({
            let r = run_ticks(step_entries(m, seen, dt), hidden, dt);
            &&& i < r.len()
            &&& r[i].entity == s.entity
            &&& r[i].data.last_pos == s.pos
            &&& r[i].data.pushed_by_self == s.pushed_by_self
            &&& r[i].data.last_seen_elapsed == capped_product(hidden.len(), dt)
        }),
{
    let x = step_entries(m, seen, dt);
    let js = choose|j: int| 0 <= j < seen.len() && seen[j] == s;
    if i < m.len() {
        assert(x[i] == refresh(m[i], seen, dt));
        assert(is_sighted(seen, m[i].entity)) by {
            assert(seen[js].entity == m[i].entity);
        }
        let w = choose|w: int| 0 <= w < seen.len() && (#[trigger] seen[w]).entity == m[i].entity;
        assert(w == js);
    } else {
        lemma_new_entries(m, seen);
        let ne = new_entries(m, seen);
        assert(x[i] == ne[i - m.len()]);
        let w = choose|w: int|
            0 <= w < seen.len() && #[trigger] ne[i - m.len()] == fresh(seen[w]) && !is_known(
                m,
                seen[w].entity,
            );
        assert(w == js);
    }
    assert(x[i] == fresh(s));
    lemma_hidden_ticks(x, i, hidden, dt);
}

} // verus!
