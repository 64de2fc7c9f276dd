use vstd::prelude::*;
use crate::geometry::{Point, COORD_LIMIT};

verus! {

/// A noise-emitting entity as the agent's hearing sees it.
#[derive(Clone, Copy, Debug, PartialEq, Eq, Structural)]
pub struct NoiseSourceObject {
    pub entity: u64,
    pub pos: Point,
    /// Distance, in position units, within which the noise carries.
    pub noise_radius: i64,
    /// Radius reported to the controller as the source's feature.
    pub active_radius: i64,
    pub activated_by_player: bool,
}

impl NoiseSourceObject {
    pub open spec fn valid(self) -> bool {
        self.pos.valid() && -COORD_LIMIT <= self.noise_radius <= COORD_LIMIT && -COORD_LIMIT
            <= self.active_radius <= COORD_LIMIT
    }
}

pub open spec fn dist_sq(a: Point, b: Point) -> int {
    (a.x - b.x) * (a.x - b.x) + (a.y - b.y) * (a.y - b.y)
}

/// An agent at `agent` hears `s` when `s` is activated and lies within its
/// noise radius: `distance^2 <= radius^2`.
pub open spec fn hears(agent: Point, s: NoiseSourceObject) -> bool {
    dist_sq(agent, s.pos) <= s.noise_radius * s.noise_radius && s.activated_by_player
}

/// The entities of the sources that `agent` hears, in the order of `sources`.
pub open spec fn heard_seq(agent: Point, sources: Seq<NoiseSourceObject>) -> Seq<u64>
    decreases sources.len(),
{
    if sources.len() == 0 {
        Seq::empty()
    } else {
        let rest = heard_seq(agent, sources.drop_last());
        if hears(agent, sources.last()) {
            rest.push(sources.last().entity)
        } else {
            rest
        }
    }
}

/// Whether an agent at `agent` hears the source `s`.
pub fn can_hear(agent: Point, s: &NoiseSourceObject) -> (r: bool)
    requires
        agent.valid(),
        s.valid(),
    ensures
        r == hears(agent, *s),
{
    let dx: i64 = agent.x - s.pos.x;
    let dy: i64 = agent.y - s.pos.y;
    assert(0 <= dx * dx <= 0x10_0000_0000_0000_00 && 0 <= dy * dy <= 0x10_0000_0000_0000_00)
        by (nonlinear_arith)
        requires
            -0x2000_0000 <= dx <= 0x2000_0000,
            -0x2000_0000 <= dy <= 0x2000_0000,
    ;
    assert(0 <= s.noise_radius * s.noise_radius <= 0x100_0000_0000_0000) by (nonlinear_arith)
        requires
            -0x1000_0000 <= s.noise_radius <= 0x1000_0000,
    ;
    let d2: i64 = dx * dx + dy * dy;
    d2 <= s.noise_radius * s.noise_radius && s.activated_by_player
}

/// The entities that an agent at `agent` hears, in the order of `sources`.
pub fn heard_entities(agent: Point, sources: &Vec<NoiseSourceObject>) -> (r: Vec<u64>)
    requires
        agent.valid(),
        forall|i: int| 0 <= i < sources@.len() ==> (#[trigger] sources@[i]).valid(),
    ensures
        r@ == heard_seq(agent, sources@),
{
    let mut out: Vec<u64> = Vec::new();
    let mut i: usize = 0;
    while i < sources.len()
        invariant
            agent.valid(),
            i <= sources@.len(),
            forall|k: int| 0 <= k < sources@.len() ==> (#[trigger] sources@[k]).valid(),
            out@ == heard_seq(agent, sources@.take(i as int)),
        decreases sources@.len() - i,
    {
        assert(sources@.take(i + 1).drop_last() =~= sources@.take(i as int));
        if can_hear(agent, &sources[i]) {
            out.push(sources[i].entity);
        }
        i = i + 1;
    }
    assert(sources@.take(sources@.len() as int) =~= sources@);
    out
}

/// An entity is heard exactly when some source of it is heard.
pub proof fn lemma_heard_membership(agent: Point, sources: Seq<NoiseSourceObject>, e: u64)
    ensures
        heard_seq(agent, sources).contains(e) <==> exists|j: int|
            0 <= j < sources.len() && #[trigger] hears(agent, sources[j]) && sources[j].entity
                == e,
    decreases sources.len(),
{
    if sources.len() > 0 {
        let prev = sources.drop_last();
        lemma_heard_membership(agent, prev, e);
        if heard_seq(agent, sources).contains(e) {
            let k = choose|k: int| 0 <= k < heard_seq(agent, sources).len() && heard_seq(agent, sources)[k] == e;
            if k < heard_seq(agent, prev).len() {
                assert(heard_seq(agent, prev).contains(e));
                let j = choose|j: int| 0 <= j < prev.len() && #[trigger] hears(agent, prev[j]) && prev[j].entity == e;
                assert(sources[j] == prev[j]);
            } else {
                assert(hears(agent, sources[sources.len() - 1]));
            }
        }
        if exists|j: int| 0 <= j < sources.len() && #[trigger] hears(agent, sources[j]) && sources[j].entity == e {
            let j = choose|j: int| 0 <= j < sources.len() && #[trigger] hears(agent, sources[j]) && sources[j].entity == e;
            if j < prev.len() {
                assert(prev[j] == sources[j]);
                let rest = heard_seq(agent, prev);
                let k = choose|k: int| 0 <= k < rest.len() && rest[k] == e;
                if hears(agent, sources.last()) {
                    assert(rest.push(sources.last().entity)[k] == e);
                }
            } else {
                assert(heard_seq(agent, sources).last() == e);
            }
        }
    }
}

/// Hearing is monotonic in the radius: with positions and the activation
/// flag fixed, a source heard at one radius is still heard, by the same
/// agent, once its radius grows.
pub proof fn lemma_hearing_monotonic_in_radius(
    agent: Point,
    sources: Seq<NoiseSourceObject>,
    k: int,
    radius: i64,
    e: u64,
)
    requires
        0 <= k < sources.len(),
        0 <= sources[k].noise_radius <= radius,
        heard_seq(agent, sources).contains(e),
    ensures
        heard_seq(
            agent,
            sources.update(k, NoiseSourceObject { noise_radius: radius, ..sources[k] }),
        ).contains(e),
{
    let grown = sources.update(k, NoiseSourceObject { noise_radius: radius, ..sources[k] });
    lemma_heard_membership(agent, sources, e);
    lemma_heard_membership(agent, grown, e);
    let j = choose|j: int| 0 <= j < sources.len() && #[trigger] hears(agent, sources[j]) && sources[j].entity == e;
    if j == k {
        let r0 = sources[k].noise_radius;
        assert(r0 * r0 <= radius * radius) by (nonlinear_arith)
            requires
                0 <= r0 <= radius,
        ;
        assert(hears(agent, grown[j]));
    } else {
        assert(hears(agent, grown[j]));
    }
}

} // verus!
