use vstd::prelude::*;
use crate::geometry::{Point, POS_SCALE};
use crate::hearing::{heard_entities, heard_seq, NoiseSourceObject};
use crate::memory::{MemoryEntry, SeenData, VisualMemory};
use crate::raster::{
    block_hits,
    raster_seq,
    visible_cells,
    Triangle,
    COVERAGE_DEN,
    MAX_CELL,
    MAX_GRID,
};

verus! {

/// Features per row of the object table.
pub const OBJ_DIM: usize = 8;

/// Rows of the object table: objects beyond this are dropped.
pub const MAX_OBJS: usize = 16;

/// Channels of the grid table: five broadcast scalars, walls, the belief
/// grid and a reserved zero channel.
pub const GRID_CHANNELS: usize = 8;

/// Broadcast scalar channels at the front of the grid table.
pub const SCALAR_CHANNELS: usize = 5;

/// The time feature is seconds over ten; times are kept in milliseconds.
pub const ELAPSED_DEN: i128 = 10_000;

/// An exact fraction `num / den`; `den` is positive.
#[derive(Clone, Copy, Debug, PartialEq, Eq, Structural)]
pub struct Frac {
    pub num: i128,
    pub den: i128,
}

/// An entity that can be seen, with its current position.
#[derive(Clone, Copy, Debug, PartialEq, Eq, Structural)]
pub struct ObservableObject {
    pub entity: u64,
    pub pos: Point,
}

/// The level as the encoder needs it: a `size x size` grid of cells of side
/// `cell_size` position units, with a row-major wall map.
#[derive(Clone, Debug)]
pub struct LevelLayout {
    pub size: usize,
    pub cell_size: i64,
    pub walls: Vec<bool>,
}

/// Everything an agent perceives in one tick.
#[derive(Clone, Debug)]
pub struct AgentState {
    pub pos: Point,
    /// Facing direction, scaled by `POS_SCALE`.
    pub dir: Point,
    /// Entities in view, in the observer's order.
    pub observing: Vec<u64>,
    /// Entities heard, in the order of the noise sources.
    pub listening: Vec<u64>,
    pub vm_data: VisualMemory,
    /// Per cell, hit sub-cells out of `COVERAGE_DEN`.
    pub visible_cells: Vec<u8>,
    pub objects: Vec<ObservableObject>,
    pub noise_sources: Vec<NoiseSourceObject>,
}

/// The three tables handed to the controller.
#[derive(Clone, Debug)]
pub struct Observation {
    /// `GRID_CHANNELS x size x size`, channel-major then row-major.
    pub grid: Vec<Frac>,
    /// `MAX_OBJS` rows of `OBJ_DIM` features.
    pub objects: Vec<Vec<Frac>>,
    /// One entry per row: 0 for a real row, 1 for padding.
    pub attn_mask: Vec<u8>,
}

#[derive(Clone, Copy, Debug, PartialEq, Eq, Structural)]
pub enum EncodeError {
    /// The wall map does not have `size * size` cells.
    WallGridSize,
    /// The belief grid does not have `size * size` cells.
    BeliefGridSize,
}

pub open spec fn zero() -> Frac {
    Frac { num: 0, den: 1 }
}

pub open spec fn one() -> Frac {
    Frac { num: 1, den: 1 }
}

/// `(0.5 * cell + coord) / (size * cell)`.
pub open spec fn normalized(coord: i64, size: usize, cell: i64) -> Frac {
    Frac { num: (2 * coord + cell) as i128, den: (2 * size * cell) as i128 }
}

/// A length in position units, as world units.
pub open spec fn world(v: int) -> Frac {
    Frac { num: v as i128, den: POS_SCALE as i128 }
}

pub open spec fn zero_row() -> Seq<Frac> {
    Seq::new(OBJ_DIM as nat, |k: int| zero())
}

/// Row of a seen entity at `p`, whose memory is `d`.
pub open spec fn visual_row(p: Point, d: SeenData, size: usize, cell: i64) -> Seq<Frac> {
    seq![
        normalized(p.x, size, cell),
        normalized(p.y, size, cell),
        one(),
        zero(),
        zero(),
        Frac { num: d.last_seen_elapsed as i128, den: ELAPSED_DEN },
        world(p.x - d.last_pos.x),
        world(p.y - d.last_pos.y),
    ]
}

/// Row of a heard source.
pub open spec fn auditory_row(s: NoiseSourceObject, size: usize, cell: i64) -> Seq<Frac> {
    seq![
        normalized(s.pos.x, size, cell),
        normalized(s.pos.y, size, cell),
        zero(),
        one(),
        world(s.active_radius as int),
        zero(),
        zero(),
        zero(),
    ]
}

pub open spec fn object_known(objs: Seq<ObservableObject>, e: u64) -> bool {
    exists|j: int| 0 <= j < objs.len() && (#[trigger] objs[j]).entity == e
}

pub open spec fn object_of(objs: Seq<ObservableObject>, e: u64) -> ObservableObject {
    objs[choose|j: int| 0 <= j < objs.len() && (#[trigger] objs[j]).entity == e]
}

pub open spec fn source_known(srcs: Seq<NoiseSourceObject>, e: u64) -> bool {
    exists|j: int| 0 <= j < srcs.len() && (#[trigger] srcs[j]).entity == e
}

pub open spec fn source_of(srcs: Seq<NoiseSourceObject>, e: u64) -> NoiseSourceObject {
    srcs[choose|j: int| 0 <= j < srcs.len() && (#[trigger] srcs[j]).entity == e]
}

pub open spec fn memory_known(m: Seq<MemoryEntry>, e: u64) -> bool {
    exists|j: int| 0 <= j < m.len() && (#[trigger] m[j]).entity == e
}

pub open spec fn memory_of(m: Seq<MemoryEntry>, e: u64) -> SeenData {
    m[choose|j: int| 0 <= j < m.len() && (#[trigger] m[j]).entity == e].data
}

impl AgentState {
    /// Entity keys are unique in each table, and every entity in view or
    /// heard has its table entry.
    pub open spec fn wf(&self) -> bool {
        &&& self.vm_data.wf()
        &&& forall|i: int, j: int|
            0 <= i < self.objects@.len() && 0 <= j < self.objects@.len() && i != j
                ==> self.objects@[i].entity != self.objects@[j].entity
        &&& forall|i: int, j: int|
            0 <= i < self.noise_sources@.len() && 0 <= j < self.noise_sources@.len() && i != j
                ==> self.noise_sources@[i].entity != self.noise_sources@[j].entity
        &&& forall|i: int|
            0 <= i < self.observing@.len() ==> object_known(
                self.objects@,
                #[trigger] self.observing@[i],
            )
        &&& forall|i: int|
            0 <= i < self.listening@.len() ==> source_known(
                self.noise_sources@,
                #[trigger] self.listening@[i],
            )
    }

    /// Number of real rows before truncation: seen plus heard.
    pub open spec fn object_count(&self) -> int {
        (self.observing@.len() + self.listening@.len()) as int
    }

    /// Row `r` of the object table: seen entities first, then heard ones.
    /// A seen entity with no memory entry leaves its row zero.
    pub open spec fn object_row(&self, r: int, size: usize, cell: i64) -> Seq<Frac> {
        let nobs = self.observing@.len() as int;
        if r < nobs {
            let e = self.observing@[r];
            if memory_known(self.vm_data.entries@, e) {
                visual_row(
                    object_of(self.objects@, e).pos,
                    memory_of(self.vm_data.entries@, e),
                    size,
                    cell,
                )
            } else {
                zero_row()
            }
        } else if r < self.object_count() {
            auditory_row(source_of(self.noise_sources@, self.listening@[r - nobs]), size, cell)
        } else {
            zero_row()
        }
    }

    /// The broadcast scalars: position, facing direction, a reserved zero.
    pub open spec fn scalar(&self, c: int, size: usize, cell: i64) -> Frac {
        if c == 0 {
            normalized(self.pos.x, size, cell)
        } else if c == 1 {
            normalized(self.pos.y, size, cell)
        } else if c == 2 {
            world(self.dir.x as int)
        } else if c == 3 {
            world(self.dir.y as int)
        } else {
            zero()
        }
    }
}

/// Value of channel `c` at cell `k` of the grid table.
pub open spec fn grid_value(
    agent: AgentState,
    level: LevelLayout,
    probs: Seq<Frac>,
    c: int,
    k: int,
) -> Frac {
    if c < SCALAR_CHANNELS {
        agent.scalar(c, level.size, level.cell_size)
    } else if c == 5 {
        if level.walls@[k] {
            one()
        } else {
            zero()
        }
    } else if c == 6 {
        probs[k]
    } else {
        zero()
    }
}

fn frac(num: i128, den: i128) -> (r: Frac)
    ensures
        r == (Frac { num, den }),
{
    Frac { num, den }
}

fn normalize(coord: i64, size: usize, cell: i64) -> (r: Frac)
    requires
        1 <= size <= MAX_GRID,
        1 <= cell <= MAX_CELL,
    ensures
        r == normalized(coord, size, cell),
{
    assert(0 < 2 * size * cell <= 0x1000_0000_0000) by (nonlinear_arith)
        requires
            1 <= size <= 1024,
            1 <= cell <= 0x10_0000,
    ;
    frac(2 * coord as i128 + cell as i128, 2 * size as i128 * cell as i128)
}

fn find_object(objs: &Vec<ObservableObject>, e: u64) -> (r: usize)
    requires
        object_known(objs@, e),
        forall|i: int, j: int|
            0 <= i < objs@.len() && 0 <= j < objs@.len() && i != j ==> objs@[i].entity
                != objs@[j].entity,
    ensures
        r < objs@.len(),
        objs@[r as int] == object_of(objs@, e),
{
    let mut j: usize = 0;
    while j < objs.len()
        invariant
            object_known(objs@, e),
            forall|i: int, k: int|
                0 <= i < objs@.len() && 0 <= k < objs@.len() && i != k ==> objs@[i].entity
                    != objs@[k].entity,
            forall|t: int| 0 <= t < j ==> (#[trigger] objs@[t]).entity != e,
        decreases objs@.len() - j,
    {
        if objs[j].entity == e {
            proof {
                let w = choose|w: int| 0 <= w < objs@.len() && (#[trigger] objs@[w]).entity == e;
                assert(objs@[j as int].entity == e);
                assert(w == j);
            }
            return j;
        }
        j = j + 1;
    }
    proof {
        let w = choose|w: int| 0 <= w < objs@.len() && (#[trigger] objs@[w]).entity == e;
        assert(objs@[w].entity != e);
    }
    0
}

fn find_source(srcs: &Vec<NoiseSourceObject>, e: u64) -> (r: usize)
    requires
        source_known(srcs@, e),
        forall|i: int, j: int|
            0 <= i < srcs@.len() && 0 <= j < srcs@.len() && i != j ==> srcs@[i].entity
                != srcs@[j].entity,
    ensures
        r < srcs@.len(),
        srcs@[r as int] == source_of(srcs@, e),
{
    let mut j: usize = 0;
    while j < srcs.len()
        invariant
            source_known(srcs@, e),
            forall|i: int, k: int|
                0 <= i < srcs@.len() && 0 <= k < srcs@.len() && i != k ==> srcs@[i].entity
                    != srcs@[k].entity,
            forall|t: int| 0 <= t < j ==> (#[trigger] srcs@[t]).entity != e,
        decreases srcs@.len() - j,
    {
        if srcs[j].entity == e {
            proof {
                let w = choose|w: int| 0 <= w < srcs@.len() && (#[trigger] srcs@[w]).entity == e;
                assert(srcs@[j as int].entity == e);
                assert(w == j);
            }
            return j;
        }
        j = j + 1;
    }
    proof {
        let w = choose|w: int| 0 <= w < srcs@.len() && (#[trigger] srcs@[w]).entity == e;
        assert(srcs@[w].entity != e);
    }
    0
}

fn find_memory(m: &Vec<MemoryEntry>, e: u64) -> (r: Option<SeenData>)
    requires
        forall|i: int, j: int|
            0 <= i < m@.len() && 0 <= j < m@.len() && i != j ==> m@[i].entity != m@[j].entity,
    ensures
        r.is_some() == memory_known(m@, e),
        r.is_some() ==> r.unwrap() == memory_of(m@, e),
{
    let mut j: usize = 0;
    while j < m.len()
        invariant
            forall|i: int, k: int|
                0 <= i < m@.len() && 0 <= k < m@.len() && i != k ==> m@[i].entity != m@[k].entity,
            forall|t: int| 0 <= t < j ==> (#[trigger] m@[t]).entity != e,
        decreases m@.len() - j,
    {
        if m[j].entity == e {
            proof {
                let w = choose|w: int| 0 <= w < m@.len() && (#[trigger] m@[w]).entity == e;
                assert(m@[j as int].entity == e);
                assert(w == j);
            }
            return Some(m[j].data);
        }
        j = j + 1;
    }
    None
}

fn zero_features() -> (r: Vec<Frac>)
    ensures
        r@ == zero_row(),
{
    let mut row: Vec<Frac> = Vec::new();
    let mut k: usize = 0;
    while k < OBJ_DIM
        invariant
            k <= OBJ_DIM,
            row@ == Seq::new(k as nat, |t: int| zero()),
        decreases OBJ_DIM - k,
    {
        row.push(frac(0, 1));
        k = k + 1;
        assert(row@ =~= Seq::new(k as nat, |t: int| zero()));
    }
    row
}

/// Builds row `r` of the object table.
fn object_features(level: &LevelLayout, agent: &AgentState, r: usize) -> (row: Vec<Frac>)
    requires
        agent.wf(),
        1 <= level.size <= MAX_GRID,
        1 <= level.cell_size <= MAX_CELL,
    ensures
        row@ == agent.object_row(r as int, level.size, level.cell_size),
{
    let size = level.size;
    let cell = level.cell_size;
    let nobs = agent.observing.len();
    if r < nobs {
        let e = agent.observing[r];
        match find_memory(&agent.vm_data.entries, e) {
            Some(d) => {
                let p = agent.objects[find_object(&agent.objects, e)].pos;
                let moved_x: i128 = p.x as i128 - d.last_pos.x as i128;
                let moved_y: i128 = p.y as i128 - d.last_pos.y as i128;
                let row = vec![
                    normalize(p.x, size, cell),
                    normalize(p.y, size, cell),
                    frac(1, 1),
                    frac(0, 1),
                    frac(0, 1),
                    frac(d.last_seen_elapsed as i128, ELAPSED_DEN),
                    frac(moved_x, POS_SCALE as i128),
                    frac(moved_y, POS_SCALE as i128),
                ];
                assert(row@ =~= visual_row(p, d, size, cell));
                row
            },
            None => zero_features(),
        }
    } else if r - nobs < agent.listening.len() {
        let s = agent.noise_sources[find_source(&agent.noise_sources, agent.listening[r - nobs])];
        let row = vec![
            normalize(s.pos.x, size, cell),
            normalize(s.pos.y, size, cell),
            frac(0, 1),
            frac(1, 1),
            frac(s.active_radius as i128, POS_SCALE as i128),
            frac(0, 1),
            frac(0, 1),
            frac(0, 1),
        ];
        assert(row@ =~= auditory_row(s, size, cell));
        row
    } else {
        zero_features()
    }
}

proof fn lemma_channel_index(c: int, k: int, n: int)
    requires
        0 <= c,
        0 <= k < n,
    ensures
        (c * n + k) / n == c,
        (c * n + k) % n == k,
{
    vstd::arithmetic::div_mod::lemma_fundamental_div_mod_converse(c * n + k, n, c, k);
}

fn scalar_value(level: &LevelLayout, agent: &AgentState, c: usize) -> (r: Frac)
    requires
        1 <= level.size <= MAX_GRID,
        1 <= level.cell_size <= MAX_CELL,
    ensures
        r == agent.scalar(c as int, level.size, level.cell_size),
{
    if c == 0 {
        normalize(agent.pos.x, level.size, level.cell_size)
    } else if c == 1 {
        normalize(agent.pos.y, level.size, level.cell_size)
    } else if c == 2 {
        frac(agent.dir.x as i128, POS_SCALE as i128)
    } else if c == 3 {
        frac(agent.dir.y as i128, POS_SCALE as i128)
    } else {
        frac(0, 1)
    }
}

/// Encodes an agent's perception into the controller's three tables. The
/// last grid channel is left zero for the caller to fill with its own
/// localization probabilities. Objects beyond `MAX_OBJS` are dropped.
pub fn encode_obs(level: &LevelLayout, agent: &AgentState, filter_probs: &Vec<Frac>) -> (r: Result<
    Observation,
    EncodeError,
>)
    requires
        agent.wf(),
        1 <= level.size <= MAX_GRID,
        1 <= level.cell_size <= MAX_CELL,
    ensures
        (r == Err::<Observation, EncodeError>(EncodeError::WallGridSize)) <==> level.walls@.len()
            != level.size * level.size,
        (r == Err::<Observation, EncodeError>(EncodeError::BeliefGridSize)) <==> (
        level.walls@.len() == level.size * level.size && filter_probs@.len() != level.size
            * level.size),
        r.is_ok() <==> (level.walls@.len() == level.size * level.size && filter_probs@.len()
            == level.size * level.size),
        r matches Ok(o) ==> {
            let cells = level.size * level.size;
            &&& o.grid@.len() == GRID_CHANNELS * cells
            &&& forall|i: int|
                0 <= i < GRID_CHANNELS * cells ==> #[trigger] o.grid@[i] == grid_value(
                    *agent,
                    *level,
                    filter_probs@,
                    i / (cells as int),
                    i % (cells as int),
                )
            &&& o.objects@.len() == MAX_OBJS
            &&& forall|k: int|
                0 <= k < MAX_OBJS ==> (#[trigger] o.objects@[k])@ == agent.object_row(
                    k,
                    level.size,
                    level.cell_size,
                )
            &&& forall|k: int|
                0 <= k < MAX_OBJS ==> (#[trigger] o.objects@[k])@.len() == OBJ_DIM
            &&& o.attn_mask@.len() == MAX_OBJS
            &&& forall|k: int|
                0 <= k < MAX_OBJS ==> #[trigger] o.attn_mask@[k] == if k < agent.object_count() {
                    0u8
                } else {
                    1u8
                }
            &&& forall|k: int|
                agent.object_count() <= k < MAX_OBJS ==> (#[trigger] o.objects@[k])@
                    == zero_row()
        },
{
    let size = level.size;
    assert(1 <= size * size <= 0x10_0000) by (nonlinear_arith)
        requires
            1 <= size <= 1024,
    ;
    let cells: usize = size * size;
    if level.walls.len() != cells {
        return Err(EncodeError::WallGridSize);
    }
    if filter_probs.len() != cells {
        return Err(EncodeError::BeliefGridSize);
    }
    let mut grid: Vec<Frac> = Vec::new();
    let mut c: usize = 0;
    while c < GRID_CHANNELS
        invariant
            cells == level.size * level.size,
            1 <= cells <= 0x10_0000,
            1 <= level.size <= MAX_GRID,
            1 <= level.cell_size <= MAX_CELL,
            level.walls@.len() == cells,
            filter_probs@.len() == cells,
            c <= GRID_CHANNELS,
            grid@.len() == c * cells,
            forall|i: int|
                0 <= i < grid@.len() ==> #[trigger] grid@[i] == grid_value(
                    *agent,
                    *level,
                    filter_probs@,
                    i / (cells as int),
                    i % (cells as int),
                ),
        decreases GRID_CHANNELS - c,
    {
        let scalar = scalar_value(level, agent, c);
        let mut k: usize = 0;
        while k < cells
            invariant
                cells == level.size * level.size,
                1 <= cells <= 0x10_0000,
                level.walls@.len() == cells,
                filter_probs@.len() == cells,
                c < GRID_CHANNELS,
                k <= cells,
                scalar == agent.scalar(c as int, level.size, level.cell_size),
                grid@.len() == c * cells + k,
                forall|i: int|
                    0 <= i < grid@.len() ==> #[trigger] grid@[i] == grid_value(
                        *agent,
                        *level,
                        filter_probs@,
                        i / (cells as int),
                        i % (cells as int),
                    ),
            decreases cells - k,
        {
            proof {
                lemma_channel_index(c as int, k as int, cells as int);
            }
            let v = if c < SCALAR_CHANNELS {
                scalar
            } else if c == 5 {
                if level.walls[k] {
                    frac(1, 1)
                } else {
                    frac(0, 1)
                }
            } else if c == 6 {
                filter_probs[k]
            } else {
                frac(0, 1)
            };
            grid.push(v);
            k = k + 1;
        }
        assert((c + 1) * cells == c * cells + cells) by (nonlinear_arith);
        c = c + 1;
    }
    let mut objects: Vec<Vec<Frac>> = Vec::new();
    let mut attn_mask: Vec<u8> = Vec::new();
    let count = agent.observing.len() as u128 + agent.listening.len() as u128;
    let mut k: usize = 0;
    while k < MAX_OBJS
        invariant
            agent.wf(),
            1 <= level.size <= MAX_GRID,
            1 <= level.cell_size <= MAX_CELL,
            count == agent.object_count(),
            k <= MAX_OBJS,
            objects@.len() == k,
            attn_mask@.len() == k,
            forall|t: int|
                0 <= t < k ==> (#[trigger] objects@[t])@ == agent.object_row(
                    t,
                    level.size,
                    level.cell_size,
                ),
            forall|t: int|
                0 <= t < k ==> #[trigger] attn_mask@[t] == if t < agent.object_count() {
                    0u8
                } else {
                    1u8
                },
        decreases MAX_OBJS - k,
    {
        let row = object_features(level, agent, k);
        objects.push(row);
        attn_mask.push(
            if (k as u128) < count {
                0
            } else {
                1
            },
        );
        k = k + 1;
    }
    proof {
        assert forall|t: int| 0 <= t < MAX_OBJS implies (#[trigger] objects@[t])@.len()
            == OBJ_DIM by {
            let nobs = agent.observing@.len() as int;
            if t < nobs && memory_known(agent.vm_data.entries@, agent.observing@[t]) {
            } else if t < nobs {
            } else if t < agent.object_count() {
            }
        }
    }
    Ok(Observation { grid, objects, attn_mask })
}

/// Gathers what an agent at `pos` perceives: the noise sources it hears,
/// and the coverage of its visible region `vis_mesh` over the level grid.
pub fn encode_state(
    level: &LevelLayout,
    pos: Point,
    dir: Point,
    observing: Vec<u64>,
    vm_data: VisualMemory,
    vis_mesh: &Vec<Triangle>,
    objects: Vec<ObservableObject>,
    noise_sources: Vec<NoiseSourceObject>,
) -> (r: AgentState)
    requires
        1 <= level.size <= MAX_GRID,
        1 <= level.cell_size <= MAX_CELL,
        pos.valid(),
        forall|i: int| 0 <= i < vis_mesh@.len() ==> (#[trigger] vis_mesh@[i]).valid(),
        forall|i: int| 0 <= i < noise_sources@.len() ==> (#[trigger] noise_sources@[i]).valid(),
    ensures
        r.pos == pos,
        r.dir == dir,
        r.observing@ == observing@,
        r.vm_data.entries@ == vm_data.entries@,
        r.objects@ == objects@,
        r.noise_sources@ == noise_sources@,
        r.listening@ == heard_seq(pos, noise_sources@),
        r.visible_cells@.len() == level.size * level.size,
        forall|i: int|
            0 <= i < level.size * level.size ==> #[trigger] r.visible_cells@[i] as int
                == block_hits(
                raster_seq(vis_mesh@, level.size as int, level.cell_size as int),
                level.size as int,
                i / (level.size as int),
                i % (level.size as int),
            ) && r.visible_cells@[i] <= COVERAGE_DEN,
{
    let listening = heard_entities(pos, &noise_sources);
    let cells = visible_cells(vis_mesh, level.size, level.cell_size);
    AgentState {
        pos,
        dir,
        observing,
        listening,
        vm_data,
        visible_cells: cells,
        objects,
        noise_sources,
    }
}

} // verus!
