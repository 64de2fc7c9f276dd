use webgame_game::encoder::{
    encode_obs, encode_state, AgentState, EncodeError, Frac, LevelLayout, ObservableObject,
    GRID_CHANNELS, MAX_OBJS, OBJ_DIM,
};
use webgame_game::geometry::Point;
use webgame_game::hearing::{can_hear, heard_entities, NoiseSourceObject};
use webgame_game::memory::{MemoryEntry, SeenData, Sighting, VisualMemory};
use webgame_game::raster::{downsample, fill_tri_half, rasterize, visible_cells, Triangle};

const CELL: i64 = 25_000;

fn pt(x: i64, y: i64) -> Point {
    Point::new(x, y)
}

fn tri(a: Point, b: Point, c: Point) -> Triangle {
    Triangle { a, b, c }
}

fn same(f: Frac, num: i128, den: i128) -> bool {
    f.num * den == num * f.den
}

fn half_grid_triangle() -> Triangle {
    tri(pt(0, 0), pt(10 * CELL, 0), pt(0, 10 * CELL))
}

fn empty_level(size: usize) -> LevelLayout {
    LevelLayout { size, cell_size: CELL, walls: vec![false; size * size] }
}

fn source(entity: u64, pos: Point, radius: i64, on: bool) -> NoiseSourceObject {
    NoiseSourceObject {
        entity,
        pos,
        noise_radius: radius,
        active_radius: radius,
        activated_by_player: on,
    }
}

#[test]
fn flat_triangle_adds_no_coverage() {
    let base = vec![half_grid_triangle()];
    let mut with_flat = base.clone();
    with_flat.push(tri(pt(1000, 30_000), pt(200_000, 30_000), pt(50_000, 30_000)));
    assert_eq!(rasterize(&base, 10, CELL), rasterize(&with_flat, 10, CELL));
    let only_flat = vec![tri(pt(0, 5000), pt(90_000, 5000), pt(40_000, 5000))];
    assert!(visible_cells(&only_flat, 10, CELL).iter().all(|&c| c == 0));
}

#[test]
fn half_grid_triangle_covers_lower_half() {
    let cells = visible_cells(&vec![half_grid_triangle()], 10, CELL);
    assert_eq!(cells.len(), 100);
    for y in 0..10 {
        for x in 0..10 {
            let v = cells[y * 10 + x];
            if x + y <= 8 {
                assert_eq!(v, 16, "cell ({x}, {y})");
            } else if x + y >= 10 {
                assert_eq!(v, 0, "cell ({x}, {y})");
            } else {
                assert_eq!(v, 10, "cell ({x}, {y})");
            }
        }
    }
}

#[test]
fn half_grid_scenario_has_empty_object_table() {
    let level = empty_level(10);
    let state = encode_state(
        &level,
        pt(5 * CELL, 5 * CELL),
        pt(1000, 0),
        vec![],
        VisualMemory::new(),
        &vec![half_grid_triangle()],
        vec![],
        vec![],
    );
    assert!(state.listening.is_empty());
    assert_eq!(state.visible_cells[0], 16);
    assert_eq!(state.visible_cells[99], 0);
    let probs = vec![Frac { num: 1, den: 100 }; 100];
    let obs = encode_obs(&level, &state, &probs).unwrap();
    assert_eq!(obs.objects.len(), MAX_OBJS);
    for row in &obs.objects {
        assert_eq!(row.len(), OBJ_DIM);
        assert!(row.iter().all(|f| f.num == 0));
    }
    assert_eq!(obs.attn_mask, vec![1u8; MAX_OBJS]);
}

#[test]
fn cell_center_inside_triangle_is_covered() {
    let t = tri(pt(30_000, 20_000), pt(140_000, 60_000), pt(60_000, 170_000));
    let cells = visible_cells(&vec![t], 8, CELL);
    // Cell (2, 2) has its center at (62500, 62500), inside the triangle.
    assert!(cells[2 * 8 + 2] > 0);
    // Cell (7, 7) lies far outside it.
    assert_eq!(cells[7 * 8 + 7], 0);
}

#[test]
fn downsample_counts_hits_per_block() {
    let mut ss = vec![false; 64];
    ss[0] = true;
    ss[1] = true;
    ss[8 + 3] = true;
    ss[4] = true;
    for i in 0..16 {
        ss[(4 + i / 4) * 8 + 4 + i % 4] = true;
    }
    let cells = downsample(&ss, 2);
    assert_eq!(cells, vec![3, 1, 0, 16]);
}

#[test]
fn fill_tri_half_marks_between_edges() {
    let mut cells = vec![false; 16];
    // Long edge x = 0, short edge from (4 sub-cells, 0) up to (0, 4 sub-cells),
    // with one sub-cell = 1000 units (cell 4000).
    fill_tri_half(&mut cells, 4, 4000, pt(0, 0), pt(0, 4000), pt(4000, 0), pt(0, 4000));
    let expected: Vec<bool> = (0..16).map(|i| i % 4 < 4 - i / 4).collect();
    assert_eq!(cells, expected);
}

#[test]
fn hearing_uses_squared_radius_and_flag() {
    let agent = pt(0, 0);
    assert!(can_hear(agent, &source(1, pt(3000, 4000), 5000, true)));
    assert!(!can_hear(agent, &source(1, pt(3000, 4000), 4999, true)));
    assert!(!can_hear(agent, &source(1, pt(3000, 4000), 5000, false)));
    let srcs = vec![
        source(7, pt(1000, 0), 2000, true),
        source(8, pt(9000, 0), 2000, true),
        source(9, pt(0, 1000), 2000, false),
        source(10, pt(0, -1500), 1500, true),
    ];
    assert_eq!(heard_entities(agent, &srcs), vec![7, 10]);
}

#[test]
fn hearing_grows_with_radius() {
    let agent = pt(0, 0);
    let mut s = source(3, pt(6000, 8000), 10_000, true);
    assert!(can_hear(agent, &s));
    s.noise_radius = 20_000;
    assert!(can_hear(agent, &s));
    let far = source(4, pt(6000, 8000), 9_999, true);
    assert!(!can_hear(agent, &far));
}

fn sighting(entity: u64, x: i64, y: i64) -> Sighting {
    Sighting { entity, pos: pt(x, y), pushed_by_self: false }
}

#[test]
fn memory_round_trip_after_hidden_ticks() {
    let mut mem = VisualMemory::new();
    for _ in 0..3 {
        mem.update(&vec![sighting(42, 1000, 2000)], 500);
    }
    for _ in 0..4 {
        mem.update(&vec![sighting(5, 0, 0)], 500);
    }
    assert_eq!(mem.entries.len(), 2);
    assert_eq!(mem.entries[0].entity, 42);
    assert_eq!(mem.entries[0].data.last_seen_elapsed, 2000);
    assert_eq!(mem.entries[0].data.last_pos, pt(1000, 2000));
    assert_eq!(mem.entries[1].data.last_seen_elapsed, 0);
}

#[test]
fn memory_refreshes_when_seen_again() {
    let mut mem = VisualMemory::new();
    mem.update(&vec![Sighting { entity: 1, pos: pt(10, 10), pushed_by_self: true }], 500);
    mem.update(&vec![], 700);
    assert_eq!(mem.entries[0].data.last_seen_elapsed, 700);
    assert!(mem.entries[0].data.pushed_by_self);
    mem.update(&vec![sighting(1, 30, 40)], 500);
    assert_eq!(
        mem.entries[0].data,
        SeenData { last_seen_elapsed: 0, last_pos: pt(30, 40), pushed_by_self: false }
    );
}

#[test]
fn memory_elapsed_saturates() {
    let mut mem = VisualMemory {
        entries: vec![MemoryEntry {
            entity: 1,
            data: SeenData { last_seen_elapsed: u64::MAX - 10, last_pos: pt(0, 0), pushed_by_self: false },
        }],
    };
    mem.update(&vec![], 500);
    assert_eq!(mem.entries[0].data.last_seen_elapsed, u64::MAX);
}

fn observed_state(level: &LevelLayout) -> AgentState {
    let mut mem = VisualMemory::new();
    mem.update(&vec![sighting(11, 3 * CELL / 2, 5 * CELL / 2)], 500);
    encode_state(
        level,
        pt(0, 0),
        pt(0, 1000),
        vec![11],
        mem,
        &vec![],
        vec![ObservableObject { entity: 11, pos: pt(3 * CELL / 2, 5 * CELL / 2) }],
        vec![],
    )
}

#[test]
fn one_observed_entity_fills_first_row() {
    let level = empty_level(10);
    let state = observed_state(&level);
    let obs = encode_obs(&level, &state, &vec![Frac { num: 0, den: 1 }; 100]).unwrap();
    let row = &obs.objects[0];
    let expected = [(2, 10), (3, 10), (1, 1), (0, 1), (0, 1), (0, 1), (0, 1), (0, 1)];
    for (f, (n, d)) in row.iter().zip(expected.iter()) {
        assert!(same(*f, *n, *d), "{f:?}");
    }
    assert_eq!(obs.attn_mask[0], 0);
    assert!(obs.attn_mask[1..].iter().all(|&m| m == 1));
}

#[test]
fn grid_channels_follow_layout() {
    let mut level = empty_level(2);
    level.walls[3] = true;
    let state = encode_state(
        &level,
        pt(CELL / 2, 0),
        pt(0, -1000),
        vec![],
        VisualMemory::new(),
        &vec![],
        vec![],
        vec![],
    );
    let probs: Vec<Frac> = (0..4).map(|i| Frac { num: i, den: 4 }).collect();
    let obs = encode_obs(&level, &state, &probs).unwrap();
    assert_eq!(obs.grid.len(), GRID_CHANNELS * 4);
    for k in 0..4 {
        assert!(same(obs.grid[k], 2, 4));
        assert!(same(obs.grid[4 + k], 1, 4));
        assert!(same(obs.grid[8 + k], 0, 1));
        assert!(same(obs.grid[12 + k], -1, 1));
        assert!(same(obs.grid[16 + k], 0, 1));
        assert!(same(obs.grid[20 + k], if k == 3 { 1 } else { 0 }, 1));
        assert_eq!(obs.grid[24 + k], probs[k]);
        assert!(same(obs.grid[28 + k], 0, 1));
    }
}

#[test]
fn heard_sources_follow_seen_rows_and_overflow_is_dropped() {
    let level = empty_level(10);
    let mut objects = Vec::new();
    let mut seen = Vec::new();
    for e in 0..12u64 {
        objects.push(ObservableObject { entity: e, pos: pt(0, 0) });
        seen.push(sighting(e, 0, 0));
    }
    let mut mem = VisualMemory::new();
    mem.update(&seen, 500);
    let mut srcs = Vec::new();
    for e in 100..110u64 {
        srcs.push(source(e, pt(1000, 0), 2000, true));
    }
    let state = encode_state(
        &level,
        pt(0, 0),
        pt(1000, 0),
        (0..12).collect(),
        mem,
        &vec![],
        objects,
        srcs,
    );
    assert_eq!(state.listening.len(), 10);
    let obs = encode_obs(&level, &state, &vec![Frac { num: 0, den: 1 }; 100]).unwrap();
    assert_eq!(obs.objects.len(), MAX_OBJS);
    assert_eq!(obs.attn_mask, vec![0u8; MAX_OBJS]);
    let heard = &obs.objects[12];
    assert!(same(heard[2], 0, 1));
    assert!(same(heard[3], 1, 1));
    assert!(same(heard[4], 2, 1));
    assert!(same(obs.objects[0][2], 1, 1));
}

#[test]
fn seen_entity_without_memory_leaves_zero_row() {
    let level = empty_level(4);
    let state = encode_state(
        &level,
        pt(0, 0),
        pt(1000, 0),
        vec![3],
        VisualMemory::new(),
        &vec![],
        vec![ObservableObject { entity: 3, pos: pt(10, 10) }],
        vec![],
    );
    let obs = encode_obs(&level, &state, &vec![Frac { num: 0, den: 1 }; 16]).unwrap();
    assert!(obs.objects[0].iter().all(|f| f.num == 0));
    assert_eq!(obs.attn_mask[0], 0);
    assert_eq!(obs.attn_mask[1], 1);
}

#[test]
fn mismatched_grids_are_rejected() {
    let level = empty_level(4);
    let state = observed_state(&level);
    let bad_walls = LevelLayout { size: 4, cell_size: CELL, walls: vec![false; 15] };
    let probs = vec![Frac { num: 0, den: 1 }; 16];
    assert_eq!(encode_obs(&bad_walls, &state, &probs).unwrap_err(), EncodeError::WallGridSize);
    assert_eq!(
        encode_obs(&level, &state, &vec![Frac { num: 0, den: 1 }; 9]).unwrap_err(),
        EncodeError::BeliefGridSize
    );
}
