//! The flock: per-drone state, the three boids rules, and the frame step
//! that moves every drone from one shared snapshot.
use crate::config::{GameConfig, RuleConfig};
use crate::geometry::{
    abs, clamp_length_max, clamp_length_spec, lemma_trunc_div_bound, trunc_div, trunc_div_exec, Ratio,
    Vec2, APPLY_LIMIT, FORCE_LIMIT,
};
use crate::spatial_hashmap::{
    block_regions, lemma_block_in_range, lemma_region_of_in_range, region_in_range, region_of,
    SpatialHashMap2D,
};
use rand::Rng;
use vstd::arithmetic::div_mod::*;
use vstd::prelude::*;

verus! {

/// What the spatial map holds of a drone: identity, position, velocity.
pub type DroneData = (u64, Vec2, Vec2);

/// One drone of the flock.
#[derive(Clone, Copy, Debug, PartialEq, Eq, Structural)]
pub struct Drone {
    /// Identity, unique within the flock.
    pub id: u64,
    pub position: Vec2,
    pub velocity: Vec2,
    /// Direction the drone faces: its last non-zero velocity.
    pub heading: Vec2,
}

impl Drone {
    pub fn new(id: u64, position: Vec2, velocity: Vec2) -> (r: Drone)
        ensures
            r.id == id,
            r.position == position,
            r.velocity == velocity,
            r.heading == velocity,
    {
        Drone { id, position, velocity, heading: velocity }
    }

    pub open spec fn spec_data(self) -> DroneData {
        (self.id, self.position, self.velocity)
    }

    /// The drone's entry in the spatial map.
    pub fn data(&self) -> (r: DroneData)
        ensures
            r == self.spec_data(),
    {
        (self.id, self.position, self.velocity)
    }
}

/// Whether candidate `d` counts for a rule of radius `radius` applied to the
/// drone `id` at `position`: another drone, at most `radius` away.
pub open spec fn is_rule_neighbor(id: u64, position: Vec2, radius: int, d: DroneData) -> bool {
    d.0 != id && position.dist2(d.1) <= radius * radius
}

/// The candidates that count for a rule, in candidate order.
pub open spec fn rule_neighbors(cands: Seq<DroneData>, id: u64, position: Vec2, radius: int) -> Seq<
    DroneData,
>
    decreases cands.len(),
{
    if cands.len() == 0 {
        Seq::empty()
    } else {
        let front = rule_neighbors(cands.drop_last(), id, position, radius);
        if is_rule_neighbor(id, position, radius, cands.last()) {
            front.push(cands.last())
        } else {
            front
        }
    }
}

/// Componentwise sum of the positions in `s`.
pub open spec fn sum_positions(s: Seq<DroneData>) -> (int, int)
    decreases s.len(),
{
    if s.len() == 0 {
        (0, 0)
    } else {
        let f = sum_positions(s.drop_last());
        (f.0 + s.last().1.x, f.1 + s.last().1.y)
    }
}

/// Componentwise sum of the velocities in `s`.
pub open spec fn sum_velocities(s: Seq<DroneData>) -> (int, int)
    decreases s.len(),
{
    if s.len() == 0 {
        (0, 0)
    } else {
        let f = sum_velocities(s.drop_last());
        (f.0 + s.last().2.x, f.1 + s.last().2.y)
    }
}

/// Cohesion: the pull toward the mean position (rounded toward zero) of the
/// neighbours, times the strength; zero without neighbours.
pub open spec fn cohesion_spec(cands: Seq<DroneData>, id: u64, position: Vec2, config: RuleConfig) -> (
    int,
    int,
) {
    let ns = rule_neighbors(cands, id, position, config.radius as int);
    let n = ns.len() as int;
    if n == 0 {
        (0, 0)
    } else {
        let s = sum_positions(ns);
        (
            config.strength.apply(trunc_div(s.0, n) - position.x),
            config.strength.apply(trunc_div(s.1, n) - position.y),
        )
    }
}

/// Separation: the sum over the neighbours of `position - other`, times the
/// strength; no division by their number.
pub open spec fn separation_spec(
    cands: Seq<DroneData>,
    id: u64,
    position: Vec2,
    config: RuleConfig,
) -> (int, int) {
    let ns = rule_neighbors(cands, id, position, config.radius as int);
    let n = ns.len() as int;
    let s = sum_positions(ns);
    (config.strength.apply(n * position.x - s.0), config.strength.apply(n * position.y - s.1))
}

/// Alignment: the mean velocity (rounded toward zero) of the neighbours, times the
/// strength; zero without neighbours.
pub open spec fn alignment_spec(cands: Seq<DroneData>, id: u64, position: Vec2, config: RuleConfig) -> (
    int,
    int,
) {
    let ns = rule_neighbors(cands, id, position, config.radius as int);
    let n = ns.len() as int;
    if n == 0 {
        (0, 0)
    } else {
        let s = sum_velocities(ns);
        (config.strength.apply(trunc_div(s.0, n)), config.strength.apply(trunc_div(s.1, n)))
    }
}

/// Count and sums over the neighbours that count for one rule.
struct NeighborSums {
    count: i128,
    px: i128,
    py: i128,
    vx: i128,
    vy: i128,
}

/// Walks the candidates once and sums what the rules need over those that
/// count for a rule of radius `radius`.
fn neighbor_sums(id: u64, position: Vec2, radius: i32, cands: &Vec<DroneData>) -> (r: NeighborSums)
    ensures
        r.count == rule_neighbors(cands@, id, position, radius as int).len(),
        (r.px as int, r.py as int) == sum_positions(rule_neighbors(cands@, id, position, radius as int)),
        (r.vx as int, r.vy as int) == sum_velocities(
            rule_neighbors(cands@, id, position, radius as int),
        ),
        0 <= r.count <= cands@.len(),
        r.count <= 0x1_0000_0000_0000_0000,
        -0x8000_0000 * r.count <= r.px <= 0x8000_0000 * r.count,
        -0x8000_0000 * r.count <= r.py <= 0x8000_0000 * r.count,
        -0x8000_0000 * r.count <= r.vx <= 0x8000_0000 * r.count,
        -0x8000_0000 * r.count <= r.vy <= 0x8000_0000 * r.count,
{
    let mut acc = NeighborSums { count: 0, px: 0, py: 0, vx: 0, vy: 0 };
    let mut i: usize = 0;
    assert(cands@.take(0) =~= Seq::<DroneData>::empty());
    while i < cands.len()
        invariant
            0 <= i <= cands@.len(),
            acc.count == rule_neighbors(cands@.take(i as int), id, position, radius as int).len(),
            (acc.px as int, acc.py as int) == sum_positions(
                rule_neighbors(cands@.take(i as int), id, position, radius as int),
            ),
            (acc.vx as int, acc.vy as int) == sum_velocities(
                rule_neighbors(cands@.take(i as int), id, position, radius as int),
            ),
            0 <= acc.count <= i,
            -0x8000_0000 * acc.count <= acc.px <= 0x8000_0000 * acc.count,
            -0x8000_0000 * acc.count <= acc.py <= 0x8000_0000 * acc.count,
            -0x8000_0000 * acc.count <= acc.vx <= 0x8000_0000 * acc.count,
            -0x8000_0000 * acc.count <= acc.vy <= 0x8000_0000 * acc.count,
        decreases cands@.len() - i,
    {
        let d = cands[i];
        assert(i < 0x1_0000_0000_0000_0000);
        assert(cands@.take(i + 1).drop_last() =~= cands@.take(i as int));
        assert(cands@.take(i + 1).last() == d);
        let counts = d.0 != id && Vec2::are_closer_than(radius, position, d.1);
        if counts {
            let n: i128 = acc.count;
            let px: i128 = acc.px;
            let py: i128 = acc.py;
            let vx: i128 = acc.vx;
            let vy: i128 = acc.vy;
            assert(0x8000_0000 * n <= 0x8000_0000 * 0x1_0000_0000_0000_0000) by (nonlinear_arith)
                requires
                    0 <= n <= 0x1_0000_0000_0000_0000,
            ;
            let ghost front = rule_neighbors(cands@.take(i as int), id, position, radius as int);
            assert(front.push(d).drop_last() =~= front);
            acc = NeighborSums {
                count: n + 1,
                px: px + d.1.x as i128,
                py: py + d.1.y as i128,
                vx: vx + d.2.x as i128,
                vy: vy + d.2.y as i128,
            };
        }
        i += 1;
    }
    assert(cands@.take(i as int) =~= cands@);
    acc
}

/// `s / n`, rounded toward zero, lies within `[-2^31, 2^31]` when `s` lies within
/// `n` times that.
proof fn lemma_mean_bound(s: int, n: int)
    requires
        n > 0,
        -0x8000_0000 * n <= s <= 0x8000_0000 * n,
    ensures
        -0x8000_0000 <= trunc_div(s, n) <= 0x8000_0000,
{
    lemma_trunc_div_bound(s, n);
    assert(abs(s) <= 0x8000_0000 * n);
    lemma_div_is_ordered(abs(s), 0x8000_0000 * n, n);
    lemma_div_multiples_vanish(0x8000_0000int, n);
    assert(0x8000_0000 * n == n * 0x8000_0000int) by (nonlinear_arith);
}

/// The cohesion force on drone `id` at `position`.
pub fn cohesion(id: u64, position: Vec2, flock: &SpatialHashMap2D<DroneData>, config: &RuleConfig) -> (r: (
    i128,
    i128,
))
    requires
        flock.wf(),
        config.wf(),
    ensures
        (r.0 as int, r.1 as int) == cohesion_spec(
            flock.gather(block_regions(region_of(position, flock.spec_cell_size()))),
            id,
            position,
            *config,
        ),
        -FORCE_LIMIT <= r.0 <= FORCE_LIMIT,
        -FORCE_LIMIT <= r.1 <= FORCE_LIMIT,
{
    let cands = flock.neighbors(position);
    let sums = neighbor_sums(id, position, config.radius, &cands);
    if sums.count > 0 {
        let mx = trunc_div_exec(sums.px, sums.count);
        let my = trunc_div_exec(sums.py, sums.count);
        proof {
            lemma_mean_bound(sums.px as int, sums.count as int);
            lemma_mean_bound(sums.py as int, sums.count as int);
        }
        (
            config.strength.apply_exec(mx - position.x as i128),
            config.strength.apply_exec(my - position.y as i128),
        )
    } else {
        (0, 0)
    }
}

/// The separation force on drone `id` at `position`.
pub fn separation(id: u64, position: Vec2, flock: &SpatialHashMap2D<DroneData>, config: &RuleConfig) -> (r: (
    i128,
    i128,
))
    requires
        flock.wf(),
        config.wf(),
    ensures
        (r.0 as int, r.1 as int) == separation_spec(
            flock.gather(block_regions(region_of(position, flock.spec_cell_size()))),
            id,
            position,
            *config,
        ),
        -FORCE_LIMIT <= r.0 <= FORCE_LIMIT,
        -FORCE_LIMIT <= r.1 <= FORCE_LIMIT,
{
    let cands = flock.neighbors(position);
    let sums = neighbor_sums(id, position, config.radius, &cands);
    assert(-APPLY_LIMIT <= sums.count * position.x - sums.px <= APPLY_LIMIT) by (nonlinear_arith)
        requires
            0 <= sums.count <= 0x1_0000_0000_0000_0000,
            -0x8000_0000 * sums.count <= sums.px <= 0x8000_0000 * sums.count,
            -0x8000_0000 <= position.x <= 0x8000_0000,
    ;
    assert(-APPLY_LIMIT <= sums.count * position.y - sums.py <= APPLY_LIMIT) by (nonlinear_arith)
        requires
            0 <= sums.count <= 0x1_0000_0000_0000_0000,
            -0x8000_0000 * sums.count <= sums.py <= 0x8000_0000 * sums.count,
            -0x8000_0000 <= position.y <= 0x8000_0000,
    ;
    (
        config.strength.apply_exec(sums.count * position.x as i128 - sums.px),
        config.strength.apply_exec(sums.count * position.y as i128 - sums.py),
    )
}

/// The alignment force on drone `id` at `position`.
pub fn alignment(id: u64, position: Vec2, flock: &SpatialHashMap2D<DroneData>, config: &RuleConfig) -> (r: (
    i128,
    i128,
))
    requires
        flock.wf(),
        config.wf(),
    ensures
        (r.0 as int, r.1 as int) == alignment_spec(
            flock.gather(block_regions(region_of(position, flock.spec_cell_size()))),
            id,
            position,
            *config,
        ),
        -FORCE_LIMIT <= r.0 <= FORCE_LIMIT,
        -FORCE_LIMIT <= r.1 <= FORCE_LIMIT,
{
    let cands = flock.neighbors(position);
    let sums = neighbor_sums(id, position, config.radius, &cands);
    if sums.count > 0 {
        let mx = trunc_div_exec(sums.vx, sums.count);
        let my = trunc_div_exec(sums.vy, sums.count);
        proof {
            lemma_mean_bound(sums.vx as int, sums.count as int);
            lemma_mean_bound(sums.vy as int, sums.count as int);
        }
        (config.strength.apply_exec(mx), config.strength.apply_exec(my))
    } else {
        (0, 0)
    }
}

/// `v` held to the range of `i32`: positions stop at the edge of the plane.
pub open spec fn saturate(v: int) -> int {
    if v > i32::MAX {
        i32::MAX as int
    } else if v < i32::MIN {
        i32::MIN as int
    } else {
        v
    }
}

fn saturate_exec(v: i128) -> (r: i32)
    ensures
        r == saturate(v as int),
{
    if v > i32::MAX as i128 {
        i32::MAX
    } else if v < i32::MIN as i128 {
        i32::MIN
    } else {
        v as i32
    }
}

/// The velocity of drone `d` after one frame: its velocity plus the three
/// rule forces, clamped to the maximum speed.
pub open spec fn next_velocity_spec(cands: Seq<DroneData>, d: Drone, config: GameConfig) -> (int, int) {
    let c = cohesion_spec(cands, d.id, d.position, config.cohesion_config);
    let s = separation_spec(cands, d.id, d.position, config.separation_config);
    let a = alignment_spec(cands, d.id, d.position, config.alignment_config);
    clamp_length_spec(
        d.velocity.x + c.0 + s.0 + a.0,
        d.velocity.y + c.1 + s.1 + a.1,
        config.drone_max_speed as int,
    )
}

/// Drone `d` after one frame of length `dt`, given its neighbour candidates:
/// new velocity, position moved by `velocity * dt` (rounded toward zero, held to the
/// plane), heading turned to the new velocity unless that is zero.
pub open spec fn next_drone_spec(cands: Seq<DroneData>, d: Drone, config: GameConfig, dt: Ratio) -> Drone {
    let v = next_velocity_spec(cands, d, config);
    let velocity = Vec2 { x: v.0 as i32, y: v.1 as i32 };
    Drone {
        id: d.id,
        position: Vec2 {
            x: saturate(d.position.x + dt.apply(v.0)) as i32,
            y: saturate(d.position.y + dt.apply(v.1)) as i32,
        },
        velocity,
        heading: if v.0 == 0 && v.1 == 0 {
            d.heading
        } else {
            velocity
        },
    }
}

/// The neighbour candidates of `d` in `flock`.
pub open spec fn candidates(flock: SpatialHashMap2D<DroneData>, d: Drone) -> Seq<DroneData> {
    flock.gather(block_regions(region_of(d.position, flock.spec_cell_size())))
}

/// Computes drone `drone` after one frame from the frame's spatial map.
pub fn update_drone(flock: &SpatialHashMap2D<DroneData>, drone: Drone, settings: &GameConfig, dt: Ratio) -> (r:
    Drone)
    requires
        flock.wf(),
        settings.wf(),
        dt.wf(),
    ensures
        r == next_drone_spec(candidates(*flock, drone), drone, *settings, dt),
{
    let c = cohesion(drone.id, drone.position, flock, &settings.cohesion_config);
    let s = separation(drone.id, drone.position, flock, &settings.separation_config);
    let a = alignment(drone.id, drone.position, flock, &settings.alignment_config);
    let vx: i128 = drone.velocity.x as i128 + c.0 + s.0 + a.0;
    let vy: i128 = drone.velocity.y as i128 + c.1 + s.1 + a.1;
    let velocity = clamp_length_max(vx, vy, settings.drone_max_speed);
    let px: i128 = drone.position.x as i128 + dt.apply_exec(velocity.x as i128);
    let py: i128 = drone.position.y as i128 + dt.apply_exec(velocity.y as i128);
    let position = Vec2 { x: saturate_exec(px), y: saturate_exec(py) };
    let heading = if velocity.x == 0 && velocity.y == 0 {
        drone.heading
    } else {
        velocity
    };
    Drone { id: drone.id, position, velocity, heading }
}

/// Moves every drone one frame. Each drone's new state is computed from
/// `spatial_map`, which is not changed, and from its own state before the
/// call, never from another drone's new state.
pub fn update_drones(
    drones: &mut Vec<Drone>,
    spatial_map: &SpatialHashMap2D<DroneData>,
    settings: &GameConfig,
    dt: Ratio,
)
    requires
        spatial_map.wf(),
        settings.wf(),
        dt.wf(),
    ensures
        final(drones)@.len() == old(drones)@.len(),
        forall|i: int|
            0 <= i < old(drones)@.len() ==> #[trigger] final(drones)@[i] == next_drone_spec(
                candidates(*spatial_map, old(drones)@[i]),
                old(drones)@[i],
                *settings,
                dt,
            ),
{
    let ghost before = drones@;
    let mut i: usize = 0;
    while i < drones.len()
        invariant
            drones@.len() == before.len(),
            0 <= i <= before.len(),
            spatial_map.wf(),
            settings.wf(),
            dt.wf(),
            forall|j: int|
                0 <= j < i ==> #[trigger] drones@[j] == next_drone_spec(
                    candidates(*spatial_map, before[j]),
                    before[j],
                    *settings,
                    dt,
                ),
            forall|j: int| i <= j < before.len() ==> #[trigger] drones@[j] == before[j],
        decreases before.len() - i,
    {
        let next = update_drone(spatial_map, drones[i], settings, dt);
        drones.set(i, next);
        i += 1;
    }
}

/// Relies on rand's `Rng::gen_range` on the thread-local generator: a value
/// drawn from `lo..hi`; it panics when that range is empty.
#[verifier::external_body]
fn random_in(lo: i32, hi: i32) -> (r: i32)
    requires
        lo < hi,
    ensures
        lo <= r < hi,
{
    rand::thread_rng().gen_range(lo..hi)
}

/// One drone per entry of `velocities`, numbered from 0, each at a random
/// position of the rectangle `[-half_width, half_width) × [-half_height,
/// half_height)` and facing along its velocity.
pub fn spawn_drones(velocities: &Vec<Vec2>, half_width: i32, half_height: i32) -> (r: Vec<Drone>)
    requires
        half_width > 0,
        half_height > 0,
    ensures
        r@.len() == velocities@.len(),
        forall|i: int|
            0 <= i < r@.len() ==> {
                &&& (#[trigger] r@[i]).id == i
                &&& r@[i].velocity == velocities@[i]
                &&& r@[i].heading == velocities@[i]
                &&& -half_width <= r@[i].position.x < half_width
                &&& -half_height <= r@[i].position.y < half_height
            },
{
    let mut out: Vec<Drone> = Vec::new();
    let mut i: usize = 0;
    while i < velocities.len()
        invariant
            0 <= i <= velocities@.len(),
            out@.len() == i,
            half_width > 0,
            half_height > 0,
            forall|j: int|
                0 <= j < i ==> {
                    &&& (#[trigger] out@[j]).id == j
                    &&& out@[j].velocity == velocities@[j]
                    &&& out@[j].heading == velocities@[j]
                    &&& -half_width <= out@[j].position.x < half_width
                    &&& -half_height <= out@[j].position.y < half_height
                },
        decreases velocities@.len() - i,
    {
        let x = random_in(-half_width, half_width);
        let y = random_in(-half_height, half_height);
        out.push(Drone::new(i as u64, Vec2::new(x, y), velocities[i]));
        i += 1;
    }
    out
}

/// The entries of the drones of `ds` whose position lies in cell `r`, in
/// the order of `ds`.
pub open spec fn cell_snapshot(ds: Seq<Drone>, r: (int, int), s: int) -> Seq<DroneData>
    decreases ds.len(),
{
    if ds.len() == 0 {
        Seq::empty()
    } else {
        let front = cell_snapshot(ds.drop_last(), r, s);
        if region_of(ds.last().position, s) == r {
            front.push(ds.last().spec_data())
        } else {
            front
        }
    }
}

/// The entries of the cells `rs` of the grid built from `ds`, cell after cell.
pub open spec fn gather_snapshot(ds: Seq<Drone>, rs: Seq<(int, int)>, s: int) -> Seq<DroneData>
    decreases rs.len(),
{
    if rs.len() == 0 {
        Seq::empty()
    } else {
        gather_snapshot(ds, rs.drop_last(), s) + cell_snapshot(ds, rs.last(), s)
    }
}

/// The spatial map holds exactly the grid built from `ds`.
pub open spec fn indexes(flock: SpatialHashMap2D<DroneData>, ds: Seq<Drone>) -> bool {
    &&& flock.wf()
    &&& forall|r: (int, int)|
        region_in_range(r) ==> #[trigger] flock.cell(r) == cell_snapshot(
            ds,
            r,
            flock.spec_cell_size(),
        )
}

/// Clears `spatial_map` and files every drone under the cell of its position.
pub fn update_spatial_map(drones: &Vec<Drone>, spatial_map: &mut SpatialHashMap2D<DroneData>)
    requires
        old(spatial_map).wf(),
    ensures
        final(spatial_map).spec_cell_size() == old(spatial_map).spec_cell_size(),
        indexes(*final(spatial_map), drones@),
{
    spatial_map.clear();
    let ghost s = spatial_map.spec_cell_size();
    let mut i: usize = 0;
    assert(drones@.take(0) =~= Seq::<Drone>::empty());
    while i < drones.len()
        invariant
            0 <= i <= drones@.len(),
            spatial_map.spec_cell_size() == s,
            s > 0,
            indexes(*spatial_map, drones@.take(i as int)),
        decreases drones@.len() - i,
    {
        let d = drones[i];
        let ghost prev = *spatial_map;
        spatial_map.add(d.position, d.data());
        proof {
            assert(drones@.take(i + 1).drop_last() =~= drones@.take(i as int));
            assert(drones@.take(i + 1).last() == d);
        }
        i += 1;
    }
    assert(drones@.take(i as int) =~= drones@);
}

proof fn lemma_gather_snapshot(flock: SpatialHashMap2D<DroneData>, ds: Seq<Drone>, rs: Seq<(int, int)>)
    requires
        indexes(flock, ds),
        forall|k: int| 0 <= k < rs.len() ==> region_in_range(#[trigger] rs[k]),
    ensures
        flock.gather(rs) == gather_snapshot(ds, rs, flock.spec_cell_size()),
    decreases rs.len(),
{
    if rs.len() > 0 {
        assert(region_in_range(rs[rs.len() - 1]));
        lemma_gather_snapshot(flock, ds, rs.drop_last());
    }
}

/// The neighbour candidates of drone `d` in the grid built from `ds`.
pub open spec fn frame_candidates(ds: Seq<Drone>, d: Drone, s: int) -> Seq<DroneData> {
    gather_snapshot(ds, block_regions(region_of(d.position, s)), s)
}

/// The flock `ds` after one frame: every drone moved from the same
/// snapshot `ds`.
pub open spec fn step_spec(ds: Seq<Drone>, config: GameConfig, dt: Ratio) -> Seq<Drone> {
    Seq::new(
        ds.len(),
        |i: int|
            next_drone_spec(
                frame_candidates(ds, ds[i], config.spatial_map_cell_size as int),
                ds[i],
                config,
                dt,
            ),
    )
}

/// One frame: rebuilds `spatial_map` from the drones, then moves every drone.
pub fn step(
    drones: &mut Vec<Drone>,
    spatial_map: &mut SpatialHashMap2D<DroneData>,
    settings: &GameConfig,
    dt: Ratio,
)
    requires
        old(spatial_map).wf(),
        old(spatial_map).spec_cell_size() == settings.spatial_map_cell_size,
        settings.wf(),
        dt.wf(),
    ensures
        final(drones)@ == step_spec(old(drones)@, *settings, dt),
        final(spatial_map).spec_cell_size() == settings.spatial_map_cell_size,
        indexes(*final(spatial_map), old(drones)@),
{
    update_spatial_map(drones, spatial_map);
    let ghost before = drones@;
    update_drones(drones, spatial_map, settings, dt);
    proof {
        let s = settings.spatial_map_cell_size as int;
        assert forall|i: int| 0 <= i < before.len() implies candidates(*spatial_map, before[i])
            == frame_candidates(before, before[i], s) by {
            let c = region_of(before[i].position, s);
            lemma_region_of_in_range(before[i].position, s);
            lemma_block_in_range(c);
            lemma_gather_snapshot(*spatial_map, before, block_regions(c));
        }
        assert(drones@ =~= step_spec(before, *settings, dt));
    }
}

proof fn lemma_rule_neighbors_push(
    cands: Seq<DroneData>,
    e: DroneData,
    id: u64,
    position: Vec2,
    radius: int,
)
    ensures
        rule_neighbors(cands.push(e), id, position, radius) == if is_rule_neighbor(
            id,
            position,
            radius,
            e,
        ) {
            rule_neighbors(cands, id, position, radius).push(e)
        } else {
            rule_neighbors(cands, id, position, radius)
        },
{
    assert(cands.push(e).drop_last() =~= cands);
}

proof fn lemma_rule_neighbors_append(
    s1: Seq<DroneData>,
    s2: Seq<DroneData>,
    id: u64,
    position: Vec2,
    radius: int,
)
    ensures
        rule_neighbors(s1 + s2, id, position, radius) == rule_neighbors(s1, id, position, radius)
            + rule_neighbors(s2, id, position, radius),
    decreases s2.len(),
{
    if s2.len() == 0 {
        assert(s1 + s2 =~= s1);
        assert(rule_neighbors(s1, id, position, radius) + Seq::empty() =~= rule_neighbors(
            s1,
            id,
            position,
            radius,
        ));
    } else {
        assert((s1 + s2).drop_last() =~= s1 + s2.drop_last());
        lemma_rule_neighbors_append(s1, s2.drop_last(), id, position, radius);
        assert((rule_neighbors(s1, id, position, radius) + rule_neighbors(
            s2.drop_last(),
            id,
            position,
            radius,
        )).push(s2.last()) =~= rule_neighbors(s1, id, position, radius) + rule_neighbors(
            s2.drop_last(),
            id,
            position,
            radius,
        ).push(s2.last()));
    }
}

/// With two drones, the neighbours that count for `p` in one cell are the
/// same whichever of the two comes first.
proof fn lemma_pair_cell(p: Drone, q: Drone, r: (int, int), s: int, radius: int)
    requires
        p.id != q.id,
    ensures
        rule_neighbors(cell_snapshot(seq![p, q], r, s), p.id, p.position, radius) == rule_neighbors(
            cell_snapshot(seq![q, p], r, s),
            p.id,
            p.position,
            radius,
        ),
{
    let pq = seq![p, q];
    let qp = seq![q, p];
    let dp = p.spec_data();
    let dq = q.spec_data();
    let e = Seq::<DroneData>::empty();
    assert(pq.drop_last() =~= seq![p] && pq.last() == q);
    assert(qp.drop_last() =~= seq![q] && qp.last() == p);
    assert(seq![p].drop_last() =~= Seq::<Drone>::empty() && seq![p].last() == p);
    assert(seq![q].drop_last() =~= Seq::<Drone>::empty() && seq![q].last() == q);
    let in_p = region_of(p.position, s) == r;
    let in_q = region_of(q.position, s) == r;
    let cp = if in_p {
        e.push(dp)
    } else {
        e
    };
    let cq = if in_q {
        e.push(dq)
    } else {
        e
    };
    assert(cell_snapshot(Seq::<Drone>::empty(), r, s) == e);
    assert(cell_snapshot(seq![p], r, s) == cp);
    assert(cell_snapshot(seq![q], r, s) == cq);
    assert(cell_snapshot(pq, r, s) == if in_q {
        cp.push(dq)
    } else {
        cp
    });
    assert(cell_snapshot(qp, r, s) == if in_p {
        cq.push(dp)
    } else {
        cq
    });
    assert(!is_rule_neighbor(p.id, p.position, radius, dp));
    assert(rule_neighbors(e, p.id, p.position, radius) =~= e);
    lemma_rule_neighbors_push(e, dp, p.id, p.position, radius);
    lemma_rule_neighbors_push(e, dq, p.id, p.position, radius);
    lemma_rule_neighbors_push(e.push(dp), dq, p.id, p.position, radius);
    lemma_rule_neighbors_push(e.push(dq), dp, p.id, p.position, radius);
}

proof fn lemma_pair_gather(p: Drone, q: Drone, rs: Seq<(int, int)>, s: int, radius: int)
    requires
        p.id != q.id,
    ensures
        rule_neighbors(gather_snapshot(seq![p, q], rs, s), p.id, p.position, radius)
            == rule_neighbors(gather_snapshot(seq![q, p], rs, s), p.id, p.position, radius),
    decreases rs.len(),
{
    if rs.len() > 0 {
        lemma_pair_gather(p, q, rs.drop_last(), s, radius);
        lemma_pair_cell(p, q, rs.last(), s, radius);
        lemma_rule_neighbors_append(
            gather_snapshot(seq![p, q], rs.drop_last(), s),
            cell_snapshot(seq![p, q], rs.last(), s),
            p.id,
            p.position,
            radius,
        );
        lemma_rule_neighbors_append(
            gather_snapshot(seq![q, p], rs.drop_last(), s),
            cell_snapshot(seq![q, p], rs.last(), s),
            p.id,
            p.position,
            radius,
        );
    }
}

/// A drone's next state depends on its candidates only through the
/// neighbours that count for each rule.
proof fn lemma_next_drone_by_neighbors(
    c1: Seq<DroneData>,
    c2: Seq<DroneData>,
    d: Drone,
    config: GameConfig,
    dt: Ratio,
)
    requires
        forall|radius: int|
            rule_neighbors(c1, d.id, d.position, radius) == #[trigger] rule_neighbors(
                c2,
                d.id,
                d.position,
                radius,
            ),
    ensures
        next_drone_spec(c1, d, config, dt) == next_drone_spec(c2, d, config, dt),
{
    assert(rule_neighbors(c1, d.id, d.position, config.cohesion_config.radius as int)
        == rule_neighbors(c2, d.id, d.position, config.cohesion_config.radius as int));
    assert(rule_neighbors(c1, d.id, d.position, config.separation_config.radius as int)
        == rule_neighbors(c2, d.id, d.position, config.separation_config.radius as int));
    assert(rule_neighbors(c1, d.id, d.position, config.alignment_config.radius as int)
        == rule_neighbors(c2, d.id, d.position, config.alignment_config.radius as int));
}

/// Order independence: stepping the flock `[a, b]` and the flock `[b, a]`
/// gives each drone the same next state.
pub proof fn lemma_step_order_independent(a: Drone, b: Drone, config: GameConfig, dt: Ratio)
    requires
        a.id != b.id,
    ensures
        step_spec(seq![a, b], config, dt)[0] == step_spec(seq![b, a], config, dt)[1],
        step_spec(seq![a, b], config, dt)[1] == step_spec(seq![b, a], config, dt)[0],
{
    let s = config.spatial_map_cell_size as int;
    let ab = seq![a, b];
    let ba = seq![b, a];
    assert forall|radius: int|
        rule_neighbors(frame_candidates(ab, a, s), a.id, a.position, radius)
            == #[trigger] rule_neighbors(frame_candidates(ba, a, s), a.id, a.position, radius) by {
        lemma_pair_gather(a, b, block_regions(region_of(a.position, s)), s, radius);
    }
    assert forall|radius: int|
        rule_neighbors(frame_candidates(ba, b, s), b.id, b.position, radius)
            == #[trigger] rule_neighbors(frame_candidates(ab, b, s), b.id, b.position, radius) by {
        lemma_pair_gather(b, a, block_regions(region_of(b.position, s)), s, radius);
    }
    lemma_next_drone_by_neighbors(frame_candidates(ab, a, s), frame_candidates(ba, a, s), a, config, dt);
    lemma_next_drone_by_neighbors(frame_candidates(ba, b, s), frame_candidates(ab, b, s), b, config, dt);
    assert(ab[0] == a && ab[1] == b && ba[0] == b && ba[1] == a);
}

/// How many times cell `c` occurs in `rs`.
pub open spec fn occurrences(rs: Seq<(int, int)>, c: (int, int)) -> nat
    decreases rs.len(),
{
    if rs.len() == 0 {
        0
    } else {
        occurrences(rs.drop_last(), c) + if rs.last() == c {
            1nat
        } else {
            0nat
        }
    }
}

proof fn lemma_occurrences_none(rs: Seq<(int, int)>, c: (int, int))
    requires
        forall|k: int| 0 <= k < rs.len() ==> #[trigger] rs[k] != c,
    ensures
        occurrences(rs, c) == 0,
    decreases rs.len(),
{
    if rs.len() > 0 {
        assert(rs[rs.len() - 1] != c);
        assert forall|k: int| 0 <= k < rs.drop_last().len() implies #[trigger] rs.drop_last()[k]
            != c by {
            assert(rs.drop_last()[k] == rs[k]);
        }
        lemma_occurrences_none(rs.drop_last(), c);
    }
}

proof fn lemma_occurrences_once(rs: Seq<(int, int)>, c: (int, int), j: int)
    requires
        0 <= j < rs.len(),
        rs[j] == c,
        forall|k: int| 0 <= k < rs.len() && k != j ==> #[trigger] rs[k] != c,
    ensures
        occurrences(rs, c) == 1,
    decreases rs.len(),
{
    let front = rs.drop_last();
    if j == rs.len() - 1 {
        assert forall|k: int| 0 <= k < front.len() implies #[trigger] front[k] != c by {
            assert(front[k] == rs[k]);
        }
        lemma_occurrences_none(front, c);
    } else {
        assert(rs[rs.len() - 1] != c);
        assert forall|k: int| 0 <= k < front.len() && k != j implies #[trigger] front[k] != c by {
            assert(front[k] == rs[k]);
        }
        lemma_occurrences_once(front, c, j);
    }
}

/// In the two-drone grid `[p, q]`, the neighbours that count for `p` in
/// cell `c` are `q`'s entry when `q` lies in `c`, and nothing otherwise.
proof fn lemma_pair_cell_other(p: Drone, q: Drone, c: (int, int), s: int, radius: int)
    requires
        p.id != q.id,
        is_rule_neighbor(p.id, p.position, radius, q.spec_data()),
    ensures
        rule_neighbors(cell_snapshot(seq![p, q], c, s), p.id, p.position, radius) == if region_of(
            q.position,
            s,
        ) == c {
            seq![q.spec_data()]
        } else {
            Seq::<DroneData>::empty()
        },
{
    let pq = seq![p, q];
    let dp = p.spec_data();
    let dq = q.spec_data();
    let e = Seq::<DroneData>::empty();
    assert(pq.drop_last() =~= seq![p] && pq.last() == q);
    assert(seq![p].drop_last() =~= Seq::<Drone>::empty() && seq![p].last() == p);
    assert(cell_snapshot(Seq::<Drone>::empty(), c, s) == e);
    let cp = if region_of(p.position, s) == c {
        e.push(dp)
    } else {
        e
    };
    assert(cell_snapshot(seq![p], c, s) == cp);
    assert(!is_rule_neighbor(p.id, p.position, radius, dp));
    assert(rule_neighbors(e, p.id, p.position, radius) =~= e);
    lemma_rule_neighbors_push(e, dp, p.id, p.position, radius);
    lemma_rule_neighbors_push(cp, dq, p.id, p.position, radius);
    assert(e.push(dq) =~= seq![dq]);
}

proof fn lemma_pair_gather_other(p: Drone, q: Drone, rs: Seq<(int, int)>, s: int, radius: int)
    requires
        p.id != q.id,
        is_rule_neighbor(p.id, p.position, radius, q.spec_data()),
    ensures
        rule_neighbors(gather_snapshot(seq![p, q], rs, s), p.id, p.position, radius) =~= Seq::new(
            occurrences(rs, region_of(q.position, s)),
            |_i: int| q.spec_data(),
        ),
    decreases rs.len(),
{
    if rs.len() > 0 {
        let front = gather_snapshot(seq![p, q], rs.drop_last(), s);
        let last = cell_snapshot(seq![p, q], rs.last(), s);
        lemma_pair_gather_other(p, q, rs.drop_last(), s, radius);
        lemma_pair_cell_other(p, q, rs.last(), s, radius);
        lemma_rule_neighbors_append(front, last, p.id, p.position, radius);
    }
}

/// Cells of side `s` of two values at most `s` apart are at most one apart.
proof fn lemma_close_cells(x: int, y: int, s: int)
    requires
        s > 0,
        -s <= x - y <= s,
    ensures
        -1 <= x / s - y / s <= 1,
{
    lemma_fundamental_div_mod(x, s);
    lemma_fundamental_div_mod(y, s);
    lemma_mod_bound(x, s);
    lemma_mod_bound(y, s);
    let qx = x / s;
    let qy = y / s;
    assert(-1 <= qx - qy <= 1) by (nonlinear_arith)
        requires
            x == s * qx + x % s,
            y == s * qy + y % s,
            0 <= x % s < s,
            0 <= y % s < s,
            -s <= x - y <= s,
            s > 0,
    ;
}

/// With radius at most the cell side, the only neighbour that counts for
/// `p` in the two-drone flock `[p, q]` is `q`, once.
proof fn lemma_pair_neighbors(p: Drone, q: Drone, s: int, radius: int)
    requires
        p.id != q.id,
        s > 0,
        0 <= radius <= s,
        p.position.dist2(q.position) <= radius * radius,
    ensures
        rule_neighbors(frame_candidates(seq![p, q], p, s), p.id, p.position, radius) =~= seq![
            q.spec_data(),
        ],
{
    let dx = p.position.x - q.position.x;
    let dy = p.position.y - q.position.y;
    assert(-radius <= dx <= radius && -radius <= dy <= radius) by (nonlinear_arith)
        requires
            dx * dx + dy * dy <= radius * radius,
            radius >= 0,
    ;
    let c = region_of(p.position, s);
    let cq = region_of(q.position, s);
    lemma_close_cells(q.position.x as int, p.position.x as int, s);
    lemma_close_cells(q.position.y as int, p.position.y as int, s);
    let rs = block_regions(c);
    let j = (cq.0 - c.0 + 1) + 3 * (cq.1 - c.1 + 1);
    assert(rs[j] == cq);
    assert forall|k: int| 0 <= k < rs.len() && k != j implies #[trigger] rs[k] != cq by {
        lemma_fundamental_div_mod(k, 3);
    }
    lemma_occurrences_once(rs, cq, j);
    lemma_pair_gather_other(p, q, rs, s, radius);
}

/// Separation between two drones within radius of each other, with the
/// radius at most the cell side, is equal and opposite.
pub proof fn lemma_separation_opposite(a: Drone, b: Drone, config: RuleConfig, s: int)
    requires
        a.id != b.id,
        config.wf(),
        s > 0,
        config.radius <= s,
        a.position.dist2(b.position) <= config.radius * config.radius,
    ensures
        separation_spec(frame_candidates(seq![a, b], a, s), a.id, a.position, config).0
            == -separation_spec(frame_candidates(seq![b, a], b, s), b.id, b.position, config).0,
        separation_spec(frame_candidates(seq![a, b], a, s), a.id, a.position, config).1
            == -separation_spec(frame_candidates(seq![b, a], b, s), b.id, b.position, config).1,
        separation_spec(frame_candidates(seq![a, b], a, s), a.id, a.position, config) == (
            config.strength.apply(a.position.x - b.position.x),
            config.strength.apply(a.position.y - b.position.y),
        ),
{
    assert(b.position.dist2(a.position) == a.position.dist2(b.position)) by (nonlinear_arith);
    lemma_pair_neighbors(a, b, s, config.radius as int);
    lemma_pair_neighbors(b, a, s, config.radius as int);
    let da = a.spec_data();
    let db = b.spec_data();
    assert(seq![db].drop_last() =~= Seq::<DroneData>::empty() && seq![db].last() == db);
    assert(seq![da].drop_last() =~= Seq::<DroneData>::empty() && seq![da].last() == da);
    assert(sum_positions(Seq::<DroneData>::empty()) == (0int, 0int));
    assert(sum_positions(seq![db]) == (b.position.x as int, b.position.y as int));
    assert(sum_positions(seq![da]) == (a.position.x as int, a.position.y as int));
    config.strength.lemma_apply_negate(a.position.x - b.position.x);
    config.strength.lemma_apply_negate(a.position.y - b.position.y);
    assert(-(a.position.x - b.position.x) == b.position.x - a.position.x);
}

/// A drone whose new velocity is zero keeps its heading.
pub proof fn lemma_zero_velocity_keeps_heading(
    cands: Seq<DroneData>,
    d: Drone,
    config: GameConfig,
    dt: Ratio,
)
    requires
        next_velocity_spec(cands, d, config) == (0int, 0int),
    ensures
        next_drone_spec(cands, d, config, dt).heading == d.heading,
        next_drone_spec(cands, d, config, dt).velocity.is_zero(),
{
}

/// With radius zero, a rule gives no force to a drone that shares its
/// position with no other drone among its candidates.
pub proof fn lemma_radius_zero_no_force(cands: Seq<DroneData>, id: u64, position: Vec2, config: RuleConfig)
    requires
        config.radius == 0,
        config.strength.wf(),
        forall|k: int| 0 <= k < cands.len() && (#[trigger] cands[k]).0 != id ==> cands[k].1 != position,
    ensures
        cohesion_spec(cands, id, position, config) == (0int, 0int),
        separation_spec(cands, id, position, config) == (0int, 0int),
        alignment_spec(cands, id, position, config) == (0int, 0int),
{
    lemma_radius_zero_no_neighbors(cands, id, position);
    assert((0 * config.strength.num) / (config.strength.den as int) == 0) by (nonlinear_arith)
        requires
            config.strength.den > 0,
    ;
}

proof fn lemma_radius_zero_no_neighbors(cands: Seq<DroneData>, id: u64, position: Vec2)
    requires
        forall|k: int| 0 <= k < cands.len() && (#[trigger] cands[k]).0 != id ==> cands[k].1 != position,
    ensures
        rule_neighbors(cands, id, position, 0) =~= Seq::<DroneData>::empty(),
    decreases cands.len(),
{
    if cands.len() > 0 {
        let e = cands.last();
        assert(cands[cands.len() - 1] == e);
        assert forall|k: int|
            0 <= k < cands.drop_last().len() && (#[trigger] cands.drop_last()[k]).0 != id implies cands.drop_last()[k].1
            != position by {
            assert(cands.drop_last()[k] == cands[k]);
        }
        lemma_radius_zero_no_neighbors(cands.drop_last(), id, position);
        if e.0 != id {
            let dx = position.x - e.1.x;
            let dy = position.y - e.1.y;
            assert(dx * dx + dy * dy > 0) by (nonlinear_arith)
                requires
                    dx != 0 || dy != 0,
            ;
        }
    }
}

} // verus!
