use vstd::prelude::*;
use std::collections::VecDeque;
use crate::bitmap::BitMap;
use crate::crossy_ruleset::{CrossyRulesetFST, RulesState};
use crate::froggy::{choose_str, froggy_gen, gen_str, row_key_hash, row_rand, str_key_hash, unit_below};
use crate::game::{CoordPos, SCREEN_SIZE};
use crate::rng::spec_choice_index;

verus! {

/// A row of the map, counted upwards from the bottom of the starting screen.
#[derive(Debug, Clone, Copy, PartialEq, Eq, Structural, Hash)]
pub struct RowId(pub u32);

impl RowId {
    pub open spec fn spec_from_y(y: i32) -> RowId {
        RowId((SCREEN_SIZE - y) as u32)
    }

    /// The row at screen coordinate `y`.
    pub fn from_y(y: i32) -> (r: Self)
        requires
            y >= SCREEN_SIZE - i32::MAX,
        ensures
            r == Self::spec_from_y(y),
    {
        RowId((SCREEN_SIZE - y) as u32)
    }

    pub open spec fn spec_to_y(self) -> i32 {
        (SCREEN_SIZE - (self.0 as i32)) as i32
    }

    /// The screen coordinate of the row.
    pub fn to_y(self) -> (r: i32)
        requires
            self.0 as i32 >= SCREEN_SIZE - i32::MAX,
        ensures
            r == self.spec_to_y(),
    {
        SCREEN_SIZE - self.0 as i32
    }
}

#[derive(Debug, Clone, Copy, PartialEq, Eq, Structural)]
pub struct RiverDescr {
    pub seed: u32,
}

#[derive(Debug, Clone, Copy, PartialEq, Eq, Structural)]
pub struct PathDescr {
    pub wall_width: u32,
}

#[derive(Debug, Clone, Copy, PartialEq, Eq, Structural)]
pub struct RoadDescr {}

/// A row of cars or of lillipads: its seed and which way it flows.
#[derive(Debug, Clone, Copy, PartialEq, Eq, Structural)]
pub struct ObstacleRowDescr {
    pub seed: u32,
    pub inverted: bool,
}

#[derive(Debug, Clone, Copy, PartialEq, Eq, Structural)]
pub struct BushDescr {
    pub path_descr: PathDescr,
    pub seed: u32,
    pub y: i32,
}

#[derive(Debug)]
pub struct HydratedBushRow {
    pub bushes: Vec<i32>,
}

#[derive(Debug, Clone, Copy, PartialEq, Eq, Structural)]
pub struct IcyDescr {
    pub path_descr: PathDescr,
    pub seed: u32,
    pub y: i32,
    pub blocks: BitMap,
}

#[derive(Debug, Clone, Copy, PartialEq, Eq, Structural)]
pub struct LavaDescr {
    pub path_descr: PathDescr,
    pub seed: u64,
    pub y: i32,
    pub lava: BitMap,
    pub blocks: BitMap,
}

#[derive(Debug, Clone, Copy, PartialEq, Eq, Structural)]
pub enum RowType {
    River(ObstacleRowDescr),
    Path(PathDescr),
    Road(ObstacleRowDescr),
    Bushes(BushDescr),
    StartingBarrier(),
    Stands(),
    IcyRow(IcyDescr),
    LavaRow(LavaDescr),
    LobbyRiver,
}

impl RowType {
    /// Rivers and roads can kill.
    pub fn is_dangerous(&self) -> (r: bool)
        ensures
            r == (self is River || self is Road),
    {
        match self {
            RowType::River(_) => true,
            RowType::Road(_) => true,
            _ => false,
        }
    }
}

#[derive(Debug, Clone, Copy, PartialEq, Eq, Structural)]
pub struct Row {
    pub row_id: RowId,
    pub row_type: RowType,
}

pub open spec fn spec_outside_walls(x: int, wall_width: int) -> bool {
    x <= wall_width || x >= SCREEN_SIZE - 1 - wall_width
}

/// Column `x` lies in the left or the right wall of a row with walls `wall_width` wide.
pub fn outside_walls(x: i32, wall_width: i32) -> (r: bool)
    ensures
        r == spec_outside_walls(x as int, wall_width as int),
{
    x <= wall_width || x as i64 >= SCREEN_SIZE as i64 - 1 - wall_width as i64
}

/// The width of the stands on both sides of the starting rows.
pub const STANDS_WIDTH: i32 = 6;

impl Row {
    /// Whether tile `x` of the row blocks a player: nothing blocks in the lobby; walls block on
    /// paths and bushes; the stands block beside the track, and the starting barrier blocks
    /// all of its row during the warmup.
    pub open spec fn spec_solid(self, fst: CrossyRulesetFST, x: int) -> bool {
        if fst is Lobby {
            false
        } else {
            match self.row_type {
                RowType::Path(s) => spec_outside_walls(x, (s.wall_width as i32) as int),
                RowType::Bushes(s) => spec_outside_walls(x, (s.path_descr.wall_width as i32) as int),
                RowType::StartingBarrier() => fst is RoundWarmup || spec_outside_walls(x, STANDS_WIDTH as int),
                RowType::Stands() => spec_outside_walls(x, STANDS_WIDTH as int),
                _ => false,
            }
        }
    }

    pub fn solid(&self, _time_us: u32, rule_state: &RulesState, pos: CoordPos) -> (r: bool)
        requires
            self.row_id.0 as i32 >= SCREEN_SIZE - i32::MAX,
            self.row_id.spec_to_y() == pos.y,
        ensures
            r == self.spec_solid(rule_state.fst, pos.x as int),
    {
        let x = pos.x;
        if let CrossyRulesetFST::Lobby { .. } = rule_state.fst {
            return false;
        }
        match &self.row_type {
            RowType::Path(s) => outside_walls(x, s.wall_width as i32),
            RowType::Bushes(s) => outside_walls(x, s.path_descr.wall_width as i32),
            RowType::StartingBarrier() => {
                if let CrossyRulesetFST::RoundWarmup(_) = rule_state.fst {
                    true
                } else {
                    outside_walls(x, STANDS_WIDTH)
                }
            },
            RowType::Stands() => outside_walls(x, STANDS_WIDTH),
            _ => false,
        }
    }
}

impl BushDescr {
    /// The columns that hold bushes: every column between the walls, in ascending order.
    pub fn hydrate(&self) -> (r: HydratedBushRow)
        ensures
            forall|x: i32| #[trigger] r.bushes@.contains(x) <==> (0 <= x < SCREEN_SIZE && !spec_outside_walls(
                x as int,
                (self.path_descr.wall_width as i32) as int,
            )),
            forall|i: int, j: int| 0 <= i < j < r.bushes@.len() ==> r.bushes@[i] < r.bushes@[j],
    {
        let wall = self.path_descr.wall_width as i32;
        let mut bushes: Vec<i32> = Vec::new();
        let mut x: i32 = 0;
        while x < SCREEN_SIZE
            invariant
                0 <= x <= SCREEN_SIZE,
                wall == self.path_descr.wall_width as i32,
                forall|v: i32| #[trigger] bushes@.contains(v) <==> (0 <= v < x && !spec_outside_walls(v as int, wall as int)),
                forall|i: int, j: int| 0 <= i < j < bushes@.len() ==> bushes@[i] < bushes@[j],
                forall|i: int| 0 <= i < bushes@.len() ==> bushes@[i] < x,
            decreases SCREEN_SIZE - x,
        {
            if !outside_walls(x, wall) {
                let ghost old_b = bushes@;
                bushes.push(x);
                proof {
                    assert(bushes@ == old_b.push(x));
                    assert forall|v: i32| #[trigger] bushes@.contains(v) <==> (0 <= v < x + 1 && !spec_outside_walls(v as int, wall as int)) by {
                        if bushes@.contains(v) && v != x {
                            let k = choose|k: int| 0 <= k < bushes@.len() && bushes@[k] == v;
                            assert(old_b[k] == v);
                            assert(old_b.contains(v));
                        }
                        if 0 <= v < x && !spec_outside_walls(v as int, wall as int) {
                            assert(old_b.contains(v));
                            let k = choose|k: int| 0 <= k < old_b.len() && old_b[k] == v;
                            assert(bushes@[k] == v);
                        }
                        if v == x {
                            assert(bushes@[bushes@.len() - 1] == x);
                        }
                    }
                }
            }
            x += 1;
        }
        HydratedBushRow { bushes }
    }
}


/// The obstacle rows `first .. first + lanes`, newest (highest id) first.
pub open spec fn obstacle_rows(first: int, lanes: int, river: bool, seed: u32, inverted: bool) -> Seq<Row> {
    Seq::new(
        lanes as nat,
        |t: int|
            Row {
                row_id: RowId((first + lanes - 1 - t) as u32),
                row_type: if river {
                    RowType::River(ObstacleRowDescr { seed, inverted })
                } else {
                    RowType::Road(ObstacleRowDescr { seed, inverted })
                },
            },
    )
}

pub open spec fn clamp_wall(w: int) -> i32 {
    if w > 6 {
        6
    } else if w < 1 {
        1
    } else {
        w as i32
    }
}

/// The value the generator of a row gives for a string key.
pub open spec fn row_gen(seed: u32, round_id: u8, row: u32, key: Seq<char>) -> u64 {
    froggy_gen(row_key_hash(seed, round_id, row), str_key_hash(key))
}

/// The rows generated at row `row`, newest first, and the wall width after them. Outside the
/// lobby a quarter of the rows start an obstacle section: half of those are roads of one to
/// five lanes each way, the others rivers of two to four lanes flowing one way. Every other row
/// is a path whose walls move by at most one step within one to six tiles; outside the lobby a
/// quarter of them hold bushes.
#[verifier::opaque]
pub open spec fn gen_step(seed: u32, round_id: u8, wall: i32, row: u32) -> (Seq<Row>, i32) {
    let g = |key: Seq<char>| row_gen(seed, round_id, row, key);
    if seed != 0 && unit_below(g("gen_feature"@), 250_000) {
        if unit_below(g("feature_type"@), 500_000) {
            let lanes = seq![1u32, 2, 3, 4, 5][spec_choice_index(g("road_lanes"@), 5)];
            let dir = seq![true, false][spec_choice_index(g("road_initial_direction"@), 2)];
            (obstacle_rows(row + lanes, lanes as int, false, seed, !dir) + obstacle_rows(row as int, lanes as int, false, seed, dir), wall)
        } else {
            let lanes = seq![2u32, 2, 3, 4][spec_choice_index(g("river_lanes"@), 4)];
            let dir = seq![true, false][spec_choice_index(g("river_direction"@), 2)];
            (obstacle_rows(row as int, lanes as int, true, seed, dir), wall)
        }
    } else {
        let delta = seq![-1i32, -1i32, 0i32, 0i32, 0i32, 0i32, 1i32, 1i32, 1i32][spec_choice_index(g("wall_width"@), 9)];
        let w = clamp_wall(wall + delta);
        let path_descr = PathDescr { wall_width: w as u32 };
        if seed != 0 && unit_below(g("gen_bushes"@), 250_000) {
            (seq![Row { row_id: RowId(row), row_type: RowType::Bushes(BushDescr { path_descr, seed: g("bush_seed"@) as u32, y: RowId(row).spec_to_y() }) }], w)
        } else {
            (seq![Row { row_id: RowId(row), row_type: RowType::Path(path_descr) }], w)
        }
    }
}

pub open spec fn remaining(next: int, target: int) -> nat {
    if next <= target {
        (target + 1 - next) as nat
    } else {
        0
    }
}

/// The rows generated from row `next` up to and including row `target`, newest first, and the
/// wall width after them.
pub open spec fn gen_rows(seed: u32, round_id: u8, wall: i32, next: int, target: int) -> (Seq<Row>, i32)
    decreases remaining(next, target),
{
    if next > target {
        (Seq::empty(), wall)
    } else {
        let (a, w) = gen_step(seed, round_id, wall, next as u32);
        if a.len() == 0 {
            (a, w)
        } else {
            let (b, w2) = gen_rows(seed, round_id, w, next + a.len(), target);
            (b + a, w2)
        }
    }
}

/// Row ids fall by one from the front down to row 0.
pub open spec fn contiguous(rows: Seq<Row>) -> bool {
    rows.len() > 0 ==> {
        &&& rows[0].row_id.0 < rows.len()
        &&& forall|i: int| 0 <= i <= rows[0].row_id.0 ==> #[trigger] rows[i].row_id.0 == rows[0].row_id.0 - i
    }
}

/// The id of the newest row, or -1.
pub open spec fn front_id(rows: Seq<Row>) -> int {
    if rows.len() == 0 {
        -1
    } else {
        rows[0].row_id.0 as int
    }
}

/// The rows of one round of the map, generated on demand, newest first.
#[derive(Debug)]
pub struct MapRound {
    seed: u32,
    round_id: u8,
    gen_state_wall_width: i32,
    rows: VecDeque<Row>,
}

impl MapRound {
    #[verifier::type_invariant]
    closed spec fn inv(self) -> bool {
        &&& 0 <= self.gen_state_wall_width <= 6
        &&& contiguous(self.rows@)
    }

    pub closed spec fn spec_seed(&self) -> u32 {
        self.seed
    }

    pub closed spec fn spec_round_id(&self) -> u8 {
        self.round_id
    }

    pub closed spec fn wall(&self) -> i32 {
        self.gen_state_wall_width
    }

    /// The rows generated so far, newest first.
    pub closed spec fn rows_view(&self) -> Seq<Row> {
        self.rows@
    }
}

proof fn lemma_obstacle_ids(first: int, lanes: int, river: bool, seed: u32, inverted: bool)
    requires
        0 <= first,
        0 <= lanes,
        first + lanes <= u32::MAX,
    ensures
        obstacle_rows(first, lanes, river, seed, inverted).len() == lanes,
        forall|t: int| 0 <= t < lanes ==> #[trigger] obstacle_rows(first, lanes, river, seed, inverted)[t].row_id.0 == first + lanes - 1 - t,
{
}

proof fn lemma_road_ids(row: int, lanes: int, seed: u32, dir: bool)
    requires
        0 <= row < 0x7fff_fff0,
        1 <= lanes <= 5,
    ensures
        ({
            let a = obstacle_rows(row + lanes, lanes, false, seed, !dir) + obstacle_rows(row, lanes, false, seed, dir);
            &&& a.len() == 2 * lanes
            &&& forall|i: int| 0 <= i < a.len() ==> #[trigger] a[i].row_id.0 == row + a.len() - 1 - i
        }),
{
    lemma_obstacle_ids(row + lanes, lanes, false, seed, !dir);
    lemma_obstacle_ids(row, lanes, false, seed, dir);
    let a = obstacle_rows(row + lanes, lanes, false, seed, !dir) + obstacle_rows(row, lanes, false, seed, dir);
    assert forall|i: int| 0 <= i < a.len() implies #[trigger] a[i].row_id.0 == row + a.len() - 1 - i by {
        if i >= lanes {
            assert(a[i] == obstacle_rows(row, lanes, false, seed, dir)[i - lanes]);
        }
    }
}

proof fn lemma_gen_step_ids(seed: u32, round_id: u8, wall: i32, row: u32)
    requires
        row < 0x7fff_fff0,
        0 <= wall <= 6,
    ensures
        ({
            let (a, w) = gen_step(seed, round_id, wall, row);
            &&& 1 <= a.len() <= 10
            &&& 0 <= w <= 6
            &&& forall|i: int| 0 <= i < a.len() ==> #[trigger] a[i].row_id.0 == row + a.len() - 1 - i
        }),
{
    reveal(gen_step);
    let feature = seed != 0 && unit_below(row_gen(seed, round_id, row, "gen_feature"@), 250_000);
    let road = unit_below(row_gen(seed, round_id, row, "feature_type"@), 500_000);
    if feature && road {
        let i1 = spec_choice_index(row_gen(seed, round_id, row, "road_lanes"@), 5);
        let lanes = seq![1u32, 2, 3, 4, 5][i1];
        let dir = seq![true, false][spec_choice_index(row_gen(seed, round_id, row, "road_initial_direction"@), 2)];
        assert(0 <= i1 < 5);
        assert(1 <= lanes <= 5);
        assert(gen_step(seed, round_id, wall, row) == (obstacle_rows(row + lanes, lanes as int, false, seed, !dir) + obstacle_rows(row as int, lanes as int, false, seed, dir), wall));
        lemma_road_ids(row as int, lanes as int, seed, dir);
    } else if feature {
        let i2 = spec_choice_index(row_gen(seed, round_id, row, "river_lanes"@), 4);
        let lanes = seq![2u32, 2, 3, 4][i2];
        let dir = seq![true, false][spec_choice_index(row_gen(seed, round_id, row, "river_direction"@), 2)];
        assert(0 <= i2 < 4);
        assert(2 <= lanes <= 4);
        assert(gen_step(seed, round_id, wall, row) == (obstacle_rows(row as int, lanes as int, true, seed, dir), wall));
        lemma_obstacle_ids(row as int, lanes as int, true, seed, dir);
    } else {
        let j = spec_choice_index(row_gen(seed, round_id, row, "wall_width"@), 9);
        assert(0 <= j < 9);
    }
}

/// Pushes the obstacle rows `first .. first + lanes` in ascending order.
fn push_obstacle_rows(rows: &mut VecDeque<Row>, first: u32, lanes: u32, river: bool, seed: u32, inverted: bool)
    requires
        first + lanes <= u32::MAX,
    ensures
        final(rows)@ == obstacle_rows(first as int, lanes as int, river, seed, inverted) + old(rows)@,
{
    let ghost old_rows = rows@;
    let mut i: u32 = 0;
    while i < lanes
        invariant
            i <= lanes,
            first + lanes <= u32::MAX,
            rows@ == obstacle_rows(first as int, i as int, river, seed, inverted) + old_rows,
        decreases lanes - i,
    {
        let rid = RowId(first + i);
        let descr = ObstacleRowDescr { seed, inverted };
        let row_type = if river {
            RowType::River(descr)
        } else {
            RowType::Road(descr)
        };
        rows.push_front(Row { row_id: rid, row_type });
        proof {
            assert(obstacle_rows(first as int, i + 1, river, seed, inverted) =~= seq![Row { row_id: rid, row_type }] + obstacle_rows(
                first as int,
                i as int,
                river,
                seed,
                inverted,
            ));
        }
        i += 1;
    }
}

/// Pushes the rows generated at `row_id` in ascending order, and moves the wall width on.
fn generate_row(seed: u32, round_id: u8, wall: &mut i32, rows: &mut VecDeque<Row>, row_id: RowId)
    requires
        row_id.0 < 0x7fff_fff0,
        0 <= *old(wall) <= 6,
    ensures
        final(rows)@ == gen_step(seed, round_id, *old(wall), row_id.0).0 + old(rows)@,
        *final(wall) == gen_step(seed, round_id, *old(wall), row_id.0).1,
{
    let ghost g = |key: Seq<char>| row_gen(seed, round_id, row_id.0, key);
    proof {
        reveal(gen_step);
    }
    let rng = row_rand(seed, round_id, row_id);
    if seed != 0 && unit_below_exec(gen_str(rng, "gen_feature"), 250_000) {
        if unit_below_exec(gen_str(rng, "feature_type"), 500_000) {
            let lanes = choose_str(rng, "road_lanes", &[1u32, 2, 3, 4, 5]);
            let initial_direction = choose_str(rng, "road_initial_direction", &[true, false]);
            proof {
                assert(lanes == seq![1u32, 2, 3, 4, 5][spec_choice_index(g("road_lanes"@), 5)]);
                assert(initial_direction == seq![true, false][spec_choice_index(g("road_initial_direction"@), 2)]);
                let i1 = spec_choice_index(g("road_lanes"@), 5);
                assert(0 <= i1 < 5);
                assert(lanes <= 5);
            }
            push_obstacle_rows(rows, row_id.0, lanes, false, seed, initial_direction);
            push_obstacle_rows(rows, row_id.0 + lanes, lanes, false, seed, !initial_direction);
        } else {
            let lanes = choose_str(rng, "river_lanes", &[2u32, 2, 3, 4]);
            let river_direction = choose_str(rng, "river_direction", &[true, false]);
            proof {
                assert(lanes == seq![2u32, 2, 3, 4][spec_choice_index(g("river_lanes"@), 4)]);
                assert(river_direction == seq![true, false][spec_choice_index(g("river_direction"@), 2)]);
                let i2 = spec_choice_index(g("river_lanes"@), 4);
                assert(0 <= i2 < 4);
            }
            push_obstacle_rows(rows, row_id.0, lanes, true, seed, river_direction);
        }
    } else {
        let delta = choose_str(rng, "wall_width", &[-1i32, -1, 0, 0, 0, 0, 1, 1, 1]);
        proof {
            assert(delta == seq![-1i32, -1i32, 0i32, 0i32, 0i32, 0i32, 1i32, 1i32, 1i32][spec_choice_index(g("wall_width"@), 9)]);
            let j = spec_choice_index(g("wall_width"@), 9);
            assert(0 <= j < 9);
        }
        let new_wall_width = *wall + delta;
        *wall = if new_wall_width > 6 {
            6
        } else if new_wall_width < 1 {
            1
        } else {
            new_wall_width
        };
        let path_descr = PathDescr { wall_width: *wall as u32 };
        if seed != 0 && unit_below_exec(gen_str(rng, "gen_bushes"), 250_000) {
            let bush_seed = gen_str(rng, "bush_seed") as u32;
            rows.push_front(Row {
                row_id,
                row_type: RowType::Bushes(BushDescr { path_descr, seed: bush_seed, y: row_id.to_y() }),
            });
        } else {
            rows.push_front(Row { row_id, row_type: RowType::Path(path_descr) });
        }
    }
}

fn unit_below_exec(g: u64, millionths: u64) -> (r: bool)
    ensures
        r == unit_below(g, millionths),
{
    g % 1_000_000 < millionths
}


proof fn lemma_push_contiguous(rows: Seq<Row>, a: Seq<Row>, next: int)
    requires
        contiguous(rows),
        front_id(rows) + 1 == next,
        a.len() >= 1,
        forall|i: int| 0 <= i < a.len() ==> #[trigger] a[i].row_id.0 == next + a.len() - 1 - i,
    ensures
        contiguous(a + rows),
        front_id(a + rows) == next + a.len() - 1,
{
    let r = a + rows;
    assert(r[0] == a[0]);
    assert forall|i: int| 0 <= i <= r[0].row_id.0 implies #[trigger] r[i].row_id.0 == r[0].row_id.0 - i by {
        if i >= a.len() {
            assert(r[i] == rows[i - a.len()]);
        } else {
            assert(r[i] == a[i]);
        }
    }
}

proof fn lemma_gen_rows_unfold(seed: u32, round_id: u8, wall: i32, next: int, target: int)
    requires
        0 <= next <= target < 0x7fff_fff0,
        0 <= wall <= 6,
    ensures
        ({
            let (a, w) = gen_step(seed, round_id, wall, next as u32);
            &&& gen_rows(seed, round_id, wall, next, target).0 == gen_rows(seed, round_id, w, next + a.len(), target).0 + a
            &&& gen_rows(seed, round_id, wall, next, target).1 == gen_rows(seed, round_id, w, next + a.len(), target).1
        }),
{
    lemma_gen_step_ids(seed, round_id, wall, next as u32);
}

/// The starting rows of every round, newest first: the starting barrier on row 8 over the
/// stands on rows 7 down to 0, over twelve plain paths that the stands hide.
pub open spec fn initial_rows() -> Seq<Row> {
    seq![Row { row_id: RowId(8), row_type: RowType::StartingBarrier() }]
        + Seq::new(8, |i: int| Row { row_id: RowId((7 - i) as u32), row_type: RowType::Stands() })
        + Seq::new(12, |i: int| Row { row_id: RowId((11 - i) as u32), row_type: RowType::Path(PathDescr { wall_width: 0 }) })
}

impl MapRound {
    pub fn new(seed: u32, round_id: u8) -> (r: Self)
        ensures
            r.spec_seed() == seed,
            r.spec_round_id() == round_id,
            r.wall() == 0,
            r.rows_view() == initial_rows(),
    {
        let mut rows: VecDeque<Row> = VecDeque::with_capacity(64);
        let mut i: u32 = 0;
        while i < 12
            invariant
                i <= 12,
                rows@ == Seq::new(i as nat, |k: int| Row { row_id: RowId((i - 1 - k) as u32), row_type: RowType::Path(PathDescr { wall_width: 0 }) }),
            decreases 12 - i,
        {
            let ghost before = rows@;
            rows.push_front(Row { row_id: RowId(i), row_type: RowType::Path(PathDescr { wall_width: 0 }) });
            proof {
                assert(rows@ =~= Seq::new((i + 1) as nat, |k: int| Row { row_id: RowId((i + 1 - 1 - k) as u32), row_type: RowType::Path(PathDescr { wall_width: 0 }) }));
            }
            i += 1;
        }
        let mut round = MapRound { seed, round_id, gen_state_wall_width: 0, rows };
        round.initial_generate();
        round
    }

    fn initial_generate(&mut self)
        requires
            old(self).rows_view() == Seq::new(12, |k: int| Row { row_id: RowId((11 - k) as u32), row_type: RowType::Path(PathDescr { wall_width: 0 }) }),
        ensures
            final(self).rows_view() == initial_rows(),
            final(self).spec_seed() == old(self).spec_seed(),
            final(self).spec_round_id() == old(self).spec_round_id(),
            final(self).wall() == old(self).wall(),
    {
        proof { use_type_invariant(&*self); }
        let ghost paths = self.rows@;
        let mut rows: VecDeque<Row> = VecDeque::new();
        std::mem::swap(&mut rows, &mut self.rows);
        let mut i: u32 = 0;
        while i < 8
            invariant
                i <= 8,
                rows@ == Seq::new(i as nat, |k: int| Row { row_id: RowId((i - 1 - k) as u32), row_type: RowType::Stands() }) + paths,
            decreases 8 - i,
        {
            rows.push_front(Row { row_id: RowId(i), row_type: RowType::Stands() });
            proof {
                assert(Seq::new((i + 1) as nat, |k: int| Row { row_id: RowId((i + 1 - 1 - k) as u32), row_type: RowType::Stands() })
                    =~= seq![Row { row_id: RowId(i), row_type: RowType::Stands() }] + Seq::new(i as nat, |k: int| Row { row_id: RowId((i - 1 - k) as u32), row_type: RowType::Stands() }));
            }
            i += 1;
        }
        rows.push_front(Row { row_id: RowId(8), row_type: RowType::StartingBarrier() });
        proof {
            assert(Seq::new(8, |k: int| Row { row_id: RowId((8 - 1 - k) as u32), row_type: RowType::Stands() })
                =~= Seq::new(8, |i: int| Row { row_id: RowId((7 - i) as u32), row_type: RowType::Stands() }));
            assert(rows@ =~= initial_rows());
        }
        self.rows = rows;
    }

    /// Generates rows until row `row_id_target` exists.
    pub fn generate_to_y(&mut self, row_id_target: RowId)
        requires
            row_id_target.0 < 0x7fff_fff0,
        ensures
            final(self).spec_seed() == old(self).spec_seed(),
            final(self).spec_round_id() == old(self).spec_round_id(),
            final(self).rows_view() == gen_rows(
                old(self).spec_seed(),
                old(self).spec_round_id(),
                old(self).wall(),
                front_id(old(self).rows_view()) + 1,
                row_id_target.0 as int,
            ).0 + old(self).rows_view(),
            final(self).wall() == gen_rows(
                old(self).spec_seed(),
                old(self).spec_round_id(),
                old(self).wall(),
                front_id(old(self).rows_view()) + 1,
                row_id_target.0 as int,
            ).1,
            front_id(final(self).rows_view()) >= row_id_target.0,
    {
        proof { use_type_invariant(&*self); }
        let seed = self.seed;
        let round_id = self.round_id;
        let mut rows: VecDeque<Row> = VecDeque::new();
        std::mem::swap(&mut rows, &mut self.rows);
        let mut wall = self.gen_state_wall_width;
        let ghost old_rows = rows@;
        let ghost w0 = wall;
        let ghost n0 = front_id(old_rows) + 1;
        let ghost target = row_id_target.0 as int;
        let ghost mut done: Seq<Row> = Seq::empty();
        while rows.len() == 0 || row_id_target.0 > rows[0].row_id.0
            invariant
                contiguous(rows@),
                0 <= wall <= 6,
                n0 == front_id(old_rows) + 1,
                target == row_id_target.0,
                target < 0x7fff_fff0,
                rows@ == done + old_rows,
                front_id(rows@) >= front_id(old_rows),
                gen_rows(seed, round_id, w0, n0, target).0 == gen_rows(seed, round_id, wall, front_id(rows@) + 1, target).0 + done,
                gen_rows(seed, round_id, w0, n0, target).1 == gen_rows(seed, round_id, wall, front_id(rows@) + 1, target).1,
            decreases remaining(front_id(rows@) + 1, target),
        {
            let next = if rows.len() == 0 {
                0
            } else {
                rows[0].row_id.0 + 1
            };
            let row_id = RowId(next);
            let ghost rows_before = rows@;
            let ghost wall_before = wall;
            proof {
                lemma_gen_step_ids(seed, round_id, wall, next);
            }
            generate_row(seed, round_id, &mut wall, &mut rows, row_id);
            proof {
                let a = gen_step(seed, round_id, wall_before, next).0;
                lemma_push_contiguous(rows_before, a, next as int);
                lemma_gen_rows_unfold(seed, round_id, wall_before, next as int, target);
                done = a + done;
                assert(rows@ =~= done + old_rows);
            }
        }
        self.gen_state_wall_width = wall;
        self.rows = rows;
    }

    /// The row `row_id`, generating the map up to it first.
    pub fn get_row(&mut self, row_id: RowId) -> (r: Row)
        requires
            row_id.0 < 0x7fff_fff0,
        ensures
            final(self).spec_seed() == old(self).spec_seed(),
            final(self).spec_round_id() == old(self).spec_round_id(),
            final(self).rows_view() == gen_rows(
                old(self).spec_seed(),
                old(self).spec_round_id(),
                old(self).wall(),
                front_id(old(self).rows_view()) + 1,
                row_id.0 as int,
            ).0 + old(self).rows_view(),
            final(self).wall() == gen_rows(
                old(self).spec_seed(),
                old(self).spec_round_id(),
                old(self).wall(),
                front_id(old(self).rows_view()) + 1,
                row_id.0 as int,
            ).1,
            r == final(self).rows_view()[front_id(final(self).rows_view()) - row_id.0],
            r.row_id == row_id,
    {
        let need_to_generate = if self.rows.len() == 0 {
            true
        } else {
            row_id.0 > self.rows[0].row_id.0
        };
        if need_to_generate {
            self.generate_to_y(row_id);
        } else {
            proof {
                assert(gen_rows(self.seed, self.round_id, self.gen_state_wall_width, front_id(self.rows@) + 1, row_id.0 as int).0 =~= Seq::<Row>::empty());
            }
        }
        self.get_row_unchecked(row_id)
    }

    fn get_row_unchecked(&self, row_id: RowId) -> (r: Row)
        requires
            front_id(self.rows_view()) >= row_id.0,
        ensures
            r == self.rows_view()[front_id(self.rows_view()) - row_id.0],
            r.row_id == row_id,
    {
        proof { use_type_invariant(self); }
        let head_row_id = self.rows[0].row_id;
        let diff = head_row_id.0 - row_id.0;
        proof {
            assert(self.rows@[diff as int].row_id.0 == head_row_id.0 - diff);
        }
        self.rows[diff as usize]
    }
}


/// `r` is a round as it starts: its seed and number, and only the starting rows.
pub open spec fn fresh_round(r: MapRound, seed: u32, round_id: u8) -> bool {
    &&& r.spec_seed() == seed
    &&& r.spec_round_id() == round_id
    &&& r.wall() == 0
    &&& r.rows_view() == initial_rows()
}

/// The rounds of one map, made on demand.
#[derive(Debug)]
pub struct MapInner {
    seed: u32,
    rounds: Vec<MapRound>,
}

impl MapInner {
    pub closed spec fn spec_seed(&self) -> u32 {
        self.seed
    }

    pub closed spec fn rounds_view(&self) -> Seq<MapRound> {
        self.rounds@
    }

    /// A map whose first round, the lobby, always has seed 0.
    pub fn new(seed: u32) -> (r: Self)
        ensures
            r.spec_seed() == seed,
            r.rounds_view().len() == 1,
            fresh_round(r.rounds_view()[0], 0, 0),
    {
        let mut rounds: Vec<MapRound> = Vec::with_capacity(8);
        rounds.push(MapRound::new(0, 0));
        MapInner { seed, rounds }
    }

    /// Makes the rounds up to round `i`.
    fn gen_to(&mut self, i: usize)
        requires
            i < 256,
        ensures
            final(self).spec_seed() == old(self).spec_seed(),
            final(self).rounds_view().len() == if i < old(self).rounds_view().len() {
                old(self).rounds_view().len() as int
            } else {
                i + 1
            },
            forall|k: int| 0 <= k < old(self).rounds_view().len() ==> #[trigger] final(self).rounds_view()[k] == old(self).rounds_view()[k],
            forall|k: int| old(self).rounds_view().len() <= k < final(self).rounds_view().len() ==> fresh_round(
                #[trigger] final(self).rounds_view()[k],
                old(self).spec_seed(),
                k as u8,
            ),
    {
        let ghost old_rounds = self.rounds@;
        while i >= self.rounds.len()
            invariant
                i < 256,
                self.seed == old(self).seed,
                old_rounds == old(self).rounds@,
                old_rounds.len() <= self.rounds@.len() <= if i < old_rounds.len() {
                    old_rounds.len() as int
                } else {
                    i + 1
                },
                forall|k: int| 0 <= k < old_rounds.len() ==> #[trigger] self.rounds@[k] == old_rounds[k],
                forall|k: int| old_rounds.len() <= k < self.rounds@.len() ==> fresh_round(#[trigger] self.rounds@[k], self.seed, k as u8),
            decreases i + 1 - self.rounds.len(),
        {
            let rid = self.rounds.len() as u8;
            let round = MapRound::new(self.seed, rid);
            self.rounds.push(round);
        }
    }

    /// Round `round_id`, made first if need be.
    pub fn get_mut(&mut self, round_id: u8) -> (r: &mut MapRound)
        ensures
            final(self).spec_seed() == old(self).spec_seed(),
            final(self).rounds_view().len() == if (round_id as int) < old(self).rounds_view().len() {
                old(self).rounds_view().len() as int
            } else {
                round_id + 1
            },
            forall|k: int| 0 <= k < old(self).rounds_view().len() && k != round_id ==> #[trigger] final(self).rounds_view()[k] == old(self).rounds_view()[k],
            forall|k: int| old(self).rounds_view().len() <= k < final(self).rounds_view().len() && k != round_id ==> fresh_round(
                #[trigger] final(self).rounds_view()[k],
                old(self).spec_seed(),
                k as u8,
            ),
            (round_id as int) < old(self).rounds_view().len() ==> *r == old(self).rounds_view()[round_id as int],
            (round_id as int) >= old(self).rounds_view().len() ==> fresh_round(*r, old(self).spec_seed(), round_id),
            final(self).rounds_view()[round_id as int] == *final(r),
    {
        let i = round_id as usize;
        self.gen_to(i);
        &mut self.rounds[i]
    }
}


/// A road section comes as two halves of equal width whose lanes flow opposite ways: every
/// row of the section is a road, the rows of each half share their direction, and the upper
/// half flows against the lower one.
pub proof fn law_roads_flow_both_ways(seed: u32, round_id: u8, wall: i32, row: u32)
    ensures
        ({
            let a = gen_step(seed, round_id, wall, row).0;
            let half = a.len() / 2;
            (a.len() > 0 && a[a.len() - 1].row_type is Road) ==> {
                &&& a.len() == 2 * half
                &&& 1 <= half <= 5
                &&& forall|i: int| 0 <= i < a.len() ==> (#[trigger] a[i]).row_type is Road
                &&& forall|i: int| 0 <= i < half ==> (#[trigger] a[i]).row_type->Road_0.inverted == a[0].row_type->Road_0.inverted
                &&& forall|i: int| half <= i < a.len() ==> (#[trigger] a[i]).row_type->Road_0.inverted == a[a.len() - 1].row_type->Road_0.inverted
                &&& a[0].row_type->Road_0.inverted != a[a.len() - 1].row_type->Road_0.inverted
            }
        }),
{
    reveal(gen_step);
    let g = |key: Seq<char>| row_gen(seed, round_id, row, key);
    let a = gen_step(seed, round_id, wall, row).0;
    if seed != 0 && unit_below(g("gen_feature"@), 250_000) && unit_below(g("feature_type"@), 500_000) {
        let k = spec_choice_index(g("road_lanes"@), 5);
        assert(0 <= k < 5);
        let lanes = seq![1u32, 2, 3, 4, 5][k];
        let dir = seq![true, false][spec_choice_index(g("road_initial_direction"@), 2)];
        let up = obstacle_rows(row + lanes, lanes as int, false, seed, !dir);
        let down = obstacle_rows(row as int, lanes as int, false, seed, dir);
        assert(a == up + down);
        assert(1 <= lanes <= 5);
        assert forall|i: int| 0 <= i < a.len() implies (#[trigger] a[i]).row_type is Road by {
            if i < lanes {
                assert(a[i] == up[i]);
            } else {
                assert(a[i] == down[i - lanes]);
            }
        }
        assert(a[0] == up[0]);
        assert(a[a.len() - 1] == down[lanes - 1]);
        assert(up[0].row_type->Road_0.inverted == !dir);
        assert(down[lanes - 1].row_type->Road_0.inverted == dir);
    } else if seed != 0 && unit_below(g("gen_feature"@), 250_000) {
        let k = spec_choice_index(g("river_lanes"@), 4);
        assert(0 <= k < 4);
        let lanes = seq![2u32, 2, 3, 4][k];
        let dir = seq![true, false][spec_choice_index(g("river_direction"@), 2)];
        assert(a == obstacle_rows(row as int, lanes as int, true, seed, dir));
        assert(a[a.len() - 1].row_type is River);
    }
}

/// The row of a screen coordinate lies at that coordinate.
pub proof fn law_row_id_roundtrip(y: i32)
    requires
        y >= SCREEN_SIZE - i32::MAX,
    ensures
        (RowId::spec_from_y(y).0 as i32) >= SCREEN_SIZE - i32::MAX,
        RowId::spec_from_y(y).spec_to_y() == y,
{
    let v = (20 - y) as u32;
    assert(v as i32 == 20 - y && (20 - (v as i32)) as i32 == y) by (bit_vector)
        requires
            v == (20 - y) as u32,
            y >= 20 - 0x7fff_ffffi32,
    ;
}

/// Generating the rows up to `a` and then on up to `b` gives the rows and the wall width that
/// generating up to `b` at once gives: rows do not depend on how far ahead they were asked for.
pub proof fn law_generation_is_stable(seed: u32, round_id: u8, wall: i32, next: int, a: int, b: int)
    requires
        0 <= next,
        a <= b < 0x7fff_fff0,
        0 <= wall <= 6,
    ensures
        ({
            let (x, w1) = gen_rows(seed, round_id, wall, next, a);
            &&& gen_rows(seed, round_id, w1, next + x.len(), b).0 + x == gen_rows(seed, round_id, wall, next, b).0
            &&& gen_rows(seed, round_id, w1, next + x.len(), b).1 == gen_rows(seed, round_id, wall, next, b).1
        }),
    decreases remaining(next, a),
{
    if next <= a {
        lemma_gen_step_ids(seed, round_id, wall, next as u32);
        let (a0, w) = gen_step(seed, round_id, wall, next as u32);
        law_generation_is_stable(seed, round_id, w, next + a0.len(), a, b);
        let (x1, w1) = gen_rows(seed, round_id, w, next + a0.len(), a);
        assert(gen_rows(seed, round_id, wall, next, a) == (x1 + a0, w1));
        assert(gen_rows(seed, round_id, w1, next + a0.len() + x1.len(), b).0 + (x1 + a0) =~= (gen_rows(
            seed,
            round_id,
            w1,
            next + a0.len() + x1.len(),
            b,
        ).0 + x1) + a0);
        assert(next + (x1 + a0).len() == next + a0.len() + x1.len());
    }
}

} // verus!
