use vstd::prelude::*;
use std::collections::BTreeSet;
use crate::bitmap::BitMap;
use crate::game::{CoordPos, Input};

verus! {

broadcast use {vstd::std_specs::btree::group_btree_axioms, vstd::seq_lib::lemma_seq_contains_after_push};

/// The blocks of an icy section: one bit row per line, with walls of `wall_width` on both sides.
pub struct BlockMap {
    pub inner: Vec<BitMap>,
    pub full_width: i32,
    pub wall_width: i32,
}

/// `x` moved `k` steps in direction `d`.
pub open spec fn sx(x: int, d: Input, k: int) -> int {
    match d {
        Input::Left => x - k,
        Input::Right => x + k,
        _ => x,
    }
}

/// `y` moved `k` steps in direction `d`; up is towards smaller `y`.
pub open spec fn sy(y: int, d: Input, k: int) -> int {
    match d {
        Input::Up => y - k,
        Input::Down => y + k,
        _ => y,
    }
}

impl BlockMap {
    /// Sizes the lookups can rely on.
    pub open spec fn wf(&self) -> bool {
        &&& 0 <= self.wall_width
        &&& 0 <= self.full_width <= 64
        &&& self.inner@.len() <= i32::MAX
    }

    pub open spec fn spec_height(&self) -> int {
        self.inner@.len() as int
    }

    /// Inside the walls and between the first and the last line.
    pub open spec fn spec_in_bounds(&self, x: int, y: int) -> bool {
        &&& x > self.wall_width
        &&& x < self.full_width - 1 - self.wall_width
        &&& 0 <= y < self.spec_height()
    }

    /// A cell that cannot be entered: a block, a wall, or outside the section.
    pub open spec fn blocked(&self, x: int, y: int) -> bool {
        !self.spec_in_bounds(x, y) || self.inner@[y].spec_get(x)
    }

    pub fn set(&mut self, pos: CoordPos, val: bool)
        requires
            0 <= pos.y < old(self).inner@.len(),
            0 <= pos.x < 64,
        ensures
            final(self).full_width == old(self).full_width,
            final(self).wall_width == old(self).wall_width,
            final(self).inner@.len() == old(self).inner@.len(),
            final(self).inner@[pos.y as int].spec_get(pos.x as int) == val,
            forall|x: int| 0 <= x < 64 && x != pos.x ==> #[trigger] final(self).inner@[pos.y as int].spec_get(x)
                == old(self).inner@[pos.y as int].spec_get(x),
            forall|y: int| 0 <= y < old(self).inner@.len() && y != pos.y ==> #[trigger] final(self).inner@[y]
                == old(self).inner@[y],
    {
        let mut row = self.inner[pos.y as usize];
        row.set(pos.x, val);
        self.inner.set(pos.y as usize, row);
    }

    fn in_bounds(&self, pos: CoordPos) -> (r: bool)
        requires
            self.wf(),
        ensures
            r == self.spec_in_bounds(pos.x as int, pos.y as int),
    {
        pos.x > self.wall_width && pos.x < self.full_width - 1 - self.wall_width && pos.y >= 0
            && pos.y < self.height()
    }

    pub fn get(&self, pos: CoordPos) -> (r: bool)
        requires
            self.wf(),
        ensures
            r == self.blocked(pos.x as int, pos.y as int),
    {
        if !self.in_bounds(pos) {
            return true;
        }
        self.inner[pos.y as usize].get(pos.x)
    }

    pub fn height(&self) -> (r: i32)
        requires
            self.wf(),
        ensures
            r == self.spec_height(),
    {
        self.inner.len() as i32
    }
}

/// A resting point of the sliding search: a cell, and the direction of the slide that stops there.
#[derive(Debug, Clone, Copy, PartialEq, Eq, Structural)]
pub struct PosWithDir {
    pub pos: CoordPos,
    pub dir: Input,
}

pub open spec fn dir_index(d: Input) -> int {
    match d {
        Input::Up => 0,
        Input::Down => 1,
        Input::Left => 2,
        Input::Right => 3,
        Input::Idle => 0,
    }
}

/// The integer key of a resting point on a field 20 cells wide.
pub open spec fn spec_to_i32(p: PosWithDir) -> int {
    dir_index(p.dir) + (p.pos.x + p.pos.y * 20) * 4
}

impl PosWithDir {
    /// A resting point of the field whose key fits in an `i32`.
    pub open spec fn encodable(self) -> bool {
        &&& self.dir != Input::Idle
        &&& 0 <= self.pos.x < 20
        &&& 0 <= self.pos.y
        &&& spec_to_i32(self) <= i32::MAX
    }

    /// The key of the resting point; each step of the computation stays within `i32`.
    pub fn to_i32(self) -> (r: i32)
        requires
            self.dir != Input::Idle,
            i32::MIN <= self.pos.y * 20 <= i32::MAX,
            i32::MIN <= self.pos.x + self.pos.y * 20 <= i32::MAX,
            i32::MIN <= (self.pos.x + self.pos.y * 20) * 4 <= i32::MAX,
            i32::MIN <= spec_to_i32(self) <= i32::MAX,
        ensures
            r == spec_to_i32(self),
    {
        let dir_i: i32 = match self.dir {
            Input::Up => 0,
            Input::Down => 1,
            Input::Left => 2,
            Input::Right => 3,
            Input::Idle => 0,
        };
        dir_i + (self.pos.x + self.pos.y * 20) * 4
    }

    pub fn from_i32(val: i32) -> (r: Self)
        requires
            val >= 0,
        ensures
            dir_index(r.dir) == val % 4,
            r.dir != Input::Idle,
            r.pos.x == (val / 4) % 20,
            r.pos.y == (val / 4) / 20,
    {
        let dir_i = val % 4;
        let v = val / 4;
        let x = v % 20;
        let y = v / 20;
        let dir = if dir_i == 0 {
            Input::Up
        } else if dir_i == 1 {
            Input::Down
        } else if dir_i == 2 {
            Input::Left
        } else {
            Input::Right
        };
        PosWithDir { pos: CoordPos::new(x, y), dir }
    }
}

/// Keys are equal only for equal resting points.
pub proof fn lemma_to_i32_injective(a: PosWithDir, b: PosWithDir)
    requires
        a.encodable(),
        b.encodable(),
        spec_to_i32(a) == spec_to_i32(b),
    ensures
        a == b,
{
    let da = dir_index(a.dir);
    let db = dir_index(b.dir);
    let ca = a.pos.x + a.pos.y * 20;
    let cb = b.pos.x + b.pos.y * 20;
    assert(da == db && ca == cb) by (nonlinear_arith)
        requires
            0 <= da < 4,
            0 <= db < 4,
            da + ca * 4 == db + cb * 4,
    ;
    assert(a.pos.x == b.pos.x && a.pos.y == b.pos.y) by (nonlinear_arith)
        requires
            0 <= a.pos.x < 20,
            0 <= b.pos.x < 20,
            a.pos.x + a.pos.y * 20 == b.pos.x + b.pos.y * 20,
    ;
}

/// Decoding the key of a resting point gives the resting point back.
pub proof fn lemma_pos_with_dir_roundtrip(p: PosWithDir)
    requires
        p.encodable(),
    ensures
        spec_to_i32(p) % 4 == dir_index(p.dir),
        (spec_to_i32(p) / 4) % 20 == p.pos.x,
        (spec_to_i32(p) / 4) / 20 == p.pos.y,
{
    let d = dir_index(p.dir);
    let c = p.pos.x + p.pos.y * 20;
    assert((d + c * 4) % 4 == d && (d + c * 4) / 4 == c) by (nonlinear_arith)
        requires
            0 <= d < 4,
            c >= 0,
    ;
    assert(c % 20 == p.pos.x && c / 20 == p.pos.y) by (nonlinear_arith)
        requires
            0 <= p.pos.x < 20,
            p.pos.y >= 0,
            c == p.pos.x + p.pos.y * 20,
    ;
}


impl BlockMap {
    /// The cells `1..=k` steps from `(x, y)` in direction `d` can all be entered.
    pub open spec fn free_run(&self, x: int, y: int, d: Input, k: int) -> bool {
        forall|i: int| 1 <= i <= k ==> !#[trigger] self.blocked(sx(x, d, i), sy(y, d, i))
    }

    /// A player leaving the top line: a free cell of the first line, reached sliding up.
    pub open spec fn is_goal(&self, n: PosWithDir) -> bool {
        &&& n.dir == Input::Up
        &&& n.pos.y == 0
        &&& !self.blocked(n.pos.x as int, 0)
    }

    /// `n` is a resting point from which one slide, in the direction of `m`, ends at `m`:
    /// `n` lies on a free line behind `m`, and `n` was reached by a slide at right angles that a
    /// block stopped.
    pub open spec fn is_pred(&self, m: PosWithDir, n: PosWithDir) -> bool {
        let inv = m.dir.spec_invert();
        &&& exists|k: int|
            k >= 1 && #[trigger] self.free_run(m.pos.x as int, m.pos.y as int, inv, k) && n.pos.x == sx(
                m.pos.x as int,
                inv,
                k,
            ) && n.pos.y == sy(m.pos.y as int, inv, k)
        &&& (n.dir == inv.spec_orthogonal() || n.dir == inv.spec_orthogonal().spec_invert())
        &&& self.blocked(sx(n.pos.x as int, n.dir, 1), sy(n.pos.y as int, n.dir, 1))
    }

    /// `c` is a sequence of resting points from the top back to `n`, each a predecessor of the last.
    pub open spec fn is_chain(&self, c: Seq<PosWithDir>, n: PosWithDir) -> bool {
        &&& c.len() >= 1
        &&& self.is_goal(c[0])
        &&& c.last() == n
        &&& forall|i: int| 0 <= i < c.len() - 1 ==> #[trigger] self.is_pred(c[i], c[i + 1])
    }

    /// `n` leads to the top within `j` slides.
    pub open spec fn within(&self, n: PosWithDir, j: nat) -> bool {
        exists|c: Seq<PosWithDir>| #[trigger] self.is_chain(c, n) && c.len() <= j + 1
    }

    /// A player entering at the bottom line and sliding up comes to rest at `n`.
    pub open spec fn is_start(&self, n: PosWithDir) -> bool {
        &&& n.dir == Input::Up
        &&& exists|k: int|
            k >= 1 && #[trigger] self.free_run(n.pos.x as int, n.pos.y as int, Input::Down, k) && n.pos.y
                + k == self.spec_height() - 1
    }

    /// Some entry from the bottom reaches the top in at most `j + 1` slides.
    pub open spec fn solvable_within(&self, j: nat) -> bool {
        exists|n: PosWithDir| #[trigger] self.within(n, j) && self.is_start(n)
    }
}

proof fn lemma_chain_free(bm: &BlockMap, c: Seq<PosWithDir>, n: PosWithDir)
    requires
        bm.is_chain(c, n),
    ensures
        !bm.blocked(n.pos.x as int, n.pos.y as int),
        n.dir != Input::Idle,
    decreases c.len(),
{
    if c.len() > 1 {
        let m = c[c.len() - 2];
        let c2 = c.drop_last();
        assert forall|i: int| 0 <= i < c2.len() - 1 implies #[trigger] bm.is_pred(c2[i], c2[i + 1]) by {
            assert(bm.is_pred(c[i], c[i + 1]));
        }
        assert(bm.is_chain(c2, m));
        lemma_chain_free(bm, c2, m);
        let li = c.len() - 2;
        assert(bm.is_pred(c[li], c[li + 1]));
        let inv = m.dir.spec_invert();
        let k = choose|k: int|
            k >= 1 && #[trigger] bm.free_run(m.pos.x as int, m.pos.y as int, inv, k) && n.pos.x == sx(
                m.pos.x as int,
                inv,
                k,
            ) && n.pos.y == sy(m.pos.y as int, inv, k);
        assert(!bm.blocked(sx(m.pos.x as int, inv, k), sy(m.pos.y as int, inv, k)));
    }
}

/// Resting points on the search frontier are free cells, with a direction.
proof fn lemma_within_free(bm: &BlockMap, n: PosWithDir, j: nat)
    requires
        bm.within(n, j),
    ensures
        !bm.blocked(n.pos.x as int, n.pos.y as int),
        n.dir != Input::Idle,
{
    let c = choose|c: Seq<PosWithDir>| #[trigger] bm.is_chain(c, n) && c.len() <= j + 1;
    lemma_chain_free(bm, c, n);
}

proof fn lemma_within_mono(bm: &BlockMap, n: PosWithDir, i: nat, j: nat)
    requires
        bm.within(n, i),
        i <= j,
    ensures
        bm.within(n, j),
{
}

proof fn lemma_within_zero(bm: &BlockMap, n: PosWithDir)
    ensures
        bm.within(n, 0) == bm.is_goal(n),
{
    if bm.is_goal(n) {
        assert(bm.is_chain(seq![n], n));
    }
}

/// One more slide reaches exactly the predecessors of what was reached.
proof fn lemma_within_step(bm: &BlockMap, n: PosWithDir, j: nat)
    ensures
        bm.within(n, j + 1) == (bm.within(n, j) || exists|m: PosWithDir| #[trigger] bm.within(m, j) && bm.is_pred(m, n)),
{
    if bm.within(n, j + 1) && !bm.within(n, j) {
        let c = choose|c: Seq<PosWithDir>| #[trigger] bm.is_chain(c, n) && c.len() <= j + 2;
        assert(c.len() == j + 2);
        let m = c[c.len() - 2];
        let c2 = c.drop_last();
        assert forall|i: int| 0 <= i < c2.len() - 1 implies #[trigger] bm.is_pred(c2[i], c2[i + 1]) by {
            assert(bm.is_pred(c[i], c[i + 1]));
        }
        assert(bm.is_chain(c2, m));
        assert(bm.within(m, j));
        assert(bm.is_pred(c[c.len() - 2], c[c.len() - 1]));
    }
    if exists|m: PosWithDir| #[trigger] bm.within(m, j) && bm.is_pred(m, n) {
        let m = choose|m: PosWithDir| #[trigger] bm.within(m, j) && bm.is_pred(m, n);
        let c = choose|c: Seq<PosWithDir>| #[trigger] bm.is_chain(c, m) && c.len() <= j + 1;
        let c2 = c.push(n);
        assert forall|i: int| 0 <= i < c2.len() - 1 implies #[trigger] bm.is_pred(c2[i], c2[i + 1]) by {
            if i < c.len() - 1 {
                assert(bm.is_pred(c[i], c[i + 1]));
            }
        }
        assert(bm.is_chain(c2, n));
    }
}

/// `after` is `before` followed by the `kmax` free cells met sliding backwards from `node`,
/// the next cell being blocked.
pub open spec fn run_appended(
    bm: &BlockMap,
    node: PosWithDir,
    before: Seq<(CoordPos, Input)>,
    after: Seq<(CoordPos, Input)>,
    kmax: int,
) -> bool {
    let inv = node.dir.spec_invert();
    &&& kmax >= 0
    &&& bm.free_run(node.pos.x as int, node.pos.y as int, inv, kmax)
    &&& bm.blocked(sx(node.pos.x as int, inv, kmax + 1), sy(node.pos.y as int, inv, kmax + 1))
    &&& after.len() == before.len() + kmax
    &&& forall|j: int| 0 <= j < before.len() ==> #[trigger] after[j] == before[j]
    &&& forall|j: int|
        0 <= j < kmax ==> (#[trigger] after[before.len() + j]).1 == inv && after[before.len() + j].0.x == sx(
            node.pos.x as int,
            inv,
            j + 1,
        ) && after[before.len() + j].0.y == sy(node.pos.y as int, inv, j + 1)
}

/// Slides backwards from `node` against its direction, appending every free cell passed to
/// `projected`; says whether the slide reaches the bottom line going down.
fn project_node(block_map: &BlockMap, node: PosWithDir, projected: &mut Vec<(CoordPos, Input)>) -> (found: bool)
    requires
        block_map.wf(),
        !block_map.blocked(node.pos.x as int, node.pos.y as int),
        node.dir != Input::Idle,
    ensures
        found == block_map.is_start(node),
        !found ==> exists|kmax: int| #[trigger] run_appended(block_map, node, old(projected)@, final(projected)@, kmax),
{
    let inverted_dir = node.dir.invert();
    let mut pos = node.pos;
    let ghost nx = node.pos.x as int;
    let ghost ny = node.pos.y as int;
    let ghost old_len = projected@.len() as int;
    let ghost mut k: int = 0;
    let h = block_map.height();
    loop
        invariant_except_break
            block_map.wf(),
            h == block_map.spec_height(),
            inverted_dir == node.dir.spec_invert(),
            inverted_dir != Input::Idle,
            nx == node.pos.x,
            ny == node.pos.y,
            old_len == old(projected)@.len(),
            k >= 0,
            pos.x == sx(nx, inverted_dir, k),
            pos.y == sy(ny, inverted_dir, k),
            !block_map.blocked(pos.x as int, pos.y as int),
            block_map.free_run(nx, ny, inverted_dir, k),
            projected@.len() == old_len + k,
            forall|j: int| 0 <= j < old_len ==> #[trigger] projected@[j] == old(projected)@[j],
            forall|j: int|
                0 <= j < k ==> (#[trigger] projected@[old_len + j]).1 == inverted_dir
                    && projected@[old_len + j].0.x == sx(nx, inverted_dir, j + 1)
                    && projected@[old_len + j].0.y == sy(ny, inverted_dir, j + 1),
            forall|j: int| 1 <= j <= k ==> !(inverted_dir == Input::Down && #[trigger] sy(ny, Input::Down, j) == h - 1),
        ensures
            k >= 0,
            block_map.free_run(nx, ny, inverted_dir, k),
            block_map.blocked(sx(nx, inverted_dir, k + 1), sy(ny, inverted_dir, k + 1)),
            projected@.len() == old_len + k,
            forall|j: int| 0 <= j < old_len ==> #[trigger] projected@[j] == old(projected)@[j],
            forall|j: int|
                0 <= j < k ==> (#[trigger] projected@[old_len + j]).1 == inverted_dir
                    && projected@[old_len + j].0.x == sx(nx, inverted_dir, j + 1)
                    && projected@[old_len + j].0.y == sy(ny, inverted_dir, j + 1),
            forall|j: int| 1 <= j <= k ==> !(inverted_dir == Input::Down && #[trigger] sy(ny, Input::Down, j) == h - 1),
        decreases
            match inverted_dir {
                Input::Up => pos.y + 1,
                Input::Down => h - pos.y,
                Input::Left => pos.x + 1,
                Input::Right => 64 - pos.x,
                Input::Idle => 0,
            },
    {
        let next = pos.apply_input(inverted_dir);
        if block_map.get(next) {
            break;
        }
        proof {
            k = k + 1;
            assert forall|i: int| 1 <= i <= k implies !#[trigger] block_map.blocked(sx(nx, inverted_dir, i), sy(ny, inverted_dir, i)) by {
                if i < k {
                    assert(block_map.free_run(nx, ny, inverted_dir, k - 1));
                }
            }
        }
        pos = next;
        if inverted_dir == Input::Down && pos.y == h - 1 {
            proof {
                assert(block_map.free_run(nx, ny, Input::Down, k));
            }
            return true;
        }
        let ghost before = projected@;
        projected.push((pos, inverted_dir));
        proof {
            assert(projected@ == before.push((pos, inverted_dir)));
            assert(before.len() == old_len + k - 1);
            assert forall|j: int| 0 <= j < k implies (#[trigger] projected@[old_len + j]).1 == inverted_dir
                && projected@[old_len + j].0.x == sx(nx, inverted_dir, j + 1)
                && projected@[old_len + j].0.y == sy(ny, inverted_dir, j + 1) by {
                if j < k - 1 {
                    assert(before.push((pos, inverted_dir))[old_len + j] == before[old_len + j]);
                } else {
                    assert(before.push((pos, inverted_dir))[old_len + j] == (pos, inverted_dir));
                }
            }
        }
    }
    proof {
        if block_map.is_start(node) {
            let k0 = choose|k0: int|
                k0 >= 1 && #[trigger] block_map.free_run(nx, ny, Input::Down, k0) && ny + k0 == h - 1;
            if k0 <= k {
                assert(sy(ny, Input::Down, k0) == h - 1);
            } else {
                assert(!block_map.blocked(sx(nx, Input::Down, k + 1), sy(ny, Input::Down, k + 1)));
            }
        }
        assert(run_appended(block_map, node, old(projected)@, projected@, k));
    }
    false
}


/// `e` is a cell met sliding backwards from `m`, with the direction of that backward slide.
pub open spec fn proj_rel(bm: &BlockMap, m: PosWithDir, e: (CoordPos, Input)) -> bool {
    &&& e.1 == m.dir.spec_invert()
    &&& exists|k: int|
        k >= 1 && #[trigger] bm.free_run(m.pos.x as int, m.pos.y as int, e.1, k) && e.0.x == sx(m.pos.x as int, e.1, k)
            && e.0.y == sy(m.pos.y as int, e.1, k)
}

/// `n` rests at the cell of `e` after a slide at right angles to `e` that a block stops.
pub open spec fn gen_from(bm: &BlockMap, e: (CoordPos, Input), n: PosWithDir) -> bool {
    &&& n.pos == e.0
    &&& (n.dir == e.1.spec_orthogonal() || n.dir == e.1.spec_orthogonal().spec_invert())
    &&& bm.blocked(sx(n.pos.x as int, n.dir, 1), sy(n.pos.y as int, n.dir, 1))
}

pub open spec fn generated(bm: &BlockMap, proj: Seq<(CoordPos, Input)>, t: int, n: PosWithDir) -> bool {
    exists|s: int| 0 <= s < t && #[trigger] gen_from(bm, proj[s], n)
}

/// Reached within `level` slides, or generated from the first `t` projected cells.
pub open spec fn known(bm: &BlockMap, proj: Seq<(CoordPos, Input)>, t: int, level: nat, n: PosWithDir) -> bool {
    bm.within(n, level) || generated(bm, proj, t, n)
}

/// The field is narrow and short enough for every free cell to have a distinct key.
pub open spec fn encodable_map(bm: &BlockMap) -> bool {
    &&& bm.wf()
    &&& bm.full_width <= 21
    &&& bm.inner@.len() <= 26_843_545
}

proof fn lemma_free_encodable(bm: &BlockMap, n: PosWithDir)
    requires
        encodable_map(bm),
        !bm.blocked(n.pos.x as int, n.pos.y as int),
        n.dir != Input::Idle,
    ensures
        n.encodable(),
        1 <= n.pos.x <= 19,
{
}

/// Considers resting at `pos` after a slide towards `orth`: when a block stops such a slide,
/// the resting point is recorded unless its key was seen before.
fn consider(
    block_map: &BlockMap,
    pos: CoordPos,
    orth: Input,
    seen: &mut BTreeSet<i32>,
    nodes: &mut Vec<PosWithDir>,
)
    requires
        encodable_map(block_map),
        !block_map.blocked(pos.x as int, pos.y as int),
        orth != Input::Idle,
    ensures
        ({
            let node = PosWithDir { pos, dir: orth };
            if block_map.blocked(sx(pos.x as int, orth, 1), sy(pos.y as int, orth, 1)) {
                &&& final(seen)@ == old(seen)@.insert(spec_to_i32(node) as i32)
                &&& final(nodes)@ == if old(seen)@.contains(spec_to_i32(node) as i32) {
                    old(nodes)@
                } else {
                    old(nodes)@.push(node)
                }
            } else {
                &&& final(seen)@ == old(seen)@
                &&& final(nodes)@ == old(nodes)@
            }
        }),
{
    let one_more = pos.apply_input(orth);
    let collision = block_map.get(one_more);
    if !collision {
        return;
    }
    let node = PosWithDir { pos, dir: orth };
    let key = node.to_i32();
    if !seen.contains(&key) {
        seen.insert(key);
        nodes.push(node);
    } else {
        proof {
            assert(seen@.insert(key) =~= seen@);
        }
    }
}


/// Some resting point within `level` slides has key `c`.
pub open spec fn has_preimage(bm: &BlockMap, level: nat, c: i32) -> bool {
    exists|n: PosWithDir| #[trigger] bm.within(n, level) && spec_to_i32(n) == c
}

/// The resting points that the search has reached: exactly the keys of those within `level` slides.
pub open spec fn seen_ok(bm: &BlockMap, seen: Set<i32>, level: nat) -> bool {
    &&& forall|n: PosWithDir| #[trigger] bm.within(n, level) ==> seen.contains(spec_to_i32(n) as i32)
    &&& forall|c: i32| #[trigger] seen.contains(c) ==> has_preimage(bm, level, c)
}

/// `nodes` holds exactly the resting points first reached after `level` slides.
pub open spec fn frontier_ok(bm: &BlockMap, nodes: Seq<PosWithDir>, level: nat) -> bool {
    &&& forall|n: PosWithDir| #[trigger] nodes.contains(n) ==> bm.within(n, level) && (level == 0 || !bm.within(n, (level - 1) as nat))
    &&& forall|n: PosWithDir| #[trigger] bm.within(n, level) && (level == 0 || !bm.within(n, (level - 1) as nat)) ==> nodes.contains(n)
}

/// `e` is met sliding backwards from one of the first `i` nodes.
pub open spec fn covered(bm: &BlockMap, nodes: Seq<PosWithDir>, i: int, e: (CoordPos, Input)) -> bool {
    exists|idx: int| 0 <= idx < i && #[trigger] proj_rel(bm, nodes[idx], e)
}

/// Every cell of `proj` is met sliding backwards from one of the first `i` nodes.
pub open spec fn sound_upto(bm: &BlockMap, nodes: Seq<PosWithDir>, i: int, proj: Seq<(CoordPos, Input)>) -> bool {
    forall|t: int| 0 <= t < proj.len() ==> #[trigger] covered(bm, nodes, i, proj[t])
}

pub open spec fn appears(proj: Seq<(CoordPos, Input)>, e: (CoordPos, Input)) -> bool {
    exists|t: int| 0 <= t < proj.len() && #[trigger] proj[t] == e
}

/// The cell `k` steps behind node `m`, with the backward direction.
pub open spec fn behind(m: PosWithDir, k: int) -> (CoordPos, Input) {
    (CoordPos {
        x: sx(m.pos.x as int, m.dir.spec_invert(), k) as i32,
        y: sy(m.pos.y as int, m.dir.spec_invert(), k) as i32,
    }, m.dir.spec_invert())
}

/// Every cell met sliding backwards from the first `i` nodes appears in `proj`.
pub open spec fn projection_complete(bm: &BlockMap, nodes: Seq<PosWithDir>, i: int, proj: Seq<(CoordPos, Input)>) -> bool {
    forall|idx: int, k: int|
        0 <= idx < i && k >= 1 && #[trigger] bm.free_run(nodes[idx].pos.x as int, nodes[idx].pos.y as int, nodes[idx].dir.spec_invert(), k)
            ==> appears(proj, behind(nodes[idx], k))
}

/// The free resting points of the first line, with their keys.
fn initial_nodes(bm: &BlockMap) -> (res: (BTreeSet<i32>, Vec<PosWithDir>))
    requires
        encodable_map(bm),
    ensures
        seen_ok(bm, res.0@, 0),
        frontier_ok(bm, res.1@, 0),
{
    let mut seen: BTreeSet<i32> = BTreeSet::new();
    let mut nodes: Vec<PosWithDir> = Vec::with_capacity(64);
    let mut x: i32 = 0;
    while x < bm.full_width
        invariant
            encodable_map(bm),
            0 <= x <= bm.full_width,
            forall|n: PosWithDir| #[trigger] nodes@.contains(n) <==> (bm.is_goal(n) && n.pos.x < x),
            forall|n: PosWithDir| bm.is_goal(n) && n.pos.x < x ==> #[trigger] seen@.contains(spec_to_i32(n) as i32),
            forall|c: i32| #[trigger] seen@.contains(c) ==> exists|n: PosWithDir| #[trigger] bm.is_goal(n) && n.pos.x < x && spec_to_i32(n) == c,
        decreases bm.full_width - x,
    {
        let pos = CoordPos::new(x, 0);
        if bm.get(pos) {
            proof {
                assert forall|n: PosWithDir| #[trigger] nodes@.contains(n) <==> (bm.is_goal(n) && n.pos.x < x + 1) by {
                    if bm.is_goal(n) && n.pos.x == x {
                        assert(n.pos == pos);
                    }
                }
                assert forall|c: i32| #[trigger] seen@.contains(c) implies exists|n: PosWithDir| #[trigger] bm.is_goal(n) && n.pos.x < x + 1 && spec_to_i32(n) == c by {
                    let n = choose|n: PosWithDir| #[trigger] bm.is_goal(n) && n.pos.x < x && spec_to_i32(n) == c;
                }
            }
            x += 1;
            continue;
        }
        let node = PosWithDir { pos, dir: Input::Up };
        let key = node.to_i32();
        seen.insert(key);
        nodes.push(node);
        proof {
            assert(bm.is_goal(node));
            assert forall|n: PosWithDir| #[trigger] nodes@.contains(n) <==> (bm.is_goal(n) && n.pos.x < x + 1) by {
                if bm.is_goal(n) && n.pos.x == x {
                    assert(n == node);
                }
            }
            assert forall|n: PosWithDir| bm.is_goal(n) && n.pos.x < x + 1 implies #[trigger] seen@.contains(spec_to_i32(n) as i32) by {
                if n.pos.x == x {
                    assert(n == node);
                }
            }
            assert forall|c: i32| #[trigger] seen@.contains(c) implies exists|n: PosWithDir| #[trigger] bm.is_goal(n) && n.pos.x < x + 1 && spec_to_i32(n) == c by {
                if c == key {
                    assert(bm.is_goal(node) && node.pos.x < x + 1 && spec_to_i32(node) == c);
                } else {
                    let n = choose|n: PosWithDir| #[trigger] bm.is_goal(n) && n.pos.x < x && spec_to_i32(n) == c;
                }
            }
        }
        x += 1;
    }
    proof {
        assert forall|n: PosWithDir| #[trigger] bm.within(n, 0) == bm.is_goal(n) by {
            lemma_within_zero(bm, n);
        }
        assert forall|n: PosWithDir| bm.is_goal(n) implies n.pos.x < x by {
            assert(!bm.blocked(n.pos.x as int, 0));
        }
        assert forall|c: i32| #[trigger] seen@.contains(c) implies has_preimage(bm, 0, c) by {
            let n = choose|n: PosWithDir| #[trigger] bm.is_goal(n) && n.pos.x < x && spec_to_i32(n) == c;
            assert(bm.within(n, 0));
        }
        assert forall|n: PosWithDir| #[trigger] bm.within(n, 0) implies seen@.contains(spec_to_i32(n) as i32) by {
            assert(bm.is_goal(n));
        }
        assert forall|n: PosWithDir| #[trigger] bm.within(n, 0) implies nodes@.contains(n) by {
            assert(bm.is_goal(n));
        }
    }
    (seen, nodes)
}



proof fn lemma_project_step(
    bm: &BlockMap,
    nodes: Seq<PosWithDir>,
    i: int,
    before: Seq<(CoordPos, Input)>,
    after: Seq<(CoordPos, Input)>,
    kmax: int,
)
    requires
        0 <= i < nodes.len(),
        run_appended(bm, nodes[i], before, after, kmax),
        sound_upto(bm, nodes, i, before),
        projection_complete(bm, nodes, i, before),
    ensures
        sound_upto(bm, nodes, i + 1, after),
        projection_complete(bm, nodes, i + 1, after),
{
    let node = nodes[i];
    let inv = node.dir.spec_invert();
    assert forall|t: int| 0 <= t < after.len() implies #[trigger] covered(bm, nodes, i + 1, after[t]) by {
        if t < before.len() {
            assert(after[t] == before[t]);
            assert(covered(bm, nodes, i, before[t]));
            let idx = choose|idx: int| 0 <= idx < i && #[trigger] proj_rel(bm, nodes[idx], before[t]);
            assert(proj_rel(bm, nodes[idx], after[t]));
        } else {
            let j = t - before.len();
            assert(after[before.len() + j].1 == inv);
            assert(bm.free_run(node.pos.x as int, node.pos.y as int, inv, j + 1));
            assert(proj_rel(bm, nodes[i], after[t]));
        }
    }
    assert forall|idx: int, k: int|
        0 <= idx < i + 1 && k >= 1 && #[trigger] bm.free_run(nodes[idx].pos.x as int, nodes[idx].pos.y as int, nodes[idx].dir.spec_invert(), k)
            implies appears(after, behind(nodes[idx], k)) by {
        if idx < i {
            assert(appears(before, behind(nodes[idx], k)));
            let t = choose|t: int| 0 <= t < before.len() && #[trigger] before[t] == behind(nodes[idx], k);
            assert(after[t] == before[t]);
        } else {
            if k > kmax {
                assert(!bm.blocked(sx(node.pos.x as int, inv, kmax + 1), sy(node.pos.y as int, inv, kmax + 1)));
            }
            let t = before.len() + k - 1;
            assert(after[before.len() + (k - 1)].1 == inv);
            assert(after[t] == behind(nodes[idx], k));
        }
    }
}

/// Slides backwards from every node; reports a node that a slide from the bottom reaches, or
/// else every cell met on the way.
fn project_all(bm: &BlockMap, nodes: &Vec<PosWithDir>, Ghost(level): Ghost<nat>) -> (res: (bool, Vec<(CoordPos, Input)>))
    requires
        encodable_map(bm),
        level <= 7,
        forall|n: PosWithDir| #[trigger] nodes@.contains(n) ==> bm.within(n, level),
    ensures
        res.0 ==> bm.solvable_within(7),
        !res.0 ==> sound_upto(bm, nodes@, nodes@.len() as int, res.1@),
        !res.0 ==> projection_complete(bm, nodes@, nodes@.len() as int, res.1@),
        !res.0 ==> forall|n: PosWithDir| #[trigger] nodes@.contains(n) ==> !bm.is_start(n),
{
    let mut projected: Vec<(CoordPos, Input)> = Vec::new();
    let mut i: usize = 0;
    while i < nodes.len()
        invariant
            encodable_map(bm),
            level <= 7,
            i <= nodes@.len(),
            forall|n: PosWithDir| #[trigger] nodes@.contains(n) ==> bm.within(n, level),
            sound_upto(bm, nodes@, i as int, projected@),
            projection_complete(bm, nodes@, i as int, projected@),
            forall|idx: int| 0 <= idx < i ==> !bm.is_start(#[trigger] nodes@[idx]),
        decreases nodes@.len() - i,
    {
        let node = nodes[i];
        proof {
            assert(nodes@.contains(node));
            lemma_within_free(bm, node, level);
        }
        let ghost before = projected@;
        let found = project_node(bm, node, &mut projected);
        if found {
            proof {
                lemma_within_mono(bm, node, level, 7);
                assert(bm.within(node, 7) && bm.is_start(node));
            }
            return (true, projected);
        }
        proof {
            let kmax = choose|kmax: int| #[trigger] run_appended(bm, node, before, projected@, kmax);
            lemma_project_step(bm, nodes@, i as int, before, projected@, kmax);
        }
        i += 1;
    }
    proof {
        assert forall|n: PosWithDir| #[trigger] nodes@.contains(n) implies !bm.is_start(n) by {
            let idx = choose|idx: int| 0 <= idx < nodes@.len() && nodes@[idx] == n;
            assert(!bm.is_start(nodes@[idx]));
        }
    }
    (false, projected)
}

/// Some resting point known at step `t` of the expansion has key `c`.
pub open spec fn known_preimage(bm: &BlockMap, proj: Seq<(CoordPos, Input)>, t: int, level: nat, c: i32) -> bool {
    exists|n: PosWithDir| #[trigger] known(bm, proj, t, level, n) && spec_to_i32(n) == c
}

/// A resting point generated from a projected cell is free and has a direction.
proof fn lemma_generated_free(bm: &BlockMap, frontier: Seq<PosWithDir>, proj: Seq<(CoordPos, Input)>, t: int, level: nat, n: PosWithDir)
    requires
        encodable_map(bm),
        forall|m: PosWithDir| #[trigger] frontier.contains(m) ==> bm.within(m, level),
        sound_upto(bm, frontier, frontier.len() as int, proj),
        t <= proj.len(),
        generated(bm, proj, t, n),
    ensures
        !bm.blocked(n.pos.x as int, n.pos.y as int),
        n.dir != Input::Idle,
        n.encodable(),
{
    let s = choose|s: int| 0 <= s < t && #[trigger] gen_from(bm, proj[s], n);
    assert(covered(bm, frontier, frontier.len() as int, proj[s]));
    let idx = choose|idx: int| 0 <= idx < frontier.len() && #[trigger] proj_rel(bm, frontier[idx], proj[s]);
    let m = frontier[idx];
    assert(frontier.contains(m));
    lemma_within_free(bm, m, level);
    let es = proj[s];
    let k = choose|k: int|
        k >= 1 && #[trigger] bm.free_run(m.pos.x as int, m.pos.y as int, es.1, k) && es.0.x == sx(m.pos.x as int, es.1, k)
            && es.0.y == sy(m.pos.y as int, es.1, k);
    assert(!bm.blocked(sx(m.pos.x as int, es.1, k), sy(m.pos.y as int, es.1, k)));
    lemma_free_encodable(bm, n);
}

/// A known resting point is free and has a key of its own.
proof fn lemma_known_encodable(bm: &BlockMap, frontier: Seq<PosWithDir>, proj: Seq<(CoordPos, Input)>, t: int, level: nat, n: PosWithDir)
    requires
        encodable_map(bm),
        forall|m: PosWithDir| #[trigger] frontier.contains(m) ==> bm.within(m, level),
        sound_upto(bm, frontier, frontier.len() as int, proj),
        t <= proj.len(),
        known(bm, proj, t, level, n),
    ensures
        n.encodable(),
{
    if bm.within(n, level) {
        lemma_within_free(bm, n, level);
        lemma_free_encodable(bm, n);
    } else {
        lemma_generated_free(bm, frontier, proj, t, level, n);
    }
}

/// The resting points at right angles to the projected cells that were not seen before.
fn expand(
    bm: &BlockMap,
    projected: &Vec<(CoordPos, Input)>,
    seen: &mut BTreeSet<i32>,
    Ghost(level): Ghost<nat>,
    Ghost(frontier): Ghost<Seq<PosWithDir>>,
) -> (nodes: Vec<PosWithDir>)
    requires
        encodable_map(bm),
        forall|n: PosWithDir| #[trigger] frontier.contains(n) ==> bm.within(n, level),
        sound_upto(bm, frontier, frontier.len() as int, projected@),
        seen_ok(bm, old(seen)@, level),
    ensures
        forall|n: PosWithDir| #[trigger] nodes@.contains(n) ==> generated(bm, projected@, projected@.len() as int, n) && !bm.within(n, level),
        forall|n: PosWithDir| #[trigger] generated(bm, projected@, projected@.len() as int, n) && !bm.within(n, level) ==> nodes@.contains(n),
        forall|n: PosWithDir| #[trigger] known(bm, projected@, projected@.len() as int, level, n) ==> final(seen)@.contains(spec_to_i32(n) as i32),
        forall|c: i32| #[trigger] final(seen)@.contains(c) ==> known_preimage(bm, projected@, projected@.len() as int, level, c),
{
    let mut nodes: Vec<PosWithDir> = Vec::new();
    let mut t: usize = 0;
    proof {
        assert forall|c: i32| #[trigger] seen@.contains(c) implies known_preimage(bm, projected@, 0, level, c) by {
            assert(has_preimage(bm, level, c));
            let n = choose|n: PosWithDir| #[trigger] bm.within(n, level) && spec_to_i32(n) == c;
            assert(known(bm, projected@, 0, level, n));
        }
    }
    while t < projected.len()
        invariant
            encodable_map(bm),
            t <= projected@.len(),
            forall|n: PosWithDir| #[trigger] frontier.contains(n) ==> bm.within(n, level),
            sound_upto(bm, frontier, frontier.len() as int, projected@),
            seen_ok(bm, old(seen)@, level),
            forall|n: PosWithDir| #[trigger] nodes@.contains(n) ==> generated(bm, projected@, t as int, n) && !bm.within(n, level),
            forall|n: PosWithDir| #[trigger] generated(bm, projected@, t as int, n) && !bm.within(n, level) ==> nodes@.contains(n),
            forall|n: PosWithDir| #[trigger] known(bm, projected@, t as int, level, n) ==> seen@.contains(spec_to_i32(n) as i32),
            forall|c: i32| #[trigger] seen@.contains(c) ==> known_preimage(bm, projected@, t as int, level, c),
        decreases projected@.len() - t,
    {
        let (pos, inverted_dir) = projected[t];
        let ghost e = projected@[t as int];
        proof {
            assert(covered(bm, frontier, frontier.len() as int, projected@[t as int]));
            let idx = choose|idx: int| 0 <= idx < frontier.len() && #[trigger] proj_rel(bm, frontier[idx], projected@[t as int]);
            let m = frontier[idx];
            assert(frontier.contains(m));
            lemma_within_free(bm, m, level);
            let k = choose|k: int|
                k >= 1 && #[trigger] bm.free_run(m.pos.x as int, m.pos.y as int, inverted_dir, k) && pos.x == sx(m.pos.x as int, inverted_dir, k)
                    && pos.y == sy(m.pos.y as int, inverted_dir, k);
            assert(!bm.blocked(sx(m.pos.x as int, inverted_dir, k), sy(m.pos.y as int, inverted_dir, k)));
        }
        let orth_0 = inverted_dir.orthogonal();
        let ghost s0 = seen@;
        let ghost n0 = nodes@;
        consider(bm, pos, orth_0, seen, &mut nodes);
        let ghost s1 = seen@;
        let ghost n1 = nodes@;
        consider(bm, pos, orth_0.invert(), seen, &mut nodes);
        proof {
            let na = PosWithDir { pos, dir: orth_0 };
            let nb = PosWithDir { pos, dir: orth_0.spec_invert() };
            let pj = projected@;
            assert forall|n: PosWithDir| #[trigger] generated(bm, pj, t + 1, n) <==> (generated(bm, pj, t as int, n) || gen_from(bm, e, n)) by {
                if generated(bm, pj, t + 1, n) {
                    let s = choose|s: int| 0 <= s < t + 1 && #[trigger] gen_from(bm, pj[s], n);
                    if s < t {
                        assert(generated(bm, pj, t as int, n));
                    }
                }
                if gen_from(bm, e, n) {
                    assert(gen_from(bm, pj[t as int], n));
                }
                if generated(bm, pj, t as int, n) {
                    let s = choose|s: int| 0 <= s < t && #[trigger] gen_from(bm, pj[s], n);
                    assert(gen_from(bm, pj[s], n));
                }
            }
            assert forall|n: PosWithDir| #[trigger] known(bm, pj, t + 1, level, n) implies seen@.contains(spec_to_i32(n) as i32) by {
                if known(bm, pj, t as int, level, n) {
                } else {
                    assert(gen_from(bm, e, n));
                }
            }
            assert forall|c: i32| #[trigger] seen@.contains(c) implies known_preimage(bm, pj, t + 1, level, c) by {
                if s0.contains(c) {
                    assert(known_preimage(bm, pj, t as int, level, c));
                    let n = choose|n: PosWithDir| #[trigger] known(bm, pj, t as int, level, n) && spec_to_i32(n) == c;
                    assert(known(bm, pj, t + 1, level, n));
                } else if s1.contains(c) {
                    assert(gen_from(bm, e, na));
                    assert(known(bm, pj, t + 1, level, na));
                } else {
                    assert(gen_from(bm, e, nb));
                    assert(known(bm, pj, t + 1, level, nb));
                }
            }
            assert forall|n: PosWithDir| #[trigger] nodes@.contains(n) implies generated(bm, pj, t + 1, n) && !bm.within(n, level) by {
                if n0.contains(n) {
                } else if n1.contains(n) {
                    assert(n == na);
                    assert(gen_from(bm, e, na));
                    if bm.within(n, level) {
                        assert(known(bm, pj, t as int, level, n));
                    }
                } else {
                    assert(n == nb);
                    assert(gen_from(bm, e, nb));
                    if bm.within(n, level) {
                        assert(known(bm, pj, t as int, level, n));
                    }
                }
            }
            assert forall|n: PosWithDir| #[trigger] generated(bm, pj, t + 1, n) && !bm.within(n, level) implies nodes@.contains(n) by {
                if generated(bm, pj, t as int, n) {
                    assert(n0.contains(n));
                } else {
                    assert(gen_from(bm, e, n));
                    assert(gen_from(bm, pj[t as int], n));
                    lemma_generated_free(bm, frontier, pj, t + 1, level, n);
                    if n.dir == orth_0 {
                        assert(n == na);
                        if s0.contains(spec_to_i32(n) as i32) {
                            assert(known_preimage(bm, pj, t as int, level, spec_to_i32(n) as i32));
                            let m = choose|m: PosWithDir| #[trigger] known(bm, pj, t as int, level, m) && spec_to_i32(m) == spec_to_i32(n) as i32;
                            lemma_known_encodable(bm, frontier, pj, t as int, level, m);
                            lemma_to_i32_injective(m, n);
                        }
                    } else {
                        assert(n == nb);
                        if s1.contains(spec_to_i32(n) as i32) {
                            if s0.contains(spec_to_i32(n) as i32) {
                                assert(known_preimage(bm, pj, t as int, level, spec_to_i32(n) as i32));
                                let m = choose|m: PosWithDir| #[trigger] known(bm, pj, t as int, level, m) && spec_to_i32(m) == spec_to_i32(n) as i32;
                                lemma_known_encodable(bm, frontier, pj, t as int, level, m);
                                lemma_to_i32_injective(m, n);
                            } else {
                                lemma_free_encodable(bm, na);
                                lemma_to_i32_injective(na, n);
                            }
                        }
                    }
                }
            }
        }
        t += 1;
    }
    nodes
}


/// Some node of `frontier` is reached by one slide from `n`.
pub open spec fn leads_into(bm: &BlockMap, frontier: Seq<PosWithDir>, n: PosWithDir) -> bool {
    exists|m: PosWithDir| #[trigger] frontier.contains(m) && bm.is_pred(m, n)
}

/// The resting points within one more slide: those within `level`, and those generated from the
/// cells projected from the frontier.
proof fn lemma_next_level(bm: &BlockMap, frontier: Seq<PosWithDir>, proj: Seq<(CoordPos, Input)>, level: nat)
    requires
        frontier_ok(bm, frontier, level),
        sound_upto(bm, frontier, frontier.len() as int, proj),
        projection_complete(bm, frontier, frontier.len() as int, proj),
    ensures
        forall|n: PosWithDir| #[trigger] bm.within(n, level + 1) <==> (bm.within(n, level) || generated(bm, proj, proj.len() as int, n)),
{
    assert forall|n: PosWithDir| #[trigger] generated(bm, proj, proj.len() as int, n) implies leads_into(bm, frontier, n) by {
        let s = choose|s: int| 0 <= s < proj.len() && #[trigger] gen_from(bm, proj[s], n);
        assert(covered(bm, frontier, frontier.len() as int, proj[s]));
        let idx = choose|idx: int| 0 <= idx < frontier.len() && #[trigger] proj_rel(bm, frontier[idx], proj[s]);
        let m = frontier[idx];
        assert(frontier.contains(m));
        let es = proj[s];
        let k = choose|k: int|
            k >= 1 && #[trigger] bm.free_run(m.pos.x as int, m.pos.y as int, es.1, k) && es.0.x == sx(m.pos.x as int, es.1, k)
                && es.0.y == sy(m.pos.y as int, es.1, k);
        assert(bm.is_pred(m, n));
    }
    assert forall|n: PosWithDir| #[trigger] bm.within(n, level + 1) implies (bm.within(n, level) || generated(bm, proj, proj.len() as int, n)) by {
        lemma_within_step(bm, n, level);
        if !bm.within(n, level) {
            let m = choose|m: PosWithDir| #[trigger] bm.within(m, level) && bm.is_pred(m, n);
            if level > 0 && bm.within(m, (level - 1) as nat) {
                lemma_within_step(bm, n, (level - 1) as nat);
                assert(bm.within(n, level));
            } else {
                assert(frontier.contains(m));
                let idx = choose|idx: int| 0 <= idx < frontier.len() && frontier[idx] == m;
                let inv = m.dir.spec_invert();
                let k = choose|k: int|
                    k >= 1 && #[trigger] bm.free_run(m.pos.x as int, m.pos.y as int, inv, k) && n.pos.x == sx(m.pos.x as int, inv, k)
                        && n.pos.y == sy(m.pos.y as int, inv, k);
                assert(bm.free_run(frontier[idx].pos.x as int, frontier[idx].pos.y as int, frontier[idx].dir.spec_invert(), k));
                assert(appears(proj, behind(frontier[idx], k)));
                let s = choose|s: int| 0 <= s < proj.len() && #[trigger] proj[s] == behind(frontier[idx], k);
                assert(gen_from(bm, proj[s], n));
            }
        }
    }
    assert forall|n: PosWithDir| bm.within(n, level) || generated(bm, proj, proj.len() as int, n) implies #[trigger] bm.within(n, level + 1) by {
        lemma_within_step(bm, n, level);
        if !bm.within(n, level) {
            assert(leads_into(bm, frontier, n));
            let m = choose|m: PosWithDir| #[trigger] frontier.contains(m) && bm.is_pred(m, n);
            assert(bm.within(m, level));
        }
    }
}

/// Whether a player entering the icy section from below, sliding up, can reach the top line
/// through at most eight resting points, each slide turning at right angles.
pub fn verify_ice(block_map: &BlockMap) -> (r: bool)
    requires
        encodable_map(block_map),
    ensures
        r == block_map.solvable_within(7),
{
    let (mut seen, mut nodes) = initial_nodes(block_map);
    let mut timeout: i32 = 8;
    let ghost mut level: nat = 0;
    while timeout > 0
        invariant
            encodable_map(block_map),
            0 <= timeout <= 8,
            level == 8 - timeout,
            frontier_ok(block_map, nodes@, level),
            seen_ok(block_map, seen@, level),
            level > 0 ==> forall|n: PosWithDir| #[trigger] block_map.within(n, (level - 1) as nat) ==> !block_map.is_start(n),
        decreases timeout,
    {
        timeout -= 1;
        let (found, projected) = project_all(block_map, &nodes, Ghost(level));
        if found {
            return true;
        }
        let ghost frontier = nodes@;
        nodes = expand(block_map, &projected, &mut seen, Ghost(level), Ghost(frontier));
        proof {
            lemma_next_level(block_map, frontier, projected@, level);
            let l = level;
            let pj = projected@;
            assert forall|n: PosWithDir| #[trigger] block_map.within(n, l) implies !block_map.is_start(n) by {
                if l > 0 && block_map.within(n, (l - 1) as nat) {
                } else {
                    assert(frontier.contains(n));
                }
            }
            assert forall|c: i32| #[trigger] seen@.contains(c) implies has_preimage(block_map, l + 1, c) by {
                assert(known_preimage(block_map, pj, pj.len() as int, l, c));
                let n = choose|n: PosWithDir| #[trigger] known(block_map, pj, pj.len() as int, l, n) && spec_to_i32(n) == c;
                assert(block_map.within(n, l + 1));
            }
            assert forall|n: PosWithDir| #[trigger] block_map.within(n, l + 1) implies seen@.contains(spec_to_i32(n) as i32) by {
                assert(known(block_map, pj, pj.len() as int, l, n));
            }
            assert forall|n: PosWithDir| #[trigger] nodes@.contains(n) implies block_map.within(n, l + 1) && !block_map.within(n, l) by {}
            assert forall|n: PosWithDir| #[trigger] block_map.within(n, l + 1) && !block_map.within(n, l) implies nodes@.contains(n) by {
                assert(generated(block_map, pj, pj.len() as int, n));
            }
            level = level + 1;
        }
    }
    proof {
        assert forall|n: PosWithDir| #[trigger] block_map.within(n, 7) implies !block_map.is_start(n) by {
            assert(block_map.within(n, (level - 1) as nat));
        }
    }
    false
}

} // verus!
