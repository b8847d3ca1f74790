use vstd::prelude::*;
use std::collections::BTreeMap;
use std::collections::BTreeSet;
use smallvec::SmallVec;
use crate::game::{CoordPos, Input, ALL_INPUTS};
use crate::bitmap::BitMap;
use crate::icy::{BlockMap, sx, sy};

verus! {

broadcast use {vstd::std_specs::btree::group_btree_axioms, vstd::seq_lib::lemma_seq_contains_after_push};

/// The successors of one node, kept in a small inline vector.
#[verifier::external_body]
#[derive(Debug)]
pub struct AdjacencyList {
    inner: SmallVec<[u128; 4]>,
}

/// The keys held by an adjacency list, in insertion order.
pub uninterp spec fn adjacency_items(v: AdjacencyList) -> Seq<u128>;

/// `SmallVec::new`: an empty list.
#[verifier::external_body]
fn adjacency_new() -> (r: AdjacencyList)
    ensures
        adjacency_items(r) == Seq::<u128>::empty(),
{
    AdjacencyList { inner: SmallVec::new() }
}

/// `SmallVec::push`: appends `x` at the end; it panics only when the capacity overflows.
#[verifier::external_body]
fn adjacency_push(v: &mut AdjacencyList, x: u128)
    requires
        adjacency_items(*old(v)).len() < usize::MAX,
    ensures
        adjacency_items(*final(v)) == adjacency_items(*old(v)).push(x),
{
    v.inner.push(x)
}

/// `SmallVec::len`: the number of items.
#[verifier::external_body]
fn adjacency_len(v: &AdjacencyList) -> (r: usize)
    ensures
        r == adjacency_items(*v).len(),
{
    v.inner.len()
}

/// Indexing a `SmallVec` (through its slice): the item at position `i`.
#[verifier::external_body]
fn adjacency_get(v: &AdjacencyList, i: usize) -> (r: u128)
    requires
        i < adjacency_items(*v).len(),
    ensures
        r == adjacency_items(*v)[i as int],
{
    v.inner[i]
}

#[derive(Debug, Clone, Copy, PartialEq, Eq, Structural)]
pub enum NodeType {
    Start,
    End,
    Pos(CoordPos),
}

/// A vertex of the icy-section graph: the entry below, the exit above, or a resting cell.
#[derive(Debug, Clone, Copy, PartialEq, Eq, Structural)]
pub struct Node {
    inner: NodeType,
}

pub open spec fn pos_key(p: CoordPos) -> int {
    2 + (p.x + 0x8000_0000) * 0x1_0000_0000 + (p.y + 0x8000_0000)
}

impl Node {
    pub closed spec fn kind(self) -> NodeType {
        self.inner
    }

    /// The integer that stands for this node in the graph's maps and sets.
    pub open spec fn spec_key(self) -> u128 {
        match self.kind() {
            NodeType::Start => 0,
            NodeType::End => 1,
            NodeType::Pos(p) => pos_key(p) as u128,
        }
    }

    pub closed spec fn spec_pos(pos: CoordPos) -> Node {
        Node { inner: NodeType::Pos(pos) }
    }

    pub fn new(inner: NodeType) -> (r: Self)
        ensures
            r.kind() == inner,
    {
        Self { inner }
    }

    pub fn start() -> (r: Self)
        ensures
            r.kind() == NodeType::Start,
    {
        Self::new(NodeType::Start)
    }

    pub fn end() -> (r: Self)
        ensures
            r.kind() == NodeType::End,
    {
        Self::new(NodeType::End)
    }

    pub fn pos(pos: CoordPos) -> (r: Self)
        ensures
            r.kind() == NodeType::Pos(pos),
    {
        Self::new(NodeType::Pos(pos))
    }

    pub fn key(&self) -> (r: u128)
        ensures
            r == self.spec_key(),
    {
        match self.inner {
            NodeType::Start => 0,
            NodeType::End => 1,
            NodeType::Pos(p) => {
                let hi = (p.x as i64 + 0x8000_0000i64) as u128;
                let lo = (p.y as i64 + 0x8000_0000i64) as u128;
                2 + hi * 0x1_0000_0000u128 + lo
            },
        }
    }
}

/// Different nodes have different keys.
pub proof fn lemma_key_injective(a: Node, b: Node)
    requires
        a.spec_key() == b.spec_key(),
    ensures
        a == b,
{
    match (a.kind(), b.kind()) {
        (NodeType::Pos(p), NodeType::Pos(q)) => {
            let (ph, pl, qh, ql) = (p.x + 0x8000_0000, p.y + 0x8000_0000, q.x + 0x8000_0000, q.y + 0x8000_0000);
            assert(ph == qh && pl == ql) by (nonlinear_arith)
                requires
                    0 <= pl < 0x1_0000_0000,
                    0 <= ql < 0x1_0000_0000,
                    ph * 0x1_0000_0000 + pl == qh * 0x1_0000_0000 + ql,
            ;
            assert(a.inner == b.inner);
        },
        _ => {
            assert(a.inner == b.inner);
        },
    }
}

/// A slide from one node to another.
#[derive(Debug, Clone, Copy, PartialEq, Eq, Structural)]
pub struct Edge {
    pub from: Node,
    pub to: Node,
}

/// Which slides lead from one node to another.
#[derive(Debug)]
pub struct IcyGraph {
    edges: BTreeMap<u128, AdjacencyList>,
}

impl Default for IcyGraph {
    fn default() -> (r: Self)
        ensures
            forall|a: u128| #[trigger] r.succs(a) == Seq::<u128>::empty(),
    {
        IcyGraph { edges: BTreeMap::new() }
    }
}

/// `k` is the key of some node.
pub open spec fn is_node_key(k: u128) -> bool {
    exists|n: Node| #[trigger] n.spec_key() == k
}

impl IcyGraph {
    /// Every edge joins the keys of two nodes.
    #[verifier::type_invariant]
    closed spec fn edges_join_nodes(self) -> bool {
        forall|a: u128, b: u128| #[trigger] self.has_edge(a, b) ==> is_node_key(a) && is_node_key(b)
    }

    /// The keys that edges from key `a` lead to, in insertion order.
    pub closed spec fn succs(&self, a: u128) -> Seq<u128> {
        if self.edges@.contains_key(a) {
            adjacency_items(self.edges@[a])
        } else {
            Seq::empty()
        }
    }

    pub open spec fn has_edge(&self, a: u128, b: u128) -> bool {
        self.succs(a).contains(b)
    }

    pub open spec fn node_edge(&self, a: Node, b: Node) -> bool {
        self.has_edge(a.spec_key(), b.spec_key())
    }

    /// Adds an edge, except from a node to itself.
    pub fn add_edge(&mut self, from: Node, to: Node)
        requires
            old(self).succs(from.spec_key()).len() < usize::MAX,
        ensures
            from == to ==> forall|a: u128| #[trigger] final(self).succs(a) == old(self).succs(a),
            from != to ==> final(self).succs(from.spec_key()) == old(self).succs(from.spec_key()).push(to.spec_key()),
            forall|a: u128| a != from.spec_key() ==> #[trigger] final(self).succs(a) == old(self).succs(a),
            forall|a: Node, b: Node| #[trigger] final(self).node_edge(a, b) == (old(self).node_edge(a, b) || (from != to && a == from && b == to)),
    {
        if from == to {
            return;
        }
        proof { use_type_invariant(&*self); }
        let fk = from.key();
        let tk = to.key();
        let mut edges: BTreeMap<u128, AdjacencyList> = BTreeMap::new();
        std::mem::swap(&mut edges, &mut self.edges);
        match edges.remove(&fk) {
            Some(mut existing) => {
                adjacency_push(&mut existing, tk);
                edges.insert(fk, existing);
            },
            None => {
                let mut v = adjacency_new();
                adjacency_push(&mut v, tk);
                edges.insert(fk, v);
            },
        }
        let ghost g = IcyGraph { edges };
        proof {
            assert forall|a: u128, b: u128| #[trigger] g.has_edge(a, b) implies is_node_key(a) && is_node_key(b) by {
                if a == fk {
                    assert(from.spec_key() == fk);
                    if b == tk {
                        assert(to.spec_key() == tk);
                    } else {
                        let s0 = old(self).succs(fk);
                        let i = choose|i: int| 0 <= i < s0.push(tk).len() && s0.push(tk)[i] == b;
                        assert(s0[i] == b);
                        assert(old(self).has_edge(a, b));
                    }
                } else {
                    assert(old(self).has_edge(a, b));
                }
            }
        }
        self.edges = edges;
        proof {
            assert forall|a: u128| a != fk implies #[trigger] self.succs(a) == old(self).succs(a) by {}
            assert forall|a: Node, b: Node| #[trigger] self.node_edge(a, b) == (old(self).node_edge(a, b) || (from != to && a == from && b == to)) by {
                if a.spec_key() == fk {
                    lemma_key_injective(a, from);
                    if b.spec_key() == tk {
                        lemma_key_injective(b, to);
                    }
                    if b != to {
                        if b.spec_key() == tk {
                            lemma_key_injective(b, to);
                        }
                        assert(old(self).succs(fk).push(tk).contains(b.spec_key()) == old(self).succs(fk).contains(b.spec_key())) by {
                            let s0 = old(self).succs(fk);
                            if s0.push(tk).contains(b.spec_key()) {
                                let i = choose|i: int| 0 <= i < s0.push(tk).len() && s0.push(tk)[i] == b.spec_key();
                                if i < s0.len() {
                                    assert(s0[i] == b.spec_key());
                                }
                            }
                            if s0.contains(b.spec_key()) {
                                let i = choose|i: int| 0 <= i < s0.len() && s0[i] == b.spec_key();
                                assert(s0.push(tk)[i] == b.spec_key());
                            }
                        }
                    } else {
                        assert(old(self).succs(fk).push(tk)[old(self).succs(fk).len() as int] == tk);
                    }
                }
            }
        }
    }
}


pub open spec fn pos_node(x: int, y: int) -> NodeType {
    NodeType::Pos(CoordPos { x: x as i32, y: y as i32 })
}

impl BlockMap {
    /// The `k` lowest cells of column `x` are free.
    pub open spec fn free_from_bottom(&self, x: int, k: int) -> bool {
        forall|i: int| 0 <= i < k ==> !#[trigger] self.blocked(x, self.spec_height() - 1 - i)
    }

    /// The `k` highest cells of column `x` are free.
    pub open spec fn free_from_top(&self, x: int, k: int) -> bool {
        forall|i: int| 0 <= i < k ==> !#[trigger] self.blocked(x, i)
    }

    /// Entering column `x` from below and sliding up ends at `b`: leaving through the top, or
    /// resting under the first block (no edge when the lowest cell is blocked).
    pub open spec fn up_entry(&self, x: int, b: Node) -> bool {
        let h = self.spec_height();
        exists|k: int|
            0 <= k <= h && #[trigger] self.free_from_bottom(x, k) && if k == h {
                b.kind() == NodeType::End
            } else {
                self.blocked(x, h - 1 - k) && k >= 1 && b.kind() == pos_node(x, h - k)
            }
    }

    /// Entering column `x` from above and sliding down ends at `b`.
    pub open spec fn down_entry(&self, x: int, b: Node) -> bool {
        let h = self.spec_height();
        exists|k: int|
            0 <= k <= h && #[trigger] self.free_from_top(x, k) && if k == h {
                b.kind() == NodeType::Start
            } else {
                self.blocked(x, k) && k >= 1 && b.kind() == pos_node(x, k - 1)
            }
    }

    /// Sliding from `(px, py)` towards `d` stops after `k` steps with outcome `b`.
    pub open spec fn stop_at(&self, px: int, py: int, d: Input, k: int, b: Node) -> bool {
        let qx = sx(px, d, k);
        let qy = sy(py, d, k);
        if qy < 0 {
            b.kind() == NodeType::End
        } else if qy == self.spec_height() {
            b.kind() == NodeType::Start
        } else {
            self.blocked(qx, qy) && b.kind() == pos_node(sx(px, d, k - 1), sy(py, d, k - 1))
        }
    }

    /// Sliding from `(px, py)` towards `d` leads to `b`: out through the top, out through the
    /// bottom, or onto the last free cell.
    pub open spec fn slide_edge(&self, px: int, py: int, d: Input, b: Node) -> bool {
        exists|k: int| k >= 1 && #[trigger] self.free_run(px, py, d, k - 1) && self.stop_at(px, py, d, k, b)
    }

    pub open spec fn cell_ok(&self, x: int, y: int) -> bool {
        &&& 0 <= x < self.full_width
        &&& 0 <= y < self.spec_height()
        &&& !self.blocked(x, y)
    }

    /// The edges of the icy graph: from the entry and the exit through every column, and from
    /// every free cell through each of the four slides, never from a node to itself.
    pub open spec fn edge_spec(&self, a: Node, b: Node) -> bool {
        match a.kind() {
            NodeType::Start => exists|x: int| 0 <= x < self.full_width && #[trigger] self.up_entry(x, b),
            NodeType::End => exists|x: int| 0 <= x < self.full_width && #[trigger] self.down_entry(x, b),
            NodeType::Pos(p) => {
                &&& self.cell_ok(p.x as int, p.y as int)
                &&& b != a
                &&& exists|j: int| 0 <= j < 4 && #[trigger] self.slide_edge(p.x as int, p.y as int, dir_at(j), b)
            },
        }
    }
}

/// The `j`-th of the four directions, in the order up, left, right, down.
pub open spec fn dir_at(j: int) -> Input {
    if j == 0 {
        Input::Up
    } else if j == 1 {
        Input::Left
    } else if j == 2 {
        Input::Right
    } else {
        Input::Down
    }
}

/// The graph's shape for a map of at most 64 columns and `i32::MAX` lines.
pub open spec fn graph_map_ok(bm: &BlockMap) -> bool {
    &&& bm.wf()
    &&& bm.inner@.len() < 0x4000_0000
}

/// Adds the edge of the slide up from below through column `x`.
fn add_up_entry(graph: &mut IcyGraph, bm: &BlockMap, x: i32)
    requires
        graph_map_ok(bm),
        0 <= x < bm.full_width,
        old(graph).succs(0u128).len() < 64 + x,
    ensures
        final(graph).succs(0u128).len() <= old(graph).succs(0u128).len() + 1,
        forall|a: u128| a != 0u128 ==> #[trigger] final(graph).succs(a) == old(graph).succs(a),
        forall|a: Node, b: Node| #[trigger] final(graph).node_edge(a, b) == (old(graph).node_edge(a, b) || (a.kind() == NodeType::Start && bm.up_entry(x as int, b))),
{
    let h = bm.height();
    let input = Input::Up;
    let mut pos = CoordPos::new(x, h - 1);
    let mut prev: Option<CoordPos> = None;
    let ghost mut k: int = 0;
    loop
        invariant_except_break
            graph_map_ok(bm),
            h == bm.spec_height(),
            0 <= x < bm.full_width,
            0 <= k <= h,
            pos.x == x,
            pos.y == h - 1 - k,
            bm.free_from_bottom(x as int, k),
            k == 0 ==> prev is None,
            k > 0 ==> prev == Some(CoordPos { x, y: (h - k) as i32 }),
            *graph == *old(graph),
            input == Input::Up,
            old(graph).succs(0u128).len() < 64 + x,
        ensures
            final(graph).succs(0u128).len() <= old(graph).succs(0u128).len() + 1,
            forall|a: u128| a != 0u128 ==> #[trigger] final(graph).succs(a) == old(graph).succs(a),
            forall|a: Node, b: Node| #[trigger] final(graph).node_edge(a, b) == (old(graph).node_edge(a, b) || (a.kind() == NodeType::Start && bm.up_entry(x as int, b))),
        decreases pos.y + 1,
    {
        if pos.y < 0 {
            let ghost gb = *graph;
            graph.add_edge(Node::start(), Node::end());
            proof {
                assert forall|a: Node, b: Node| #[trigger] graph.node_edge(a, b) == (old(graph).node_edge(a, b) || (a.kind() == NodeType::Start && bm.up_entry(x as int, b))) by {
                    if a.kind() == NodeType::Start && bm.up_entry(x as int, b) {
                        let kk = choose|kk: int| 0 <= kk <= h && #[trigger] bm.free_from_bottom(x as int, kk) && if kk == h {
                            b.kind() == NodeType::End
                        } else {
                            bm.blocked(x as int, h - 1 - kk) && kk >= 1 && b.kind() == pos_node(x as int, h - kk)
                        };
                        if kk < h {
                            assert(!bm.blocked(x as int, h - 1 - kk));
                        }
                        assert(a.kind() == NodeType::Start && b.kind() == NodeType::End);
                    }
                    if a.kind() == NodeType::Start && b.kind() == NodeType::End {
                        assert(bm.free_from_bottom(x as int, h as int));
                    }
                }
            }
            break;
        }
        if bm.get(pos) {
            match prev {
                Some(p) => {
                    graph.add_edge(Node::start(), Node::pos(p));
                    proof {
                        assert forall|a: Node, b: Node| #[trigger] graph.node_edge(a, b) == (old(graph).node_edge(a, b) || (a.kind() == NodeType::Start && bm.up_entry(x as int, b))) by {
                            if a.kind() == NodeType::Start && bm.up_entry(x as int, b) {
                                let kk = choose|kk: int| 0 <= kk <= h && #[trigger] bm.free_from_bottom(x as int, kk) && if kk == h {
                                    b.kind() == NodeType::End
                                } else {
                                    bm.blocked(x as int, h - 1 - kk) && kk >= 1 && b.kind() == pos_node(x as int, h - kk)
                                };
                                if kk < k {
                                    assert(!bm.blocked(x as int, h - 1 - kk));
                                } else if kk > k {
                                    assert(!bm.blocked(x as int, h - 1 - k));
                                }
                                assert(a.kind() == NodeType::Start && b.kind() == NodeType::Pos(p));
                            }
                            if a.kind() == NodeType::Start && b.kind() == NodeType::Pos(p) {
                                assert(bm.up_entry(x as int, b));
                            }
                        }
                    }
                },
                None => {
                    proof {
                        assert forall|a: Node, b: Node| #[trigger] graph.node_edge(a, b) == (old(graph).node_edge(a, b) || (a.kind() == NodeType::Start && bm.up_entry(x as int, b))) by {
                            if a.kind() == NodeType::Start && bm.up_entry(x as int, b) {
                                let kk = choose|kk: int| 0 <= kk <= h && #[trigger] bm.free_from_bottom(x as int, kk) && if kk == h {
                                    b.kind() == NodeType::End
                                } else {
                                    bm.blocked(x as int, h - 1 - kk) && kk >= 1 && b.kind() == pos_node(x as int, h - kk)
                                };
                                if kk > 0 {
                                    assert(!bm.blocked(x as int, h - 1 - 0));
                                }
                            }
                        }
                    }
                },
            }
            break;
        }
        prev = Some(pos);
        pos = pos.apply_input(input);
        proof {
            k = k + 1;
            assert forall|i: int| 0 <= i < k implies !#[trigger] bm.blocked(x as int, h - 1 - i) by {
                if i < k - 1 {
                    assert(bm.free_from_bottom(x as int, k - 1));
                }
            }
        }
    }
}


/// Adds the edge of the slide down from above through column `x`.
fn add_down_entry(graph: &mut IcyGraph, bm: &BlockMap, x: i32)
    requires
        graph_map_ok(bm),
        0 <= x < bm.full_width,
        old(graph).succs(1u128).len() < 64 + x,
    ensures
        final(graph).succs(1u128).len() <= old(graph).succs(1u128).len() + 1,
        forall|a: u128| a != 1u128 ==> #[trigger] final(graph).succs(a) == old(graph).succs(a),
        forall|a: Node, b: Node| #[trigger] final(graph).node_edge(a, b) == (old(graph).node_edge(a, b) || (a.kind() == NodeType::End && bm.down_entry(x as int, b))),
{
    let h = bm.height();
    let input = Input::Down;
    let mut pos = CoordPos::new(x, 0);
    let mut prev: Option<CoordPos> = None;
    let ghost mut k: int = 0;
    loop
        invariant_except_break
            graph_map_ok(bm),
            h == bm.spec_height(),
            0 <= x < bm.full_width,
            0 <= k <= h,
            pos.x == x,
            pos.y == k,
            bm.free_from_top(x as int, k),
            k == 0 ==> prev is None,
            k > 0 ==> prev == Some(CoordPos { x, y: (k - 1) as i32 }),
            *graph == *old(graph),
            input == Input::Down,
            old(graph).succs(1u128).len() < 64 + x,
        ensures
            final(graph).succs(1u128).len() <= old(graph).succs(1u128).len() + 1,
            forall|a: u128| a != 1u128 ==> #[trigger] final(graph).succs(a) == old(graph).succs(a),
            forall|a: Node, b: Node| #[trigger] final(graph).node_edge(a, b) == (old(graph).node_edge(a, b) || (a.kind() == NodeType::End && bm.down_entry(x as int, b))),
        decreases h - pos.y + 1,
    {
        if pos.y > h - 1 {
            graph.add_edge(Node::end(), Node::start());
            proof {
                assert forall|a: Node, b: Node| #[trigger] graph.node_edge(a, b) == (old(graph).node_edge(a, b) || (a.kind() == NodeType::End && bm.down_entry(x as int, b))) by {
                    if a.kind() == NodeType::End && bm.down_entry(x as int, b) {
                        let kk = choose|kk: int| 0 <= kk <= h && #[trigger] bm.free_from_top(x as int, kk) && if kk == h {
                            b.kind() == NodeType::Start
                        } else {
                            bm.blocked(x as int, kk) && kk >= 1 && b.kind() == pos_node(x as int, kk - 1)
                        };
                        if kk < h {
                            assert(!bm.blocked(x as int, kk));
                        }
                        assert(a.kind() == NodeType::End && b.kind() == NodeType::Start);
                    }
                    if a.kind() == NodeType::End && b.kind() == NodeType::Start {
                        assert(bm.free_from_top(x as int, h as int));
                    }
                }
            }
            break;
        }
        if bm.get(pos) {
            match prev {
                Some(p) => {
                    graph.add_edge(Node::end(), Node::pos(p));
                    proof {
                        assert forall|a: Node, b: Node| #[trigger] graph.node_edge(a, b) == (old(graph).node_edge(a, b) || (a.kind() == NodeType::End && bm.down_entry(x as int, b))) by {
                            if a.kind() == NodeType::End && bm.down_entry(x as int, b) {
                                let kk = choose|kk: int| 0 <= kk <= h && #[trigger] bm.free_from_top(x as int, kk) && if kk == h {
                                    b.kind() == NodeType::Start
                                } else {
                                    bm.blocked(x as int, kk) && kk >= 1 && b.kind() == pos_node(x as int, kk - 1)
                                };
                                if kk < k {
                                    assert(!bm.blocked(x as int, kk));
                                } else if kk > k {
                                    assert(!bm.blocked(x as int, k));
                                }
                                assert(a.kind() == NodeType::End && b.kind() == NodeType::Pos(p));
                            }
                            if a.kind() == NodeType::End && b.kind() == NodeType::Pos(p) {
                                assert(bm.down_entry(x as int, b));
                            }
                        }
                    }
                },
                None => {
                    proof {
                        assert forall|a: Node, b: Node| #[trigger] graph.node_edge(a, b) == (old(graph).node_edge(a, b) || (a.kind() == NodeType::End && bm.down_entry(x as int, b))) by {
                            if a.kind() == NodeType::End && bm.down_entry(x as int, b) {
                                let kk = choose|kk: int| 0 <= kk <= h && #[trigger] bm.free_from_top(x as int, kk) && if kk == h {
                                    b.kind() == NodeType::Start
                                } else {
                                    bm.blocked(x as int, kk) && kk >= 1 && b.kind() == pos_node(x as int, kk - 1)
                                };
                                if kk > 0 {
                                    assert(!bm.blocked(x as int, 0));
                                }
                            }
                        }
                    }
                },
            }
            break;
        }
        prev = Some(pos);
        pos = pos.apply_input(input);
        proof {
            k = k + 1;
            assert forall|i: int| 0 <= i < k implies !#[trigger] bm.blocked(x as int, i) by {
                if i < k - 1 {
                    assert(bm.free_from_top(x as int, k - 1));
                }
            }
        }
    }
}

/// Adds the edge of the slide from the free cell `pos` towards `dir`.
fn add_slide(graph: &mut IcyGraph, bm: &BlockMap, pos: CoordPos, dir: Input)
    requires
        graph_map_ok(bm),
        bm.cell_ok(pos.x as int, pos.y as int),
        dir != Input::Idle,
        old(graph).succs(Node::spec_pos(pos).spec_key()).len() < 64,
    ensures
        final(graph).succs(Node::spec_pos(pos).spec_key()).len() <= old(graph).succs(Node::spec_pos(pos).spec_key()).len() + 1,
        forall|a: u128| a != Node::spec_pos(pos).spec_key() ==> #[trigger] final(graph).succs(a) == old(graph).succs(a),
        forall|a: Node, b: Node| #[trigger] final(graph).node_edge(a, b) == (old(graph).node_edge(a, b) || (a.kind() == NodeType::Pos(pos) && b != a && bm.slide_edge(pos.x as int, pos.y as int, dir, b))),
{
    let h = bm.height();
    let from = Node::pos(pos);
    let mut p = pos;
    let ghost px = pos.x as int;
    let ghost py = pos.y as int;
    let ghost mut k: int = 0;
    loop
        invariant_except_break
            graph_map_ok(bm),
            h == bm.spec_height(),
            bm.cell_ok(px, py),
            px == pos.x,
            py == pos.y,
            from.kind() == NodeType::Pos(pos),
            dir != Input::Idle,
            k >= 0,
            p.x == sx(px, dir, k),
            p.y == sy(py, dir, k),
            !bm.blocked(p.x as int, p.y as int),
            bm.free_run(px, py, dir, k),
            *graph == *old(graph),
            old(graph).succs(Node::spec_pos(pos).spec_key()).len() < 64,
        ensures
            final(graph).succs(Node::spec_pos(pos).spec_key()).len() <= old(graph).succs(Node::spec_pos(pos).spec_key()).len() + 1,
            forall|a: u128| a != Node::spec_pos(pos).spec_key() ==> #[trigger] final(graph).succs(a) == old(graph).succs(a),
            forall|a: Node, b: Node| #[trigger] final(graph).node_edge(a, b) == (old(graph).node_edge(a, b) || (a.kind() == NodeType::Pos(pos) && b != a && bm.slide_edge(px, py, dir, b))),
        decreases
            match dir {
                Input::Up => p.y + 1,
                Input::Down => h - p.y,
                Input::Left => p.x + 1,
                Input::Right => 64 - p.x,
                Input::Idle => 0,
            },
    {
        let last = p;
        p = p.apply_input(dir);
        let ghost k1 = k + 1;
        if p.y < 0 {
            let to = Node::end();
            graph.add_edge(from, to);
            proof { lemma_slide_unique(bm, px, py, dir, k1, to); }
            break;
        }
        if p.y == h {
            let to = Node::start();
            graph.add_edge(from, to);
            proof { lemma_slide_unique(bm, px, py, dir, k1, to); }
            break;
        }
        if bm.get(p) {
            let to = Node::pos(last);
            graph.add_edge(from, to);
            proof { lemma_slide_unique(bm, px, py, dir, k1, to); }
            break;
        }
        proof {
            k = k + 1;
            assert forall|i: int| 1 <= i <= k implies !#[trigger] bm.blocked(sx(px, dir, i), sy(py, dir, i)) by {
                if i < k {
                    assert(bm.free_run(px, py, dir, k - 1));
                }
            }
        }
    }
}

/// The slide from a cell has a single outcome: the first step that leaves or hits a block.
proof fn lemma_slide_unique(bm: &BlockMap, px: int, py: int, d: Input, k: int, b: Node)
    requires
        k >= 1,
        bm.free_run(px, py, d, k - 1),
        bm.stop_at(px, py, d, k, b),
    ensures
        forall|c: Node| #[trigger] bm.slide_edge(px, py, d, c) <==> c == b,
{
    assert(bm.slide_edge(px, py, d, b));
    assert forall|c: Node| #[trigger] bm.slide_edge(px, py, d, c) implies c == b by {
        let kk = choose|kk: int| kk >= 1 && #[trigger] bm.free_run(px, py, d, kk - 1) && bm.stop_at(px, py, d, kk, c);
        if kk < k {
            assert(!bm.blocked(sx(px, d, kk), sy(py, d, kk)));
        } else if kk > k {
            assert(!bm.blocked(sx(px, d, k), sy(py, d, k)));
        }
        assert(c.kind() == b.kind());
    }
}


impl BlockMap {
    pub open spec fn start_edge(&self, b: Node) -> bool {
        exists|x: int| 0 <= x < self.full_width && #[trigger] self.up_entry(x, b)
    }

    pub open spec fn end_edge(&self, b: Node) -> bool {
        exists|x: int| 0 <= x < self.full_width && #[trigger] self.down_entry(x, b)
    }

    /// The edges present once the cells before `(cx, cy)` (line by line) have all four slides
    /// added, and cell `(cx, cy)` its first `cj`.
    pub open spec fn partial_edge(&self, cy: int, cx: int, cj: int, a: Node, b: Node) -> bool {
        match a.kind() {
            NodeType::Start => self.start_edge(b),
            NodeType::End => self.end_edge(b),
            NodeType::Pos(p) => {
                &&& self.cell_ok(p.x as int, p.y as int)
                &&& b != a
                &&& exists|j: int| 0 <= j < done_dirs(cy, cx, cj, p) && #[trigger] self.slide_edge(p.x as int, p.y as int, dir_at(j), b)
            },
        }
    }
}

/// How many of the four slides from cell `p` are added at step `(cy, cx, cj)`.
pub open spec fn done_dirs(cy: int, cx: int, cj: int, p: CoordPos) -> int {
    if p.y < cy || (p.y == cy && p.x < cx) {
        4
    } else if p.y == cy && p.x == cx {
        cj
    } else {
        0
    }
}

/// Builds the graph of the icy section: an edge for every slide between entry, exit and free cells.
pub fn build_graph(block_map: &BlockMap) -> (graph: IcyGraph)
    requires
        graph_map_ok(block_map),
    ensures
        forall|a: Node, b: Node| #[trigger] graph.node_edge(a, b) == block_map.edge_spec(a, b),
{
    let bm = block_map;
    let mut graph = IcyGraph::default();
    let mut x: i32 = 0;
    while x < bm.full_width
        invariant
            graph_map_ok(bm),
            0 <= x <= bm.full_width,
            graph.succs(0u128).len() <= x,
            forall|c: u128| c != 0 ==> #[trigger] graph.succs(c) == Seq::<u128>::empty(),
            forall|a: Node, b: Node| #[trigger] graph.node_edge(a, b) == (a.kind() == NodeType::Start && exists|xx: int| 0 <= xx < x && #[trigger] bm.up_entry(xx, b)),
        decreases bm.full_width - x,
    {
        add_up_entry(&mut graph, bm, x);
        proof {
            assert forall|a: Node, b: Node| #[trigger] graph.node_edge(a, b) == (a.kind() == NodeType::Start && exists|xx: int| 0 <= xx < x + 1 && #[trigger] bm.up_entry(xx, b)) by {
                if a.kind() == NodeType::Start && exists|xx: int| 0 <= xx < x + 1 && #[trigger] bm.up_entry(xx, b) {
                    let xx = choose|xx: int| 0 <= xx < x + 1 && #[trigger] bm.up_entry(xx, b);
                    if xx < x {
                        assert(exists|xx: int| 0 <= xx < x && #[trigger] bm.up_entry(xx, b));
                    }
                }
            }
        }
        x += 1;
    }
    x = 0;
    while x < bm.full_width
        invariant
            graph_map_ok(bm),
            0 <= x <= bm.full_width,
            graph.succs(1u128).len() <= x,
            forall|c: u128| c != 0 && c != 1 ==> #[trigger] graph.succs(c) == Seq::<u128>::empty(),
            forall|a: Node, b: Node| #[trigger] graph.node_edge(a, b) == ((a.kind() == NodeType::Start && bm.start_edge(b))
                || (a.kind() == NodeType::End && exists|xx: int| 0 <= xx < x && #[trigger] bm.down_entry(xx, b))),
        decreases bm.full_width - x,
    {
        add_down_entry(&mut graph, bm, x);
        proof {
            assert forall|a: Node, b: Node| #[trigger] graph.node_edge(a, b) == ((a.kind() == NodeType::Start && bm.start_edge(b))
                || (a.kind() == NodeType::End && exists|xx: int| 0 <= xx < x + 1 && #[trigger] bm.down_entry(xx, b))) by {
                if a.kind() == NodeType::End && exists|xx: int| 0 <= xx < x + 1 && #[trigger] bm.down_entry(xx, b) {
                    let xx = choose|xx: int| 0 <= xx < x + 1 && #[trigger] bm.down_entry(xx, b);
                    if xx < x {
                        assert(exists|xx: int| 0 <= xx < x && #[trigger] bm.down_entry(xx, b));
                    }
                }
            }
        }
        x += 1;
    }
    proof {
        assert forall|a: Node, b: Node| #[trigger] graph.node_edge(a, b) == bm.partial_edge(0, 0, 0, a, b) by {}
    }
    let h = bm.height();
    let mut y: i32 = 0;
    while y < h
        invariant
            graph_map_ok(bm),
            h == bm.spec_height(),
            0 <= y <= h,
            forall|c: u128| c != 0 && c != 1 ==> #[trigger] graph.succs(c).len() <= 4,
            forall|p: CoordPos| p.y >= y ==> #[trigger] graph.succs(Node::spec_pos(p).spec_key()) == Seq::<u128>::empty(),
            forall|a: Node, b: Node| #[trigger] graph.node_edge(a, b) == bm.partial_edge(y as int, 0, 0, a, b),
        decreases h - y,
    {
        let mut x: i32 = 0;
        while x < bm.full_width
            invariant
                graph_map_ok(bm),
                h == bm.spec_height(),
                0 <= y < h,
                0 <= x <= bm.full_width,
                forall|c: u128| c != 0 && c != 1 ==> #[trigger] graph.succs(c).len() <= 4,
                forall|p: CoordPos| (p.y > y || (p.y == y && p.x >= x)) ==> #[trigger] graph.succs(Node::spec_pos(p).spec_key()) == Seq::<u128>::empty(),
                forall|a: Node, b: Node| #[trigger] graph.node_edge(a, b) == bm.partial_edge(y as int, x as int, 0, a, b),
            decreases bm.full_width - x,
        {
            let pos = CoordPos::new(x, y);
            if bm.get(pos) {
                proof {
                    assert forall|a: Node, b: Node| #[trigger] graph.node_edge(a, b) == bm.partial_edge(y as int, x + 1, 0, a, b) by {
                        if let NodeType::Pos(p) = a.kind() {
                            if p == pos {
                                assert(!bm.cell_ok(p.x as int, p.y as int));
                            }
                        }
                    }
                }
                x += 1;
                continue;
            }
            let mut j: usize = 0;
            while j < 4
                invariant
                    graph_map_ok(bm),
                    h == bm.spec_height(),
                    0 <= y < h,
                    0 <= x < bm.full_width,
                    pos.x == x,
                    pos.y == y,
                    bm.cell_ok(x as int, y as int),
                    j <= 4,
                    graph.succs(Node::spec_pos(pos).spec_key()).len() <= j,
                    forall|c: u128| c != 0 && c != 1 && c != Node::spec_pos(pos).spec_key() ==> #[trigger] graph.succs(c).len() <= 4,
                    forall|p: CoordPos| (p.y > y || (p.y == y && p.x > x)) ==> #[trigger] graph.succs(Node::spec_pos(p).spec_key()) == Seq::<u128>::empty(),
                    forall|a: Node, b: Node| #[trigger] graph.node_edge(a, b) == bm.partial_edge(y as int, x as int, j as int, a, b),
                decreases 4 - j,
            {
                let dir = ALL_INPUTS[j];
                proof {
                    assert(dir == dir_at(j as int));
                }
                let ghost g0 = graph;
                add_slide(&mut graph, bm, pos, dir);
                proof {
                    assert forall|p: CoordPos| (p.y > y || (p.y == y && p.x > x)) implies #[trigger] graph.succs(Node::spec_pos(p).spec_key()) == Seq::<u128>::empty() by {
                        if Node::spec_pos(p).spec_key() == Node::spec_pos(pos).spec_key() {
                            lemma_key_injective(Node::spec_pos(p), Node::spec_pos(pos));
                        }
                    }
                    assert forall|a: Node, b: Node| #[trigger] graph.node_edge(a, b) == bm.partial_edge(y as int, x as int, j + 1, a, b) by {
                        if let NodeType::Pos(p) = a.kind() {
                            if p == pos {
                                if b != a && exists|jj: int| 0 <= jj < j + 1 && #[trigger] bm.slide_edge(p.x as int, p.y as int, dir_at(jj), b) {
                                    let jj = choose|jj: int| 0 <= jj < j + 1 && #[trigger] bm.slide_edge(p.x as int, p.y as int, dir_at(jj), b);
                                    if jj < j {
                                        assert(g0.node_edge(a, b));
                                    }
                                }
                            }
                        }
                    }
                }
                j += 1;
            }
            proof {
                assert forall|a: Node, b: Node| #[trigger] graph.node_edge(a, b) == bm.partial_edge(y as int, x + 1, 0, a, b) by {}
                assert forall|c: u128| c != 0 && c != 1 implies #[trigger] graph.succs(c).len() <= 4 by {}
            }
            x += 1;
        }
        proof {
            assert forall|a: Node, b: Node| #[trigger] graph.node_edge(a, b) == bm.partial_edge(y + 1, 0, 0, a, b) by {
                if let NodeType::Pos(p) = a.kind() {
                    if p.y == y && p.x >= x {
                        assert(!bm.cell_ok(p.x as int, p.y as int));
                    }
                }
            }
        }
        y += 1;
    }
    proof {
        assert forall|a: Node, b: Node| #[trigger] graph.node_edge(a, b) == bm.edge_spec(a, b) by {
            if let NodeType::Pos(p) = a.kind() {
                if p.y >= h {
                    assert(!bm.cell_ok(p.x as int, p.y as int));
                }
            }
        }
    }
    graph
}


/// A set of graph nodes, held by their keys.
#[derive(Debug)]
pub struct NodeSet {
    inner: BTreeSet<u128>,
}

impl View for NodeSet {
    type V = Set<u128>;

    closed spec fn view(&self) -> Set<u128> {
        self.inner@
    }
}

impl NodeSet {
    #[verifier::type_invariant]
    closed spec fn inv(self) -> bool {
        self.inner@.finite()
    }

    pub fn contains(&self, n: &Node) -> (r: bool)
        ensures
            r == self@.contains(n.spec_key()),
    {
        let k = n.key();
        self.inner.contains(&k)
    }

    pub fn len(&self) -> (r: usize)
        ensures
            r == self@.len(),
    {
        self.inner.len()
    }

    pub fn is_empty(&self) -> (r: bool)
        ensures
            r == (self@.len() == 0),
    {
        proof { use_type_invariant(self); }
        let r = self.inner.is_empty();
        proof {
            if !r {
                let k = self.inner@.choose();
                assert(self.inner@.contains(k));
            }
        }
        r
    }
}

impl IcyGraph {
    /// `p` follows edges of the graph.
    pub open spec fn is_path(&self, p: Seq<u128>) -> bool {
        &&& p.len() >= 1
        &&& forall|i: int| 0 <= i < p.len() - 1 ==> #[trigger] self.has_edge(p[i], p[i + 1])
    }

    /// Following edges from `a` can lead to `b`.
    pub open spec fn reaches(&self, a: u128, b: u128) -> bool {
        exists|p: Seq<u128>| #[trigger] self.is_path(p) && p[0] == a && p.last() == b
    }

    pub closed spec fn sources(&self) -> Set<u128> {
        self.edges@.dom()
    }
}

proof fn lemma_reaches_refl(g: &IcyGraph, a: u128)
    ensures
        g.reaches(a, a),
{
    assert(g.is_path(seq![a]));
}

proof fn lemma_reaches_step(g: &IcyGraph, a: u128, b: u128, c: u128)
    requires
        g.reaches(a, b),
        g.has_edge(b, c),
    ensures
        g.reaches(a, c),
{
    let p = choose|p: Seq<u128>| #[trigger] g.is_path(p) && p[0] == a && p.last() == b;
    let q = p.push(c);
    assert forall|i: int| 0 <= i < q.len() - 1 implies #[trigger] g.has_edge(q[i], q[i + 1]) by {
        if i < p.len() - 1 {
            assert(g.has_edge(p[i], p[i + 1]));
        }
    }
    assert(g.is_path(q));
}

proof fn lemma_path_prefix_in(g: &IcyGraph, s: Set<u128>, p: Seq<u128>, i: int)
    requires
        g.is_path(p),
        0 <= i < p.len(),
        s.contains(p[0]),
        forall|x: u128, y: u128| s.contains(x) && #[trigger] g.has_edge(x, y) ==> s.contains(y),
    ensures
        s.contains(p[i]),
    decreases i,
{
    if i > 0 {
        lemma_path_prefix_in(g, s, p, i - 1);
        assert(g.has_edge(p[i - 1], p[i - 1 + 1]));
    }
}

/// A set that holds `a` and is closed under edges holds everything `a` reaches.
proof fn lemma_closed_holds_reach(g: &IcyGraph, s: Set<u128>, a: u128, b: u128)
    requires
        s.contains(a),
        forall|x: u128, y: u128| s.contains(x) && #[trigger] g.has_edge(x, y) ==> s.contains(y),
        g.reaches(a, b),
    ensures
        s.contains(b),
{
    let p = choose|p: Seq<u128>| #[trigger] g.is_path(p) && p[0] == a && p.last() == b;
    lemma_path_prefix_in(g, s, p, p.len() - 1);
}

impl IcyGraph {
    /// The successor keys of `k`, in insertion order.
    fn succ_list(&self, k: u128) -> (r: Option<&AdjacencyList>)
        ensures
            match r {
                Some(v) => self.edges@.contains_key(k) && adjacency_items(*v) == self.succs(k),
                None => !self.edges@.contains_key(k) && self.succs(k) == Seq::<u128>::empty(),
            },
    {
        self.edges.get(&k)
    }

    /// Every node that can be reached from the entry, the entry included.
    pub fn mark_forward_from_start(&self) -> (marked: NodeSet)
        ensures
            forall|k: u128| #[trigger] marked@.contains(k) <==> self.reaches(0u128, k),
    {
        let mut marked: BTreeSet<u128> = BTreeSet::new();
        marked.insert(0u128);
        let mut wavefront: Vec<u128> = Vec::new();
        wavefront.push(0u128);
        proof {
            lemma_reaches_refl(self, 0u128);
            assert(self.sources().finite());
            assert(wavefront@[0] == 0u128);
            assert(wavefront@.contains(0u128));
            assert forall|k: u128| #[trigger] marked@.contains(k) implies k == 0u128 by {}
        }
        while !wavefront.is_empty()
            invariant
                marked@.finite(),
                self.sources().finite(),
                marked@.contains(0u128),
                forall|k: u128| #[trigger] marked@.contains(k) ==> self.reaches(0u128, k),
                forall|k: u128| #[trigger] wavefront@.contains(k) ==> marked@.contains(k),
                forall|k: u128, s: u128| marked@.contains(k) && !wavefront@.contains(k) && #[trigger] self.has_edge(k, s) ==> marked@.contains(s),
            decreases
                3 * self.sources().difference(marked@).len() + (if exists|k: u128| #[trigger] wavefront@.contains(k) && self.sources().contains(k) {
                    2int
                } else {
                    0int
                }) + (if wavefront@.len() > 0 {
                    1int
                } else {
                    0int
                }),
        {
            let ghost marked0 = marked@;
            let ghost w0 = wavefront@;
            let mut new_wavefront: Vec<u128> = Vec::new();
            let mut w: usize = 0;
            while w < wavefront.len()
                invariant
                    marked@.finite(),
                    self.sources().finite(),
                    w0 == wavefront@,
                    w <= wavefront@.len(),
                    marked0.subset_of(marked@),
                    marked0.contains(0u128),
                    forall|k: u128| #[trigger] marked@.contains(k) ==> self.reaches(0u128, k),
                    forall|k: u128| #[trigger] marked@.contains(k) <==> (marked0.contains(k) || new_wavefront@.contains(k)),
                    forall|k: u128| #[trigger] new_wavefront@.contains(k) ==> !marked0.contains(k),
                    forall|i: int, s: u128| 0 <= i < w && #[trigger] self.has_edge(wavefront@[i], s) ==> marked@.contains(s),
                    forall|k: u128| #[trigger] w0.contains(k) ==> marked0.contains(k),
                    new_wavefront@.len() > 0 ==> exists|i: int| 0 <= i < w && #[trigger] self.succs(wavefront@[i]).len() > 0,
                decreases wavefront@.len() - w,
            {
                let nid = wavefront[w];
                let ghost marked_w = marked@;
                let ghost nw_w = new_wavefront@;
                proof {
                    assert(w0.contains(nid));
                }
                match self.succ_list(nid) {
                    Some(edges) => {
                        let n = adjacency_len(edges);
                        let mut t: usize = 0;
                        while t < n
                            invariant
                                marked@.finite(),
                                self.sources().finite(),
                                n == self.succs(nid).len(),
                                adjacency_items(*edges) == self.succs(nid),
                                t <= n,
                                marked0.subset_of(marked@),
                                marked_w.subset_of(marked@),
                                marked0.contains(nid),
                                nw_w.len() > 0 ==> exists|i: int| 0 <= i < w && #[trigger] self.succs(wavefront@[i]).len() > 0,
                                nw_w.len() <= new_wavefront@.len(),
                                new_wavefront@.len() > nw_w.len() ==> n > 0,
                                forall|k: u128| #[trigger] marked@.contains(k) ==> self.reaches(0u128, k),
                                forall|k: u128| #[trigger] marked@.contains(k) <==> (marked0.contains(k) || new_wavefront@.contains(k)),
                                forall|k: u128| #[trigger] new_wavefront@.contains(k) ==> !marked0.contains(k),
                                forall|i: int| 0 <= i < t ==> marked@.contains(#[trigger] self.succs(nid)[i]),
                            decreases n - t,
                        {
                            let e = adjacency_get(edges, t);
                            proof {
                                assert(self.has_edge(nid, e));
                                lemma_reaches_step(self, 0u128, nid, e);
                            }
                            let ghost m_before = marked@;
                            let ghost nw_before = new_wavefront@;
                            if marked.insert(e) {
                                new_wavefront.push(e);
                                proof {
                                    assert(!m_before.contains(e));
                                    assert forall|k: u128| #[trigger] marked@.contains(k) <==> (marked0.contains(k) || new_wavefront@.contains(k)) by {
                                        if k == e {
                                            assert(new_wavefront@[new_wavefront@.len() - 1] == e);
                                        }
                                    }
                                }
                            } else {
                                proof {
                                    assert(marked@ =~= m_before);
                                }
                            }
                            proof {
                                assert forall|i: int| 0 <= i < t + 1 implies marked@.contains(#[trigger] self.succs(nid)[i]) by {
                                    if i < t {
                                        assert(m_before.contains(self.succs(nid)[i]));
                                    }
                                }
                            }
                            t += 1;
                        }
                        proof {
                            assert forall|s: u128| #[trigger] self.has_edge(nid, s) implies marked@.contains(s) by {
                                let i = choose|i: int| 0 <= i < self.succs(nid).len() && self.succs(nid)[i] == s;
                            }
                        }
                    },
                    None => {},
                }
                proof {
                    assert forall|i: int, s: u128| 0 <= i < w + 1 && #[trigger] self.has_edge(wavefront@[i], s) implies marked@.contains(s) by {
                        if i < w {
                            assert(marked_w.contains(s));
                        }
                    }
                    if new_wavefront@.len() > 0 {
                        if exists|i: int| 0 <= i < w && #[trigger] self.succs(wavefront@[i]).len() > 0 {
                            let i = choose|i: int| 0 <= i < w && #[trigger] self.succs(wavefront@[i]).len() > 0;
                            assert(self.succs(wavefront@[i]).len() > 0);
                        } else {
                            assert(self.succs(wavefront@[w as int]).len() > 0);
                        }
                    }
                }
                w += 1;
            }
            proof {
                // the measure decreases
                let d0 = self.sources().difference(marked0);
                let d1 = self.sources().difference(marked@);
                assert(d1.subset_of(d0));
                vstd::set_lib::lemma_len_subset(d1, d0);
                if exists|k: u128| #[trigger] new_wavefront@.contains(k) && self.sources().contains(k) {
                    let k = choose|k: u128| #[trigger] new_wavefront@.contains(k) && self.sources().contains(k);
                    assert(d0.contains(k) && !d1.contains(k));
                    assert(d1.subset_of(d0.remove(k)));
                    vstd::set_lib::lemma_len_subset(d1, d0.remove(k));
                }
                if new_wavefront@.len() > 0 {
                    let i = choose|i: int| 0 <= i < w0.len() && #[trigger] self.succs(w0[i]).len() > 0;
                    assert(w0.contains(w0[i]));
                    assert(self.sources().contains(w0[i]));
                    assert(w0.len() > 0);
                }
                assert forall|k: u128, s: u128| marked@.contains(k) && !new_wavefront@.contains(k) && #[trigger] self.has_edge(k, s) implies marked@.contains(s) by {
                    if w0.contains(k) {
                        let i = choose|i: int| 0 <= i < w0.len() && w0[i] == k;
                        assert(self.has_edge(w0[i], s));
                    }
                }
            }
            wavefront = new_wavefront;
        }
        proof {
            assert forall|k: u128| self.reaches(0u128, k) implies #[trigger] marked@.contains(k) by {
                lemma_closed_holds_reach(self, marked@, 0u128, k);
            }
        }
        NodeSet { inner: marked }
    }
}


impl IcyGraph {
    /// `p` leads to the entry, every node but the last lying in `s`.
    pub open spec fn is_back_path(&self, s: Set<u128>, p: Seq<u128>) -> bool {
        &&& self.is_path(p)
        &&& p.last() == 0u128
        &&& forall|i: int| 0 <= i < p.len() - 1 ==> s.contains(#[trigger] p[i])
    }

    /// From `k` the entry can be reached through nodes of `s` alone.
    pub open spec fn back_reaches(&self, s: Set<u128>, k: u128) -> bool {
        exists|p: Seq<u128>| #[trigger] self.is_back_path(s, p) && p[0] == k
    }
}

proof fn lemma_back_step(g: &IcyGraph, s: Set<u128>, k: u128, n: u128)
    requires
        s.contains(k),
        g.has_edge(k, n),
        n == 0u128 || g.back_reaches(s, n),
    ensures
        g.back_reaches(s, k),
{
    if n == 0u128 {
        let p = seq![k, n];
        assert(g.has_edge(p[0int], p[1int]));
        assert(g.is_back_path(s, p));
    } else {
        let p = choose|p: Seq<u128>| #[trigger] g.is_back_path(s, p) && p[0] == n;
        let q = seq![k].add(p);
        assert forall|i: int| 0 <= i < q.len() - 1 implies #[trigger] g.has_edge(q[i], q[i + 1]) by {
            if i > 0 {
                assert(q[i] == p[i - 1] && q[i + 1] == p[i - 1 + 1]);
                assert(g.has_edge(p[i - 1], p[i - 1 + 1]));
            }
        }
        assert forall|i: int| 0 <= i < q.len() - 1 implies s.contains(#[trigger] q[i]) by {
            if i > 0 {
                assert(q[i] == p[i - 1]);
            }
        }
        assert(g.is_back_path(s, q));
    }
}

/// No edge leaves `keep` into `gone` or the entry: then nothing in `keep` leads to the entry
/// through `keep` and `gone`.
proof fn lemma_no_back_path(g: &IcyGraph, s: Set<u128>, keep: Set<u128>, gone: Set<u128>, p: Seq<u128>, i: int)
    requires
        g.is_back_path(s, p),
        0 <= i < p.len(),
        forall|k: u128| #[trigger] s.contains(k) ==> keep.contains(k) || gone.contains(k),
        forall|k: u128, n: u128| keep.contains(k) && (gone.contains(n) || n == 0u128) && #[trigger] g.has_edge(k, n) ==> false,
        !keep.contains(0u128),
    ensures
        !keep.contains(p[i]),
    decreases p.len() - i,
{
    if i < p.len() - 1 {
        lemma_no_back_path(g, s, keep, gone, p, i + 1);
        assert(g.has_edge(p[i], p[i + 1]));
        if i + 1 < p.len() - 1 {
            assert(s.contains(p[i + 1]));
        }
    }
}

impl IcyGraph {
    /// Removes the entry and the exit from `marked`, then every node of it from which the entry
    /// can be reached through nodes of `marked` alone.
    pub fn unmark_inverted_from_start(&self, marked: &mut NodeSet)
        ensures
            forall|k: u128| #[trigger] final(marked)@.contains(k) <==> (old(marked)@.contains(k) && k != 0u128 && k != 1u128
                && !self.back_reaches(old(marked)@.remove(0u128).remove(1u128), k)),
    {
        proof { use_type_invariant(&*marked); }
        let ghost m0 = marked@.remove(0u128).remove(1u128);
        let mut inner: BTreeSet<u128> = BTreeSet::new();
        std::mem::swap(&mut inner, &mut marked.inner);
        inner.remove(&0u128);
        inner.remove(&1u128);
        let mut wavefront: Vec<u128> = Vec::new();
        wavefront.push(0u128);
        proof {
            assert(inner@ =~= m0);
            assert(wavefront@[0] == 0u128);
        }
        while !wavefront.is_empty()
            invariant
                inner@.finite(),
                inner@.subset_of(m0),
                !m0.contains(0u128),
                forall|k: u128| m0.contains(k) && !inner@.contains(k) ==> #[trigger] self.back_reaches(m0, k),
                forall|k: u128| #[trigger] wavefront@.contains(k) ==> k == 0u128 || (m0.contains(k) && !inner@.contains(k)),
                forall|k: u128, n: u128|
                    inner@.contains(k) && (n == 0u128 || (m0.contains(n) && !inner@.contains(n))) && !wavefront@.contains(n)
                        ==> !#[trigger] self.has_edge(k, n),
            decreases 2 * inner@.len() + if wavefront@.len() > 0 { 1int } else { 0int },
        {
            let ghost in0 = inner@;
            let ghost w0 = wavefront@;
            let mut new_wavefront: Vec<u128> = Vec::new();
            let mut w: usize = 0;
            while w < wavefront.len()
                invariant
                    inner@.finite(),
                    inner@.subset_of(in0),
                    in0.subset_of(m0),
                    !m0.contains(0u128),
                    w0 == wavefront@,
                    w <= wavefront@.len(),
                    forall|k: u128| m0.contains(k) && !inner@.contains(k) ==> #[trigger] self.back_reaches(m0, k),
                    forall|k: u128| #[trigger] w0.contains(k) ==> k == 0u128 || (m0.contains(k) && !in0.contains(k)),
                    forall|k: u128| #[trigger] in0.contains(k) ==> inner@.contains(k) || new_wavefront@.contains(k),
                    forall|k: u128| #[trigger] new_wavefront@.contains(k) ==> in0.contains(k) && !inner@.contains(k),
                    forall|i: int, k: u128| 0 <= i < w && inner@.contains(k) ==> !#[trigger] self.has_edge(k, wavefront@[i]),
                decreases wavefront@.len() - w,
            {
                let nid = wavefront[w];
                let ghost inner_w = inner@;
                proof {
                    assert(w0.contains(nid));
                    if nid != 0u128 {
                        assert(self.back_reaches(m0, nid));
                    }
                }
                let ghost mut done: Set<u128> = Set::empty();
                for pair in it: self.edges.iter()
                    invariant
                        forall|k: u128| #[trigger] self.edges@.contains_key(k) ==> done.contains(k) || exists|j: int| it.index() <= j < it.seq().len() && *it.seq()[j].0 == k,
                        forall|k: u128| #[trigger] done.contains(k) ==> !inner@.contains(k) || !self.has_edge(k, nid),
                        inner@.finite(),
                        inner@.subset_of(inner_w),
                        inner_w.subset_of(in0),
                        in0.subset_of(m0),
                        !m0.contains(0u128),
                        nid == 0u128 || self.back_reaches(m0, nid),
                        forall|k: u128| m0.contains(k) && !inner@.contains(k) ==> #[trigger] self.back_reaches(m0, k),
                        forall|k: u128| #[trigger] in0.contains(k) ==> inner@.contains(k) || new_wavefront@.contains(k),
                        forall|k: u128| #[trigger] new_wavefront@.contains(k) ==> in0.contains(k) && !inner@.contains(k),
                {
                    let (from, edge_set) = pair;
                    let n = adjacency_len(edge_set);
                    let ghost inner_f = inner@;
                    let mut t: usize = 0;
                    while t < n
                        invariant
                            n == adjacency_items(*edge_set).len(),
                            inner@.subset_of(inner_f),
                            t <= n,
                            inner@.finite(),
                            inner@.subset_of(inner_w),
                            inner_w.subset_of(in0),
                            in0.subset_of(m0),
                            !m0.contains(0u128),
                            nid == 0u128 || self.back_reaches(m0, nid),
                            self.edges@.contains_key(*from),
                            self.edges@[*from] == *edge_set,
                            forall|k: u128| m0.contains(k) && !inner@.contains(k) ==> #[trigger] self.back_reaches(m0, k),
                            forall|k: u128| #[trigger] in0.contains(k) ==> inner@.contains(k) || new_wavefront@.contains(k),
                            forall|k: u128| #[trigger] new_wavefront@.contains(k) ==> in0.contains(k) && !inner@.contains(k),
                            forall|i: int| 0 <= i < t && #[trigger] adjacency_items(*edge_set)[i] == nid ==> !inner@.contains(*from),
                        decreases n - t,
                    {
                        let to = adjacency_get(edge_set, t);
                        if to != nid {
                            t += 1;
                            continue;
                        }
                        let ghost i_before = inner@;
                        if inner.remove(from) {
                            new_wavefront.push(*from);
                            proof {
                                assert(self.has_edge(*from, nid));
                                lemma_back_step(self, m0, *from, nid);
                            }
                        }
                        t += 1;
                    }
                    proof {
                        if self.has_edge(*from, nid) {
                            assert(self.succs(*from) == adjacency_items(*edge_set));
                            let i = choose|i: int| 0 <= i < adjacency_items(*edge_set).len() && adjacency_items(*edge_set)[i] == nid;
                            assert(adjacency_items(*edge_set)[i] == nid);
                            assert(!inner@.contains(*from));
                        }
                        assert(inner@.subset_of(inner_f));
                        assert(*from == *it.seq()[it.index() as int].0);
                        done = done.insert(*from);
                        assert forall|k: u128| #[trigger] self.edges@.contains_key(k) implies done.contains(k) || exists|j: int| it.index() + 1 <= j < it.seq().len() && *it.seq()[j].0 == k by {
                            if !done.contains(k) {
                                let j = choose|j: int| it.index() <= j < it.seq().len() && *it.seq()[j].0 == k;
                                assert(j != it.index());
                            }
                        }
                    }
                }
                proof {
                    assert forall|i: int, k: u128| 0 <= i < w + 1 && inner@.contains(k) implies !#[trigger] self.has_edge(k, wavefront@[i]) by {
                        if i == w {
                            if self.has_edge(k, nid) {
                                assert(self.edges@.contains_key(k));
                                assert(done.contains(k));
                            }
                        } else {
                            assert(inner_w.contains(k));
                        }
                    }
                }
                w += 1;
            }
            proof {
                vstd::set_lib::lemma_len_subset(inner@, in0);
                if new_wavefront@.len() > 0 {
                    let k = new_wavefront@[0];
                    assert(new_wavefront@.contains(k));
                    assert(inner@.subset_of(in0.remove(k)));
                    vstd::set_lib::lemma_len_subset(inner@, in0.remove(k));
                }
                assert forall|k: u128, n: u128|
                    inner@.contains(k) && (n == 0u128 || (m0.contains(n) && !inner@.contains(n))) && !new_wavefront@.contains(n)
                        implies !#[trigger] self.has_edge(k, n) by {
                    if w0.contains(n) {
                        let i = choose|i: int| 0 <= i < w0.len() && w0[i] == n;
                        assert(!self.has_edge(k, wavefront@[i]));
                    } else {
                        assert(in0.contains(k));
                        if n != 0u128 && in0.contains(n) {
                            assert(new_wavefront@.contains(n));
                        }
                    }
                }
            }
            wavefront = new_wavefront;
        }
        proof {
            assert forall|k: u128| #[trigger] inner@.contains(k) implies !self.back_reaches(m0, k) by {
                if self.back_reaches(m0, k) {
                    let p = choose|p: Seq<u128>| #[trigger] self.is_back_path(m0, p) && p[0] == k;
                    lemma_no_back_path(self, m0, inner@, m0.difference(inner@), p, 0);
                }
            }
        }
        marked.inner = inner;
    }
}

} // verus!

verus! {

/// What checking an icy section gives.
#[allow(non_camel_case_types)]
#[derive(Debug, Clone, Copy, PartialEq, Eq, Structural)]
pub enum VerifyResult {
    Success,
    Bad_Trivial,
    Bad_DoesntReachEnd,
    Bad_Zork,
}

impl BlockMap {
    /// An edge of the icy graph between the keys of two nodes.
    pub open spec fn key_edge(&self, a: u128, b: u128) -> bool {
        exists|na: Node, nb: Node| na.spec_key() == a && nb.spec_key() == b && #[trigger] self.edge_spec(na, nb)
    }

    pub open spec fn key_path(&self, p: Seq<u128>) -> bool {
        &&& p.len() >= 1
        &&& forall|i: int| 0 <= i < p.len() - 1 ==> #[trigger] self.key_edge(p[i], p[i + 1])
    }

    /// Sliding from `a` can lead to `b`.
    pub open spec fn key_reaches(&self, a: u128, b: u128) -> bool {
        exists|p: Seq<u128>| #[trigger] self.key_path(p) && p[0] == a && p.last() == b
    }

    pub open spec fn key_back_path(&self, s: Set<u128>, p: Seq<u128>) -> bool {
        &&& self.key_path(p)
        &&& p.last() == 0u128
        &&& forall|i: int| 0 <= i < p.len() - 1 ==> s.contains(#[trigger] p[i])
    }

    /// From `k` sliding can lead back to the entry, through nodes of `s` alone.
    pub open spec fn key_back_reaches(&self, s: Set<u128>, k: u128) -> bool {
        exists|p: Seq<u128>| #[trigger] self.key_back_path(s, p) && p[0] == k
    }

    /// The nodes, other than the entry and the exit, that can be reached from the entry.
    pub open spec fn reached_inside(&self) -> Set<u128> {
        Set::new(|k: u128| self.key_reaches(0u128, k) && k != 0u128 && k != 1u128)
    }

    /// The verdict on the section: a slide goes straight through; the exit cannot be reached;
    /// some reachable node cannot lead back to the entry through reachable nodes; or none of
    /// these.
    pub open spec fn ice_verdict(&self) -> VerifyResult {
        if self.key_edge(0u128, 1u128) {
            VerifyResult::Bad_Trivial
        } else if !self.key_reaches(0u128, 1u128) {
            VerifyResult::Bad_DoesntReachEnd
        } else if exists|k: u128| #[trigger] self.reached_inside().contains(k)
            && !self.key_back_reaches(self.reached_inside(), k) {
            VerifyResult::Bad_Zork
        } else {
            VerifyResult::Success
        }
    }
}

/// The graph built from `bm` has exactly the edges, paths and reachability of the section.
proof fn lemma_graph_matches(g: &IcyGraph, bm: &BlockMap)
    requires
        g.edges_join_nodes(),
        forall|a: Node, b: Node| #[trigger] g.node_edge(a, b) == bm.edge_spec(a, b),
    ensures
        forall|a: u128, b: u128| #[trigger] g.has_edge(a, b) == bm.key_edge(a, b),
        forall|a: u128, b: u128| #[trigger] g.reaches(a, b) == bm.key_reaches(a, b),
        forall|s: Set<u128>, k: u128| #[trigger] g.back_reaches(s, k) == bm.key_back_reaches(s, k),
{
    assert forall|a: u128, b: u128| #[trigger] g.has_edge(a, b) == bm.key_edge(a, b) by {
        if g.has_edge(a, b) {
            let na = choose|n: Node| #[trigger] n.spec_key() == a;
            let nb = choose|n: Node| #[trigger] n.spec_key() == b;
            assert(g.node_edge(na, nb));
        }
        if bm.key_edge(a, b) {
            let (na, nb) = choose|na: Node, nb: Node| na.spec_key() == a && nb.spec_key() == b && #[trigger] bm.edge_spec(na, nb);
            assert(g.node_edge(na, nb));
        }
    }
    assert forall|p: Seq<u128>| #[trigger] g.is_path(p) == bm.key_path(p) by {
        if g.is_path(p) {
            assert forall|i: int| 0 <= i < p.len() - 1 implies #[trigger] bm.key_edge(p[i], p[i + 1]) by {
                assert(g.has_edge(p[i], p[i + 1]));
            }
        }
        if bm.key_path(p) {
            assert forall|i: int| 0 <= i < p.len() - 1 implies #[trigger] g.has_edge(p[i], p[i + 1]) by {
                assert(bm.key_edge(p[i], p[i + 1]));
            }
        }
    }
    assert forall|a: u128, b: u128| #[trigger] g.reaches(a, b) == bm.key_reaches(a, b) by {
        if g.reaches(a, b) {
            let p = choose|p: Seq<u128>| #[trigger] g.is_path(p) && p[0] == a && p.last() == b;
            assert(bm.key_path(p));
        }
        if bm.key_reaches(a, b) {
            let p = choose|p: Seq<u128>| #[trigger] bm.key_path(p) && p[0] == a && p.last() == b;
            assert(g.is_path(p));
        }
    }
    assert forall|s: Set<u128>, k: u128| #[trigger] g.back_reaches(s, k) == bm.key_back_reaches(s, k) by {
        if g.back_reaches(s, k) {
            let p = choose|p: Seq<u128>| #[trigger] g.is_back_path(s, p) && p[0] == k;
            assert(g.is_path(p));
            assert(bm.key_back_path(s, p));
        }
        if bm.key_back_reaches(s, k) {
            let p = choose|p: Seq<u128>| #[trigger] bm.key_back_path(s, p) && p[0] == k;
            assert(bm.key_path(p));
            assert(g.is_back_path(s, p));
        }
    }
}

impl IcyGraph {
    /// There is an edge from key `from` to key `to`.
    fn edge_exists(&self, from: u128, to: u128) -> (r: bool)
        ensures
            r == self.has_edge(from, to),
    {
        match self.succ_list(from) {
            None => false,
            Some(list) => {
                let n = adjacency_len(list);
                let mut t: usize = 0;
                while t < n
                    invariant
                        n == adjacency_items(*list).len(),
                        adjacency_items(*list) == self.succs(from),
                        t <= n,
                        forall|i: int| 0 <= i < t ==> #[trigger] adjacency_items(*list)[i] != to,
                    decreases n - t,
                {
                    if adjacency_get(list, t) == to {
                        assert(adjacency_items(*list)[t as int] == to);
                        return true;
                    }
                    t += 1;
                }
                false
            },
        }
    }
}

/// Checks an icy section on its graph of slides: it must not let a slide go straight through,
/// must let the exit be reached, and must let every node reached lead back to the entry.
pub fn verify_ice_graph(block_map: &BlockMap) -> (r: VerifyResult)
    requires
        graph_map_ok(block_map),
    ensures
        r == block_map.ice_verdict(),
{
    let graph = build_graph(block_map);
    proof {
        use_type_invariant(&graph);
        lemma_graph_matches(&graph, block_map);
    }
    if graph.edge_exists(Node::start().key(), Node::end().key()) {
        return VerifyResult::Bad_Trivial;
    }
    let mut marked = graph.mark_forward_from_start();
    if !marked.contains(&Node::end()) {
        return VerifyResult::Bad_DoesntReachEnd;
    }
    let ghost m0 = marked@;
    graph.unmark_inverted_from_start(&mut marked);
    proof {
        let inside = block_map.reached_inside();
        assert(m0.remove(0u128).remove(1u128) =~= inside);
        assert forall|k: u128| #[trigger] marked@.contains(k) <==> (inside.contains(k) && !block_map.key_back_reaches(inside, k)) by {}
    }
    if !marked.is_empty() {
        proof {
            let k = marked@.choose();
            assert(marked@.contains(k));
        }
        VerifyResult::Bad_Zork
    } else {
        proof {
            use_type_invariant(&marked);
            let inside = block_map.reached_inside();
            assert forall|k: u128| #[trigger] inside.contains(k) implies block_map.key_back_reaches(inside, k) by {
                if !block_map.key_back_reaches(inside, k) {
                    assert(marked@.contains(k));
                    vstd::set_lib::lemma_set_empty_equivalency_len(marked@);
                }
            }
        }
        VerifyResult::Success
    }
}


/// Two block maps with the same sizes and the same rows get the same verdict.
pub proof fn lemma_verdict_by_rows(m1: &BlockMap, m2: &BlockMap)
    requires
        m1.full_width == m2.full_width,
        m1.wall_width == m2.wall_width,
        m1.inner@ == m2.inner@,
    ensures
        m1.ice_verdict() == m2.ice_verdict(),
{
    assert forall|x: int, y: int| #[trigger] m1.blocked(x, y) == m2.blocked(x, y) by {}
    assert forall|x: int, k: int| #[trigger] m1.free_from_bottom(x, k) == m2.free_from_bottom(x, k) by {
        assert forall|i: int| 0 <= i < k implies m1.blocked(x, m1.spec_height() - 1 - i) == #[trigger] m2.blocked(x, m2.spec_height() - 1 - i) by {}
    }
    assert forall|x: int, k: int| #[trigger] m1.free_from_top(x, k) == m2.free_from_top(x, k) by {
        assert forall|i: int| 0 <= i < k implies m1.blocked(x, i) == #[trigger] m2.blocked(x, i) by {}
    }
    assert forall|x: int, y: int, d: Input, k: int| #[trigger] m1.free_run(x, y, d, k) == m2.free_run(x, y, d, k) by {
        assert forall|i: int| 1 <= i <= k implies m1.blocked(sx(x, d, i), sy(y, d, i)) == #[trigger] m2.blocked(sx(x, d, i), sy(y, d, i)) by {}
    }
    assert forall|x: int, b: Node| #[trigger] m1.up_entry(x, b) == m2.up_entry(x, b) by {
        if m1.up_entry(x, b) {
            let k = choose|k: int| 0 <= k <= m1.spec_height() && #[trigger] m1.free_from_bottom(x, k) && if k == m1.spec_height() {
                b.kind() == NodeType::End
            } else {
                m1.blocked(x, m1.spec_height() - 1 - k) && k >= 1 && b.kind() == pos_node(x, m1.spec_height() - k)
            };
            assert(m2.free_from_bottom(x, k));
        }
        if m2.up_entry(x, b) {
            let k = choose|k: int| 0 <= k <= m2.spec_height() && #[trigger] m2.free_from_bottom(x, k) && if k == m2.spec_height() {
                b.kind() == NodeType::End
            } else {
                m2.blocked(x, m2.spec_height() - 1 - k) && k >= 1 && b.kind() == pos_node(x, m2.spec_height() - k)
            };
            assert(m1.free_from_bottom(x, k));
        }
    }
    assert forall|x: int, b: Node| #[trigger] m1.down_entry(x, b) == m2.down_entry(x, b) by {
        if m1.down_entry(x, b) {
            let k = choose|k: int| 0 <= k <= m1.spec_height() && #[trigger] m1.free_from_top(x, k) && if k == m1.spec_height() {
                b.kind() == NodeType::Start
            } else {
                m1.blocked(x, k) && k >= 1 && b.kind() == pos_node(x, k - 1)
            };
            assert(m2.free_from_top(x, k));
        }
        if m2.down_entry(x, b) {
            let k = choose|k: int| 0 <= k <= m2.spec_height() && #[trigger] m2.free_from_top(x, k) && if k == m2.spec_height() {
                b.kind() == NodeType::Start
            } else {
                m2.blocked(x, k) && k >= 1 && b.kind() == pos_node(x, k - 1)
            };
            assert(m1.free_from_top(x, k));
        }
    }
    assert forall|px: int, py: int, d: Input, b: Node| #[trigger] m1.slide_edge(px, py, d, b) == m2.slide_edge(px, py, d, b) by {
        if m1.slide_edge(px, py, d, b) {
            let k = choose|k: int| k >= 1 && #[trigger] m1.free_run(px, py, d, k - 1) && m1.stop_at(px, py, d, k, b);
            assert(m2.free_run(px, py, d, k - 1) && m2.stop_at(px, py, d, k, b));
        }
        if m2.slide_edge(px, py, d, b) {
            let k = choose|k: int| k >= 1 && #[trigger] m2.free_run(px, py, d, k - 1) && m2.stop_at(px, py, d, k, b);
            assert(m1.free_run(px, py, d, k - 1) && m1.stop_at(px, py, d, k, b));
        }
    }
    assert forall|a: Node, b: Node| #[trigger] m1.edge_spec(a, b) == m2.edge_spec(a, b) by {
        match a.kind() {
            NodeType::Start => {
                if m1.edge_spec(a, b) {
                    let x = choose|x: int| 0 <= x < m1.full_width && #[trigger] m1.up_entry(x, b);
                    assert(m2.up_entry(x, b));
                }
                if m2.edge_spec(a, b) {
                    let x = choose|x: int| 0 <= x < m2.full_width && #[trigger] m2.up_entry(x, b);
                    assert(m1.up_entry(x, b));
                }
            },
            NodeType::End => {
                if m1.edge_spec(a, b) {
                    let x = choose|x: int| 0 <= x < m1.full_width && #[trigger] m1.down_entry(x, b);
                    assert(m2.down_entry(x, b));
                }
                if m2.edge_spec(a, b) {
                    let x = choose|x: int| 0 <= x < m2.full_width && #[trigger] m2.down_entry(x, b);
                    assert(m1.down_entry(x, b));
                }
            },
            NodeType::Pos(p) => {
                if m1.edge_spec(a, b) {
                    let j = choose|j: int| 0 <= j < 4 && #[trigger] m1.slide_edge(p.x as int, p.y as int, dir_at(j), b);
                    assert(m2.slide_edge(p.x as int, p.y as int, dir_at(j), b));
                }
                if m2.edge_spec(a, b) {
                    let j = choose|j: int| 0 <= j < 4 && #[trigger] m2.slide_edge(p.x as int, p.y as int, dir_at(j), b);
                    assert(m1.slide_edge(p.x as int, p.y as int, dir_at(j), b));
                }
            },
        }
    }
    assert forall|a: u128, b: u128| #[trigger] m1.key_edge(a, b) == m2.key_edge(a, b) by {
        if m1.key_edge(a, b) {
            let (na, nb) = choose|na: Node, nb: Node| na.spec_key() == a && nb.spec_key() == b && #[trigger] m1.edge_spec(na, nb);
            assert(m2.edge_spec(na, nb));
        }
        if m2.key_edge(a, b) {
            let (na, nb) = choose|na: Node, nb: Node| na.spec_key() == a && nb.spec_key() == b && #[trigger] m2.edge_spec(na, nb);
            assert(m1.edge_spec(na, nb));
        }
    }
    assert forall|p: Seq<u128>| #[trigger] m1.key_path(p) == m2.key_path(p) by {
        if p.len() >= 1 {
            assert forall|i: int| 0 <= i < p.len() - 1 implies m1.key_edge(p[i], p[i + 1]) == #[trigger] m2.key_edge(p[i], p[i + 1]) by {}
        }
    }
    assert forall|a: u128, b: u128| #[trigger] m1.key_reaches(a, b) == m2.key_reaches(a, b) by {
        if m1.key_reaches(a, b) {
            let p = choose|p: Seq<u128>| #[trigger] m1.key_path(p) && p[0] == a && p.last() == b;
            assert(m2.key_path(p));
        }
        if m2.key_reaches(a, b) {
            let p = choose|p: Seq<u128>| #[trigger] m2.key_path(p) && p[0] == a && p.last() == b;
            assert(m1.key_path(p));
        }
    }
    assert(m1.reached_inside() =~= m2.reached_inside());
    let s = m1.reached_inside();
    assert forall|p: Seq<u128>| #[trigger] m1.key_back_path(s, p) == m2.key_back_path(s, p) by {
        assert(m1.key_path(p) == m2.key_path(p));
    }
    assert forall|k: u128| #[trigger] m1.key_back_reaches(s, k) == m2.key_back_reaches(s, k) by {
        if m1.key_back_reaches(s, k) {
            let p = choose|p: Seq<u128>| #[trigger] m1.key_back_path(s, p) && p[0] == k;
            assert(m2.key_back_path(s, p));
        }
        if m2.key_back_reaches(s, k) {
            let p = choose|p: Seq<u128>| #[trigger] m2.key_back_path(s, p) && p[0] == k;
            assert(m1.key_back_path(s, p));
        }
    }
    assert(m1.key_edge(0u128, 1u128) == m2.key_edge(0u128, 1u128));
    assert(m1.key_reaches(0u128, 1u128) == m2.key_reaches(0u128, 1u128));
}

/// The verdict on any block map of width `full_width`, walls `wall_width` and rows `rows`.
pub open spec fn verdict_of(full_width: i32, wall_width: i32, rows: Seq<BitMap>) -> VerifyResult {
    (choose|m: BlockMap| m.full_width == full_width && m.wall_width == wall_width && m.inner@ == rows).ice_verdict()
}

/// The verdict on a block map depends on its sizes and rows alone.
pub proof fn lemma_verdict_of(m: &BlockMap)
    ensures
        verdict_of(m.full_width, m.wall_width, m.inner@) == m.ice_verdict(),
{
    let c = choose|c: BlockMap| c.full_width == m.full_width && c.wall_width == m.wall_width && c.inner@ == m.inner@;
    assert(m.full_width == m.full_width && m.wall_width == m.wall_width && m.inner@ == m.inner@);
    lemma_verdict_by_rows(&c, m);
}

} // verus!
