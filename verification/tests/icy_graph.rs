use crossy_multi_core::bitmap::BitMap;
use crossy_multi_core::game::CoordPos;
use crossy_multi_core::icy::BlockMap;
use crossy_multi_core::icy_graph::{build_graph, verify_ice_graph, Node, VerifyResult};

fn generate_map(rows: &[&str]) -> BlockMap {
    let full_width = (rows[0].len() + 2) as i32;
    let wall_width = 1;

    let mut inner = Vec::new();

    for row in rows {
        let mut row_map = BitMap::default();
        for (i, c) in row.chars().enumerate() {
            if c == 'X' || c == 'x' {
                row_map.set_bit(i as i32 + wall_width);
            }
        }

        inner.push(row_map)
    }

    BlockMap { full_width, wall_width, inner }
}

#[test]
fn icy_graph_trivial() {
    let rows = ["X X", "X X"];

    let map = generate_map(&rows);
    let graph = build_graph(&map);
    println!("{:#?}", graph);
    let marked = graph.mark_forward_from_start();
    assert!(marked.contains(&Node::end()));
}

#[test]
fn icy_graph_simple() {
    let rows = ["xX x", "x  x"];

    let map = generate_map(&rows);
    let graph = build_graph(&map);
    let mut reachable = graph.mark_forward_from_start();

    assert!(reachable.contains(&Node::end()));

    assert_eq!(2 + 2, reachable.len());

    graph.unmark_inverted_from_start(&mut reachable);
    println!("{:#?}", graph);
    assert!(reachable.is_empty());
}

#[test]
fn icy_graph_zork() {
    let rows = ["xxx xX", "x    X", "xx  xX"];

    let map = generate_map(&rows);
    let graph = build_graph(&map);

    let mut marked = graph.mark_forward_from_start();
    assert!(marked.contains(&Node::end()));
    graph.unmark_inverted_from_start(&mut marked);

    println!("{:#?}", graph);
    assert_eq!(2, marked.len());
}

#[test]
fn icy_graph_positive() {
    let rows = ["xxx   xxxx", "x    x   x", "x  x x   x", "x  x     x", "x  xxxx  x", "x        x"];

    let map = generate_map(&rows);
    let graph = build_graph(&map);

    let mut marked = graph.mark_forward_from_start();
    assert!(marked.contains(&Node::end()));
    graph.unmark_inverted_from_start(&mut marked);
    assert!(marked.is_empty());
}

#[test]
fn icy_graph_negative() {
    let rows = ["xx  xxx", "x     x", "x xx  x"];

    let map = generate_map(&rows);
    let graph = build_graph(&map);
    let marked = graph.mark_forward_from_start();
    assert!(!marked.contains(&Node::end()));
}

#[test]
fn verify_ice_graph_verdicts() {
    // A free column lets a slide go straight through.
    assert_eq!(verify_ice_graph(&generate_map(&["X X", "X X"])), VerifyResult::Bad_Trivial);
    // The exit cannot be reached.
    assert_eq!(verify_ice_graph(&generate_map(&["xx  xxx", "x     x", "x xx  x"])), VerifyResult::Bad_DoesntReachEnd);
    // Column 4 of this map is free all the way up.
    assert_eq!(verify_ice_graph(&generate_map(&["xxx xX", "x    X", "xx  xX"])), VerifyResult::Bad_Trivial);
    assert_eq!(
        verify_ice_graph(&generate_map(&["xxx   xxxx", "x    x   x", "x  x x   x", "x  x     x", "x  xxxx  x", "x        x"])),
        VerifyResult::Success
    );
}

#[test]
fn node_keys_tell_nodes_apart() {
    assert_eq!(Node::start().key(), 0);
    assert_eq!(Node::end().key(), 1);
    assert_ne!(Node::pos(CoordPos::new(1, 2)).key(), Node::pos(CoordPos::new(2, 1)).key());
    assert_eq!(Node::pos(CoordPos::new(0, 0)).key(), 2 + (1u128 << 31) * (1u128 << 32) + (1u128 << 31));
}
