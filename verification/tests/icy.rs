use crossy_multi_core::bitmap::BitMap;
use crossy_multi_core::game::{CoordPos, Input};
use crossy_multi_core::icy::{verify_ice, BlockMap, PosWithDir};

fn generate_map(rows: &[&str]) -> BlockMap {
    let full_width = (rows[0].len() + 2) as i32;
    let wall_width = 1;

    let mut inner = Vec::new();

    for row in rows {
        let mut row_map = BitMap::default();
        for (i, c) in row.chars().enumerate() {
            if c == 'X' || c == 'x' {
                row_map.set_bit(i as i32 + wall_width);
            }
        }

        inner.push(row_map)
    }

    BlockMap { full_width, wall_width, inner }
}

#[test]
fn test_pos_with_dir_roundtrip() {
    let pos_with_dir = PosWithDir { pos: CoordPos::new(12, 2), dir: Input::Left };

    let serialized = pos_with_dir.to_i32();
    assert_eq!(PosWithDir::from_i32(serialized), pos_with_dir);
}

#[test]
fn pos_with_dir_roundtrip_every_direction() {
    for dir in [Input::Up, Input::Left, Input::Right, Input::Down] {
        for (x, y) in [(0, 0), (19, 0), (3, 7), (19, 500)] {
            let p = PosWithDir { pos: CoordPos::new(x, y), dir };
            assert_eq!(PosWithDir::from_i32(p.to_i32()), p);
        }
    }
}

#[test]
fn test_points() {
    let rows = ["X XXX"];

    let map = generate_map(&rows);
    assert_eq!(map.full_width, 7);
    assert_eq!(map.wall_width, 1);
    assert!(map.get(CoordPos::new(0, 0)));
    assert!(map.get(CoordPos::new(1, 0)));
    assert!(!map.get(CoordPos::new(2, 0)));
    assert!(map.get(CoordPos::new(3, 0)));
    assert!(map.get(CoordPos::new(4, 0)));
    assert!(map.get(CoordPos::new(5, 0)));
    assert!(map.get(CoordPos::new(6, 0)));
}

#[test]
fn icy_verification_trivial() {
    let rows = ["X  X", "X  X"];

    let map = generate_map(&rows);
    assert!(verify_ice(&map));
}

#[test]
fn icy_verification_very_simple() {
    let rows = ["XX X", "X  X", "X XX"];

    let map = generate_map(&rows);
    assert!(verify_ice(&map));
}

#[test]
fn icy_verification_simple_positive() {
    let rows = ["XX XX", "X   X", "X XXX"];

    let map = generate_map(&rows);
    assert!(!verify_ice(&map));
}

#[test]
fn icy_verification_simple_negative() {
    let rows = ["XX XX", "X   X", "X XXX"];

    let map = generate_map(&rows);
    assert!(!verify_ice(&map));
}

#[test]
fn icy_verification_positive() {
    let rows = ["xxx   xxxx", "x    x   x", "x  x x   x", "x  x     x", "x  xxxx  x", "x        x"];

    let map = generate_map(&rows);
    assert!(verify_ice(&map));
}

#[test]
fn icy_verification_small_negative() {
    let rows = ["xx  xx", "x    x", "x xx x", "x    x"];

    let map = generate_map(&rows);
    assert!(!verify_ice(&map));
}

#[test]
fn icy_verification_negative() {
    let rows = ["xxx   xxxx", "x        x", "x        x", "x        x", "x  xxxx  x", "x        x"];

    let map = generate_map(&rows);
    assert!(!verify_ice(&map));
}

#[test]
fn block_map_set_and_bounds() {
    let mut map = generate_map(&["    ", "    "]);
    assert_eq!(map.height(), 2);
    assert!(!map.get(CoordPos::new(2, 1)));
    map.set(CoordPos::new(2, 1), true);
    assert!(map.get(CoordPos::new(2, 1)));
    map.set(CoordPos::new(2, 1), false);
    assert!(!map.get(CoordPos::new(2, 1)));
    // Walls, and the rows beyond the map, are blocked.
    assert!(map.get(CoordPos::new(1, 0)));
    assert!(map.get(CoordPos::new(4, 0)));
    assert!(map.get(CoordPos::new(2, -1)));
    assert!(map.get(CoordPos::new(2, 2)));
}
