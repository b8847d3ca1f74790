use std::collections::VecDeque;
use crossy_multi_core::icy::BlockMap;
use crossy_multi_core::icy_graph::{verify_ice_graph, VerifyResult};
use crossy_multi_core::map::{Row, RowId, RowType};
use crossy_multi_core::sections::{try_gen_icy_section, try_gen_lava_section};
use froggy_rand::FroggyRand;

#[test]
fn lava_section_rows() {
    let seed = 4242u64;
    let mut rows: VecDeque<Row> = VecDeque::new();
    assert!(try_gen_lava_section(seed, RowId(30), &mut rows));
    let expected = *FroggyRand::new(seed).choose("lava_len", &[3, 5, 5, 7, 7, 9]);
    assert_eq!(rows.len(), expected as usize);
    for (k, row) in rows.iter().rev().enumerate() {
        assert_eq!(row.row_id, RowId(30 + k as u32));
        match row.row_type {
            RowType::LavaRow(d) => {
                assert_eq!(d.seed, seed);
                assert_eq!(d.y, RowId(30 + k as u32).to_y());
                assert_eq!(d.path_descr.wall_width, 4);
            },
            _ => panic!("lava rows expected"),
        }
    }
}

#[test]
fn icy_section_passes_the_graph_check() {
    let seed = 12375972415461437779u64;
    let mut rows: VecDeque<Row> = VecDeque::new();
    let found = try_gen_icy_section(seed, RowId(0), &mut rows);
    if !found {
        assert!(rows.is_empty());
        return;
    }
    let height = *FroggyRand::new(seed).choose("ice_len", &[5, 7, 7, 9, 9, 13]);
    assert_eq!(rows.len(), height as usize);
    let mut inner = Vec::new();
    for (k, row) in rows.iter().rev().enumerate() {
        assert_eq!(row.row_id, RowId(k as u32));
        match row.row_type {
            RowType::IcyRow(d) => inner.push(d.blocks),
            _ => panic!("icy rows expected"),
        }
    }
    let map = BlockMap { full_width: 20, wall_width: 4, inner };
    assert_eq!(verify_ice_graph(&map), VerifyResult::Success);
}

#[test]
fn icy_sections_for_several_seeds() {
    for seed in 0..6u64 {
        let mut rows: VecDeque<Row> = VecDeque::new();
        if try_gen_icy_section(seed, RowId(40), &mut rows) {
            let inner = rows
                .iter()
                .rev()
                .map(|r| match r.row_type {
                    RowType::IcyRow(d) => d.blocks,
                    _ => panic!("icy rows expected"),
                })
                .collect();
            assert_eq!(verify_ice_graph(&BlockMap { full_width: 20, wall_width: 4, inner }), VerifyResult::Success);
        } else {
            assert!(rows.is_empty());
        }
    }
}
