use crossy_multi_core::crossy_ruleset::{CrossyRulesetFST, GameConfig, RulesState, WarmupState};
use crossy_multi_core::game::CoordPos;
use crossy_multi_core::map::{outside_walls, BushDescr, MapInner, MapRound, ObstacleRowDescr, PathDescr, Row, RowId, RowType};
use crossy_multi_core::player_id_map::PlayerIdMap;
use froggy_rand::FroggyRand;

#[test]
fn row_ids_and_screen_rows() {
    assert_eq!(RowId::from_y(20), RowId(0));
    assert_eq!(RowId::from_y(-5), RowId(25));
    assert_eq!(RowId(25).to_y(), -5);
    for y in [-1000, -1, 0, 7, 20] {
        assert_eq!(RowId::from_y(y).to_y(), y);
    }
}

#[test]
fn starting_rows() {
    let mut round = MapRound::new(0, 0);
    assert_eq!(round.get_row(RowId(8)).row_type, RowType::StartingBarrier());
    for i in 0..8 {
        let row = round.get_row(RowId(i));
        assert_eq!(row.row_id, RowId(i));
        assert_eq!(row.row_type, RowType::Stands());
    }
}

#[test]
fn the_lobby_map_has_only_paths() {
    let mut round = MapRound::new(0, 0);
    for i in 9..120 {
        let row = round.get_row(RowId(i));
        assert_eq!(row.row_id, RowId(i));
        match row.row_type {
            RowType::Path(p) => assert!(p.wall_width >= 1 && p.wall_width <= 6),
            other => panic!("unexpected row {:?}", other),
        }
    }
}

/// The first generated row, worked out with the generator directly.
fn expected_first_row(seed: u32, round_id: u8) -> RowType {
    let rng = FroggyRand::from_hash((seed, round_id, RowId(9)));
    if seed != 0 && rng.gen_unit("gen_feature") < 0.25 {
        if rng.gen_unit("feature_type") < 0.5 {
            let dir = *rng.choose("road_initial_direction", &[true, false]);
            RowType::Road(ObstacleRowDescr { seed, inverted: dir })
        } else {
            let dir = *rng.choose("river_direction", &[true, false]);
            RowType::River(ObstacleRowDescr { seed, inverted: dir })
        }
    } else {
        let wall = (0 + *rng.choose("wall_width", &[-1, -1, 0, 0, 0, 0, 1, 1, 1])).min(6).max(1);
        let path_descr = PathDescr { wall_width: wall as u32 };
        if seed != 0 && rng.gen_unit("gen_bushes") < 0.25 {
            RowType::Bushes(BushDescr { path_descr, seed: rng.gen("bush_seed") as u32, y: RowId(9).to_y() })
        } else {
            RowType::Path(path_descr)
        }
    }
}

#[test]
fn generated_rows_follow_the_generator() {
    for seed in 1..200u32 {
        for round_id in [1u8, 2, 7] {
            let mut round = MapRound::new(seed, round_id);
            let row = round.get_row(RowId(9));
            assert_eq!(row.row_type, expected_first_row(seed, round_id), "seed {} round {}", seed, round_id);
        }
    }
}

#[test]
fn a_lobby_round_never_generates_obstacles() {
    let mut round = MapRound::new(0, 5);
    for i in 9..60 {
        assert!(!round.get_row(RowId(i)).row_type.is_dangerous());
    }
}

#[test]
fn rows_are_contiguous_and_stable() {
    let mut a = MapRound::new(12345, 2);
    let mut b = MapRound::new(12345, 2);
    // One map is asked for rows far ahead at once, the other step by step.
    let far = a.get_row(RowId(300));
    assert_eq!(far.row_id, RowId(300));
    for i in 0..=300 {
        let ra = a.get_row(RowId(i));
        let rb = b.get_row(RowId(i));
        assert_eq!(ra, rb);
        assert_eq!(ra.row_id, RowId(i));
    }
}

#[test]
fn map_rounds_are_made_on_demand() {
    let mut inner = MapInner::new(99);
    let lobby: Row = inner.get_mut(0).get_row(RowId(50));
    assert!(matches!(lobby.row_type, RowType::Path(_)));
    let r3 = inner.get_mut(3).get_row(RowId(8));
    assert_eq!(r3.row_type, RowType::StartingBarrier());
}

#[test]
fn walls_and_solid_tiles() {
    assert!(outside_walls(0, 0));
    assert!(outside_walls(19, 0));
    assert!(!outside_walls(1, 0));
    assert!(outside_walls(3, 3));
    assert!(!outside_walls(4, 3));
    assert!(outside_walls(16, 3));
    assert!(!outside_walls(15, 3));

    let lobby = RulesState::new(GameConfig::default());
    let warmup = RulesState {
        game_id: 0,
        fst: CrossyRulesetFST::RoundWarmup(WarmupState {
            remaining_us: 1,
            time_full_us: 1,
            alive_states: PlayerIdMap::new(),
            win_counts: PlayerIdMap::new(),
            round_id: 1,
        }),
        config: GameConfig::default(),
    };
    let path = Row { row_id: RowId::from_y(5), row_type: RowType::Path(PathDescr { wall_width: 2 }) };
    assert!(!path.solid(0, &lobby, CoordPos::new(0, 5)));
    assert!(path.solid(0, &warmup, CoordPos::new(2, 5)));
    assert!(!path.solid(0, &warmup, CoordPos::new(3, 5)));
    let barrier = Row { row_id: RowId::from_y(5), row_type: RowType::StartingBarrier() };
    assert!(barrier.solid(0, &warmup, CoordPos::new(10, 5)));
    assert!(!barrier.solid(0, &lobby, CoordPos::new(10, 5)));
    let road = Row { row_id: RowId::from_y(5), row_type: RowType::Road(ObstacleRowDescr { seed: 1, inverted: false }) };
    assert!(!road.solid(0, &warmup, CoordPos::new(0, 5)));
    assert!(road.row_type.is_dangerous());
    assert!(!path.row_type.is_dangerous());
}

#[test]
fn bushes_fill_the_path_between_the_walls() {
    let bushes = BushDescr { path_descr: PathDescr { wall_width: 3 }, seed: 5, y: 2 }.hydrate();
    assert_eq!(bushes.bushes, (4..16).collect::<Vec<i32>>());
}
