use crossy_multi_core::crossy_ruleset::{GameConfig, Hazard, LobbyReadings, RulesState};
use crossy_multi_core::game::{CoordPos, Input, PlayerId, PlayerInputs, Pos, SCREEN_SIZE};
use crossy_multi_core::game_state::{GameState, MoveTable};
use crossy_multi_core::player::{MoveState, MovingState, PlayerState, MOVE_DUR};
use crossy_multi_core::player_id_map::PlayerIdMap;

fn make_gamestate(states: Vec<PlayerState>) -> GameState {
    GameState::from_server_parts(0, 0, states, RulesState::new(GameConfig::default()))
}

/// What the lobby map (round 0, which has no rivers and where nothing is solid) answers for
/// moves from the given tiles: one step, unless the step leaves the screen.
fn lobby_moves(from: &[(i32, i32)]) -> MoveTable {
    let mut moves = Vec::new();
    for &(x, y) in from {
        for dir in [Input::Up, Input::Left, Input::Right, Input::Down] {
            let to = CoordPos { x, y }.apply_input(dir);
            let answer = if to.x < 0 || to.x >= SCREEN_SIZE || to.y >= SCREEN_SIZE {
                None
            } else {
                Some(Pos::Coord(to))
            };
            moves.push((Pos::Coord(CoordPos { x, y }), dir, answer));
        }
    }
    MoveTable { moves }
}

/// The players' part of a tick, then the rules' part with nothing reported by the map.
fn simulate(world: &mut GameState, inputs: PlayerInputs, dt: u32, moves: &MoveTable) {
    world.simulate_players(Some(inputs), dt, moves);
    let hazards: PlayerIdMap<Hazard> = PlayerIdMap::new();
    world.apply_rules(dt, &hazards, LobbyReadings { raft_past_start: false, ready_time_decayed: 0 });
}

#[test]
fn move_success() {
    let players = vec![PlayerState {
        id: PlayerId(0),
        move_state: MoveState::Stationary,
        move_cooldown: 0,
        pos: Pos::new_coord(0, 0),
    }];

    let mut inputs = PlayerInputs::default();
    inputs.set(PlayerId(0), Input::Down);

    let mut world = make_gamestate(players);
    let map = lobby_moves(&[(0, 0)]);
    simulate(&mut world, inputs, 100_000, &map);

    let new_player = world.get_player(PlayerId(0)).unwrap();
    match &new_player.move_state {
        MoveState::Moving(state) => {
            assert_eq!(state.target, Pos::new_coord(0, 1));
            assert_eq!(state.remaining_us, MOVE_DUR);
        },
        _ => panic!("Not moving"),
    }
}

#[test]
fn move_not_blocked() {
    let players = vec![
        PlayerState { id: PlayerId(0), move_state: MoveState::Stationary, move_cooldown: 0, pos: Pos::new_coord(0, 0) },
        PlayerState { id: PlayerId(1), move_state: MoveState::Stationary, move_cooldown: 0, pos: Pos::new_coord(1, 0) },
    ];

    let mut inputs = PlayerInputs::default();
    inputs.set(PlayerId(0), Input::Down);

    let mut world = make_gamestate(players);
    let map = lobby_moves(&[(0, 0), (1, 0)]);
    simulate(&mut world, inputs, 100_000, &map);

    let new_player = world.get_player(PlayerId(0)).unwrap();
    match &new_player.move_state {
        MoveState::Moving(state) => {
            assert_eq!(state.target, Pos::new_coord(0, 1));
            assert_eq!(state.remaining_us, MOVE_DUR);
        },
        _ => panic!("Not moving"),
    }
}

#[test]
fn move_blocked_other_moving() {
    let players = vec![
        PlayerState { id: PlayerId(0), move_state: MoveState::Stationary, move_cooldown: 0, pos: Pos::new_coord(0, 0) },
        PlayerState {
            id: PlayerId(1),
            move_state: MoveState::Moving(MovingState::new(Pos::new_coord(1, 1))),
            move_cooldown: 0,
            pos: Pos::new_coord(0, 1),
        },
    ];

    let mut inputs = PlayerInputs::default();
    inputs.set(PlayerId(0), Input::Down);

    let mut world = make_gamestate(players);
    let map = lobby_moves(&[(0, 0), (0, 1), (1, 1)]);
    simulate(&mut world, inputs, 100_000, &map);

    let new_player = world.get_player(PlayerId(0)).unwrap();
    match new_player.move_state {
        MoveState::Moving(_) => {
            panic!("Not expected to be moving")
        },
        _ => {},
    }
}

#[test]
fn move_blocked_other_moving_to_pos() {
    let players = vec![
        PlayerState { id: PlayerId(0), move_state: MoveState::Stationary, move_cooldown: 0, pos: Pos::new_coord(0, 0) },
        PlayerState {
            id: PlayerId(1),
            move_state: MoveState::Moving(MovingState::new(Pos::new_coord(0, 1))),
            move_cooldown: 0,
            pos: Pos::new_coord(1, 1),
        },
    ];

    let mut inputs = PlayerInputs::default();
    inputs.set(PlayerId(0), Input::Down);

    let mut world = make_gamestate(players);
    let map = lobby_moves(&[(0, 0), (1, 1), (0, 1)]);
    simulate(&mut world, inputs, 10_000, &map);

    let new_player = world.get_player(PlayerId(0)).unwrap();
    match new_player.move_state {
        MoveState::Moving(_) => {
            panic!("Not expected to be moving")
        },
        _ => {},
    }
}

#[test]
fn push_moves_the_other_player() {
    let players = vec![
        PlayerState { id: PlayerId(0), move_state: MoveState::Stationary, move_cooldown: 0, pos: Pos::new_coord(5, 5) },
        PlayerState { id: PlayerId(1), move_state: MoveState::Stationary, move_cooldown: 0, pos: Pos::new_coord(5, 6) },
    ];
    let mut inputs = PlayerInputs::default();
    inputs.set(PlayerId(0), Input::Down);
    let mut world = make_gamestate(players);
    let map = lobby_moves(&[(5, 5), (5, 6), (5, 7)]);
    world.simulate_players(Some(inputs), 1_000, &map);

    let pusher = world.get_player(PlayerId(0)).unwrap();
    match pusher.move_state {
        MoveState::Moving(m) => {
            assert_eq!(m.target, Pos::new_coord(5, 6));
            assert_eq!(m.push_info.pushing, Some(PlayerId(1)));
        },
        _ => panic!("pusher should move"),
    }
    let pushed = world.get_player(PlayerId(1)).unwrap();
    match pushed.move_state {
        MoveState::Moving(m) => {
            assert_eq!(m.target, Pos::new_coord(5, 7));
            assert_eq!(m.push_info.pushed_by, Some(PlayerId(0)));
        },
        _ => panic!("pushed player should move"),
    }
    assert!(pushed.is_being_pushed());
    assert!(pushed.is_being_pushed_by(PlayerId(0)));
    assert!(!pusher.is_being_pushed());
}

#[test]
fn blocked_push_stops_the_mover() {
    // The pushed player would leave the screen.
    let players = vec![
        PlayerState { id: PlayerId(0), move_state: MoveState::Stationary, move_cooldown: 0, pos: Pos::new_coord(5, 18) },
        PlayerState { id: PlayerId(1), move_state: MoveState::Stationary, move_cooldown: 0, pos: Pos::new_coord(5, 19) },
    ];
    let mut inputs = PlayerInputs::default();
    inputs.set(PlayerId(0), Input::Down);
    let mut world = make_gamestate(players);
    let map = lobby_moves(&[(5, 18), (5, 19)]);
    world.simulate_players(Some(inputs), 1_000, &map);
    assert_eq!(world.get_player(PlayerId(0)).unwrap().move_state, MoveState::Stationary);
    assert_eq!(world.get_player(PlayerId(1)).unwrap().move_state, MoveState::Stationary);
}

#[test]
fn moving_player_lands_and_cools_down() {
    let players = vec![PlayerState {
        id: PlayerId(0),
        move_state: MoveState::Moving(MovingState::new(Pos::new_coord(3, 4))),
        move_cooldown: 0,
        pos: Pos::new_coord(3, 5),
    }];
    let mut world = make_gamestate(players);
    let map = lobby_moves(&[]);
    world.simulate_players(None, MOVE_DUR - 1, &map);
    match world.get_player(PlayerId(0)).unwrap().move_state {
        MoveState::Moving(m) => assert_eq!(m.remaining_us, 1),
        _ => panic!("still moving"),
    }
    world.simulate_players(None, 2, &map);
    let p = world.get_player(PlayerId(0)).unwrap();
    assert_eq!(p.pos, Pos::new_coord(3, 4));
    assert_eq!(p.move_state, MoveState::Stationary);
    // The microsecond left over counts against the one-microsecond cooldown.
    assert_eq!(p.move_cooldown, 0);
    assert!(p.can_move());
    assert_eq!(world.time_us, MOVE_DUR + 1);
    assert_eq!(world.frame_id, 2);
}

#[test]
fn occupied_tiles_and_pushability() {
    let players = vec![
        PlayerState { id: PlayerId(0), move_state: MoveState::Stationary, move_cooldown: 0, pos: Pos::new_coord(1, 1) },
        PlayerState {
            id: PlayerId(2),
            move_state: MoveState::Moving(MovingState::new(Pos::new_coord(2, 2))),
            move_cooldown: 0,
            pos: Pos::new_coord(2, 1),
        },
    ];
    let world = make_gamestate(players);
    assert!(world.space_occupied_with_player(Pos::new_coord(1, 1), None));
    assert!(!world.space_occupied_with_player(Pos::new_coord(1, 1), Some(PlayerId(0))));
    assert!(world.space_occupied_with_player(Pos::new_coord(2, 2), None));
    assert!(!world.space_occupied_with_player(Pos::new_coord(3, 3), None));
    let map = lobby_moves(&[(1, 1)]);
    // Player 0 cannot be pushed right: player 2 stands there.
    assert!(!world.can_push(PlayerId(0), Input::Right, &map));
    assert!(world.can_push(PlayerId(0), Input::Up, &map));
    assert_eq!(world.get_player_count(), 2);
    assert_eq!(world.get_valid_player_states().len(), 2);
}

#[test]
fn add_and_remove_players() {
    let mut world = GameState::new(GameConfig::default());
    world.add_player(PlayerId(3), Pos::new_coord(4, 4));
    assert_eq!(world.get_player_count(), 1);
    assert_eq!(world.get_player(PlayerId(3)).unwrap().pos, Pos::new_coord(4, 4));
    world.remove_player(PlayerId(3));
    assert!(world.get_player(PlayerId(3)).is_none());
    assert_eq!(world.get_round_id(), 0);
}
