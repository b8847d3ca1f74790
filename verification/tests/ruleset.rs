use crossy_multi_core::crossy_ruleset::{
    player_in_lobby_ready_zone, AliveState, CooldownState, CrossyRulesetFST, EndAllLeftState, EndWinnerState, GameConfig, Hazard,
    LobbyReadings, RaftStep, RoundState, RulesState, WarmupState, COOLDOWN_TIME_US, COUNTDOWN_TIME_US, INTRO_COUNTDOWN_TIME_US,
    WINNER_TIME_US,
};
use crossy_multi_core::game::{CoordPos, LillipadId, PlayerId, Pos};
use crossy_multi_core::player::{MoveState, PlayerState, MOVE_COOLDOWN_MAX};
use crossy_multi_core::player_id_map::PlayerIdMap;

fn player(id: u8, pos: Pos) -> PlayerState {
    PlayerState { id: PlayerId(id), move_state: MoveState::Stationary, move_cooldown: 0, pos }
}

fn on_raft(id: u8) -> PlayerState {
    player(id, Pos::Lillipad(LillipadId { id: 0, y: 14, round_id: 0 }))
}

fn players(list: Vec<PlayerState>) -> PlayerIdMap<PlayerState> {
    let mut m = PlayerIdMap::new();
    for p in list {
        m.set(p.id, p);
    }
    m
}

fn no_hazards() -> PlayerIdMap<Hazard> {
    PlayerIdMap::new()
}

fn readings(raft_past_start: bool, ready_time_decayed: u32) -> LobbyReadings {
    LobbyReadings { raft_past_start, ready_time_decayed }
}

fn alive_map(ids: &[(u8, AliveState)]) -> PlayerIdMap<AliveState> {
    let mut m = PlayerIdMap::new();
    for &(id, a) in ids {
        m.set(PlayerId(id), a);
    }
    m
}

fn wins(ids: &[(u8, u8)]) -> PlayerIdMap<u8> {
    let mut m = PlayerIdMap::new();
    for &(id, w) in ids {
        m.set(PlayerId(id), w);
    }
    m
}

#[test]
fn lobby_counts_ready_ticks_and_starts_when_the_raft_leaves() {
    let config = GameConfig::default();
    let mut ps = players(vec![on_raft(0), on_raft(1)]);
    let fst = CrossyRulesetFST::Lobby { time_with_all_players_in_ready_zone: 3 };
    let (next, raft) = fst.tick(16_666, &mut ps, &no_hazards(), readings(false, 2), &config);
    assert!(matches!(next, CrossyRulesetFST::Lobby { time_with_all_players_in_ready_zone: 4 }));
    assert_eq!(raft, RaftStep::Drift);

    let fst = CrossyRulesetFST::Lobby { time_with_all_players_in_ready_zone: 41 };
    let (next, raft) = fst.tick(16_666, &mut ps, &no_hazards(), readings(false, 33), &config);
    assert!(matches!(next, CrossyRulesetFST::Lobby { time_with_all_players_in_ready_zone: 42 }));
    assert_eq!(raft, RaftStep::Advance);

    let (next, raft) = fst.tick(16_666, &mut ps, &no_hazards(), readings(true, 33), &config);
    assert_eq!(raft, RaftStep::NoLobby);
    match next {
        CrossyRulesetFST::RoundWarmup(w) => {
            assert_eq!(w.remaining_us, INTRO_COUNTDOWN_TIME_US);
            assert_eq!(w.time_full_us, INTRO_COUNTDOWN_TIME_US);
            assert_eq!(w.round_id, 1);
            assert_eq!(w.alive_states.get_copy(PlayerId(0)), Some(AliveState::Alive));
            assert_eq!(w.alive_states.get_copy(PlayerId(1)), Some(AliveState::Alive));
            assert_eq!(w.win_counts.get_copy(PlayerId(1)), Some(0));
        },
        _ => panic!("expected the warmup"),
    }
    // Everyone is on the race line, spread around the middle: x = id + 9 - max_id / 2.
    let p0 = ps.get(PlayerId(0)).unwrap();
    let p1 = ps.get(PlayerId(1)).unwrap();
    assert_eq!(p0.pos, Pos::Coord(CoordPos { x: 9, y: 16 }));
    assert_eq!(p1.pos, Pos::Coord(CoordPos { x: 10, y: 16 }));
    assert_eq!(p1.move_cooldown, MOVE_COOLDOWN_MAX);
}

#[test]
fn lobby_not_ready_decays_and_drowns() {
    let config = GameConfig::default();
    let mut ps = players(vec![player(0, Pos::new_coord(3, 4)), on_raft(1)]);
    let mut hazards = no_hazards();
    hazards.set(PlayerId(0), Hazard { lobby_river: true, river: false, car: false, adrift: false });
    let fst = CrossyRulesetFST::Lobby { time_with_all_players_in_ready_zone: 10 };
    let (next, raft) = fst.tick(16_666, &mut ps, &hazards, readings(false, 8), &config);
    assert!(ps.get(PlayerId(0)).is_none());
    assert!(ps.get(PlayerId(1)).is_some());
    // One player left is not enough.
    assert!(matches!(next, CrossyRulesetFST::Lobby { time_with_all_players_in_ready_zone: 8 }));
    assert_eq!(raft, RaftStep::Drift);
}

#[test]
fn bypassed_lobby_starts_at_once() {
    let config = GameConfig { required_win_count: 3, minimum_players: 2, bypass_lobby: true };
    let mut ps = players(vec![player(0, Pos::new_coord(3, 4))]);
    let fst = CrossyRulesetFST::start();
    let (next, _) = fst.tick(16_666, &mut ps, &no_hazards(), readings(true, 0), &config);
    assert!(matches!(next, CrossyRulesetFST::RoundWarmup(_)));
}

#[test]
fn warmup_counts_down_then_the_round_starts() {
    let mut ps = players(vec![player(0, Pos::new_coord(3, 4)), player(2, Pos::new_coord(5, 4))]);
    let fst = CrossyRulesetFST::RoundWarmup(WarmupState {
        remaining_us: 1_000,
        time_full_us: COUNTDOWN_TIME_US,
        alive_states: alive_map(&[(0, AliveState::Alive)]),
        win_counts: wins(&[(0, 1)]),
        round_id: 2,
    });
    let (next, _) = fst.tick(400, &mut ps, &no_hazards(), readings(false, 0), &GameConfig::default());
    match &next {
        CrossyRulesetFST::RoundWarmup(w) => assert_eq!(w.remaining_us, 600),
        _ => panic!("still warming up"),
    }
    let (next, _) = next.tick(601, &mut ps, &no_hazards(), readings(false, 0), &GameConfig::default());
    match next {
        CrossyRulesetFST::Round(r) => {
            assert_eq!(r.screen_y, 0);
            assert_eq!(r.round_id, 2);
            assert_eq!(r.alive_states.get_copy(PlayerId(2)), Some(AliveState::Alive));
            assert_eq!(r.win_counts.get_copy(PlayerId(0)), Some(1));
        },
        _ => panic!("expected the round"),
    }
}

#[test]
fn round_ends_when_players_leave() {
    let mut ps = players(vec![player(0, Pos::new_coord(3, 4))]);
    let fst = CrossyRulesetFST::Round(RoundState {
        screen_y: 0,
        alive_states: alive_map(&[(0, AliveState::Alive)]),
        win_counts: wins(&[(0, 0)]),
        round_id: 1,
    });
    let (next, raft) = fst.tick(16_666, &mut ps, &no_hazards(), readings(false, 0), &GameConfig::default());
    assert!(matches!(next, CrossyRulesetFST::EndAllLeft(EndAllLeftState { remaining_us: WINNER_TIME_US })));
    assert_eq!(raft, RaftStep::NoLobby);
}

#[test]
fn round_kills_and_cools_down() {
    // Player 1 is far below the screen; player 2 joined during the round.
    let mut ps = players(vec![player(0, Pos::new_coord(3, 4)), player(1, Pos::new_coord(3, 40)), player(2, Pos::new_coord(6, 4))]);
    let fst = CrossyRulesetFST::Round(RoundState {
        screen_y: 0,
        alive_states: alive_map(&[(0, AliveState::Alive), (1, AliveState::Alive)]),
        win_counts: wins(&[(0, 0), (1, 0)]),
        round_id: 1,
    });
    let (next, _) = fst.tick(16_666, &mut ps, &no_hazards(), readings(false, 0), &GameConfig::default());
    match next {
        CrossyRulesetFST::RoundCooldown(c) => {
            assert_eq!(c.remaining_us, COOLDOWN_TIME_US);
            // The highest living player is on row 4: the screen top moves to row -2.
            assert_eq!(c.round_state.screen_y, -2);
            assert_eq!(c.round_state.alive_states.get_copy(PlayerId(0)), Some(AliveState::Alive));
            assert_eq!(c.round_state.alive_states.get_copy(PlayerId(1)), Some(AliveState::Dead));
            assert_eq!(c.round_state.alive_states.get_copy(PlayerId(2)), Some(AliveState::NotInGame));
        },
        _ => panic!("expected the cooldown"),
    }
}

#[test]
fn round_hazards_kill() {
    let mut ps = players(vec![player(0, Pos::new_coord(3, 4)), player(1, Pos::new_coord(4, 4)), player(2, Pos::new_coord(5, 4))]);
    let mut hazards = no_hazards();
    hazards.set(PlayerId(1), Hazard { lobby_river: false, river: true, car: false, adrift: false });
    let fst = CrossyRulesetFST::Round(RoundState {
        screen_y: 0,
        alive_states: alive_map(&[(0, AliveState::Alive), (1, AliveState::Alive), (2, AliveState::Alive)]),
        win_counts: wins(&[]),
        round_id: 1,
    });
    let (next, _) = fst.tick(16_666, &mut ps, &hazards, readings(false, 0), &GameConfig::default());
    match next {
        CrossyRulesetFST::Round(r) => {
            assert_eq!(r.alive_states.get_copy(PlayerId(1)), Some(AliveState::Dead));
            assert_eq!(r.alive_states.get_copy(PlayerId(2)), Some(AliveState::Alive));
            assert_eq!(next_alive(&r), 2);
        },
        _ => panic!("two are still alive"),
    }
}

fn next_alive(r: &RoundState) -> usize {
    (0..8).filter(|i| r.alive_states.get_copy(PlayerId(*i)) == Some(AliveState::Alive)).count()
}

#[test]
fn cooldown_gives_the_round_to_the_lowest_living_id() {
    let mut ps = players(vec![player(0, Pos::new_coord(3, 4)), player(1, Pos::new_coord(4, 4)), player(3, Pos::new_coord(5, 4))]);
    let fst = CrossyRulesetFST::RoundCooldown(CooldownState {
        remaining_us: 10,
        round_state: RoundState {
            screen_y: 0,
            alive_states: alive_map(&[(0, AliveState::Dead), (1, AliveState::Alive)]),
            win_counts: wins(&[(0, 2), (1, 1)]),
            round_id: 4,
        },
    });
    let (next, _) = fst.tick(11, &mut ps, &no_hazards(), readings(false, 0), &GameConfig::default());
    match next {
        CrossyRulesetFST::RoundWarmup(w) => {
            assert_eq!(w.round_id, 5);
            assert_eq!(w.remaining_us, COUNTDOWN_TIME_US);
            assert_eq!(w.win_counts.get_copy(PlayerId(1)), Some(2));
            assert_eq!(w.win_counts.get_copy(PlayerId(0)), Some(2));
            assert_eq!(w.win_counts.get_copy(PlayerId(3)), Some(0));
            assert_eq!(w.alive_states.get_copy(PlayerId(3)), Some(AliveState::Alive));
        },
        _ => panic!("expected the next warmup"),
    }
    // Max id 3: x = id + 9 - 1.
    assert_eq!(ps.get(PlayerId(3)).unwrap().pos, Pos::new_coord(11, 16));
}

#[test]
fn enough_wins_end_the_game() {
    let mut ps = players(vec![player(0, Pos::new_coord(3, 4)), player(1, Pos::new_coord(4, 4))]);
    let fst = CrossyRulesetFST::RoundCooldown(CooldownState {
        remaining_us: 0,
        round_state: RoundState {
            screen_y: 0,
            alive_states: alive_map(&[(0, AliveState::Alive), (1, AliveState::Dead)]),
            win_counts: wins(&[(0, 2), (1, 1)]),
            round_id: 4,
        },
    });
    let (next, _) = fst.tick(1, &mut ps, &no_hazards(), readings(false, 0), &GameConfig::default());
    assert!(matches!(next, CrossyRulesetFST::EndWinner(EndWinnerState { winner_id: PlayerId(0), remaining_us: WINNER_TIME_US })));
    assert_eq!(ps.get(PlayerId(0)).unwrap().pos, Pos::new_coord(9, 11));
    assert_eq!(next.get_player_alive(PlayerId(0)), AliveState::Alive);
    assert_eq!(next.get_player_alive(PlayerId(1)), AliveState::NotInGame);

    let (later, raft) = next.tick(WINNER_TIME_US + 1, &mut ps, &no_hazards(), readings(false, 0), &GameConfig::default());
    assert!(later.in_lobby());
    assert_eq!(raft, RaftStep::Reset);
}

#[test]
fn rules_state_counts_games() {
    let config = GameConfig { required_win_count: 3, minimum_players: 1, bypass_lobby: true };
    let rules = RulesState::new(config);
    assert_eq!(rules.game_id, 0);
    let mut ps = players(vec![player(0, Pos::new_coord(3, 4))]);
    let (next, _) = rules.tick(16_666, &mut ps, &no_hazards(), readings(true, 0));
    assert_eq!(next.game_id, 1);
    assert!(!next.fst.in_lobby());
    let (after, _) = next.tick(16_666, &mut ps, &no_hazards(), readings(true, 0));
    assert_eq!(after.game_id, 1);
}

#[test]
fn phase_queries() {
    let lobby = CrossyRulesetFST::start();
    let round = CrossyRulesetFST::Round(RoundState {
        screen_y: -7,
        alive_states: alive_map(&[(0, AliveState::Dead)]),
        win_counts: wins(&[(0, 1)]),
        round_id: 3,
    });
    assert!(lobby.in_lobby());
    assert!(!round.in_lobby());
    assert!(lobby.same_variant(&CrossyRulesetFST::Lobby { time_with_all_players_in_ready_zone: 9 }));
    assert!(!lobby.same_variant(&round));
    assert_eq!(round.get_round_id(), 3);
    assert_eq!(lobby.get_round_id(), 0);
    assert_eq!(round.get_screen_y(), -7);
    assert_eq!(round.get_player_alive(PlayerId(0)), AliveState::Dead);
    assert_eq!(round.get_player_alive(PlayerId(5)), AliveState::NotInGame);
    assert_eq!(lobby.get_player_alive(PlayerId(5)), AliveState::Alive);
    assert_eq!(round.winner_counts().get_copy(PlayerId(0)), Some(1));
    assert_eq!(lobby.winner_counts().count_populated(), 0);
    assert!(player_in_lobby_ready_zone(&on_raft(0)));
    assert!(!player_in_lobby_ready_zone(&player(0, Pos::new_coord(1, 1))));
    assert_eq!(GameConfig::default(), GameConfig { required_win_count: 3, minimum_players: 2, bypass_lobby: false });
    assert_eq!(EndWinnerState::new(PlayerId(2)).remaining_us, WINNER_TIME_US);
}
