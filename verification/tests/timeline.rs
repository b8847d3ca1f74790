use crossy_multi_core::crossy_ruleset::{GameConfig, RulesState};
use crossy_multi_core::game::{Input, PlayerId, Pos};
use crossy_multi_core::game_state::GameState;
use crossy_multi_core::player::{MoveState, PlayerState};
use crossy_multi_core::timeline::{reconcile_players, RemoteInput, RemoteTickState, Timeline, STATE_BUFFER_SIZE, TICK_INTERVAL_US};

fn player(id: u8, x: i32, y: i32) -> PlayerState {
    PlayerState { id: PlayerId(id), pos: Pos::new_coord(x, y), move_state: MoveState::Stationary, move_cooldown: 0 }
}

fn state_at_frame(frame_id: u32, players: Vec<PlayerState>) -> GameState {
    GameState::from_server_parts(frame_id, frame_id * TICK_INTERVAL_US, players, RulesState::new(GameConfig::default()))
}

/// A timeline holding frames 0 to `top`, each with the given players and no inputs.
fn timeline_to(top: u32, players: &[PlayerState]) -> Timeline {
    let mut timeline = Timeline::from_server_parts(0, 0, players.to_vec(), RulesState::new(GameConfig::default()));
    for frame in 1..=top {
        timeline.push_state(state_at_frame(frame, players.to_vec()));
    }
    timeline
}

fn remote(frame_id: u32, id: u8, input: Input) -> RemoteInput {
    RemoteInput { time_us: frame_id * TICK_INTERVAL_US, frame_id, input, player_id: PlayerId(id) }
}

#[test]
fn new_timeline_holds_one_empty_state() {
    let timeline = Timeline::new(GameConfig::default());
    assert_eq!(timeline.len(), 1);
    assert!(!timeline.is_empty());
    assert_eq!(timeline.top_state().frame_id, 0);
    assert_eq!(timeline.current_state().time_us, 0);
    assert_eq!(timeline.top_state().get_player_count(), 0);
}

#[test]
fn push_state_keeps_newest_first() {
    let timeline = timeline_to(5, &[]);
    assert_eq!(timeline.len(), 6);
    assert_eq!(timeline.top_state().frame_id, 5);
    for offset in 0..6 {
        assert_eq!(timeline.state_at(offset).frame_id, 5 - offset as u32);
    }
}

#[test]
fn push_state_forgets_beyond_buffer() {
    let timeline = timeline_to(600, &[]);
    assert_eq!(timeline.len(), STATE_BUFFER_SIZE);
    assert_eq!(timeline.top_state().frame_id, 600);
    assert_eq!(timeline.state_at(STATE_BUFFER_SIZE - 1).frame_id, 600 - (STATE_BUFFER_SIZE as u32 - 1));
}

#[test]
fn frame_offsets() {
    let timeline = timeline_to(600, &[]);
    assert_eq!(timeline.frame_id_to_frame_offset(600), Some(0));
    assert_eq!(timeline.frame_id_to_frame_offset(597), Some(3));
    assert_eq!(timeline.frame_id_to_frame_offset(89), Some(511));
    assert_eq!(timeline.frame_id_to_frame_offset(88), None);
    assert_eq!(timeline.try_get_state(500).map(|s| s.frame_id), Some(500));
    assert!(timeline.try_get_state(601).is_none());
    assert!(timeline.try_get_state(10).is_none());
}

#[test]
fn states_by_time() {
    let timeline = timeline_to(5, &[]);
    assert_eq!(timeline.get_index_before_us(3 * TICK_INTERVAL_US), Some(3));
    assert_eq!(timeline.get_index_before_eq_us(3 * TICK_INTERVAL_US), Some(2));
    assert_eq!(timeline.get_index_before_us(0), None);
    assert_eq!(timeline.get_state_before_eq_us(3 * TICK_INTERVAL_US + 1).map(|s| s.frame_id), Some(3));
    assert_eq!(timeline.get_state_before_eq_us(100 * TICK_INTERVAL_US).map(|s| s.frame_id), Some(5));
}

#[test]
fn inputs_since_frame_oldest_first() {
    let players = [player(0, 1, 1), player(1, 3, 3)];
    let mut timeline = timeline_to(1, &players);
    let mut s2 = state_at_frame(2, players.to_vec());
    s2.player_inputs.set(PlayerId(1), Input::Left);
    timeline.push_state(s2);
    let mut s3 = state_at_frame(3, players.to_vec());
    s3.player_inputs.set(PlayerId(0), Input::Down);
    s3.player_inputs.set(PlayerId(1), Input::Up);
    timeline.push_state(s3);

    let inputs = timeline.inputs_since_frame(2);
    assert_eq!(inputs, vec![remote(2, 1, Input::Left), remote(3, 0, Input::Down), remote(3, 1, Input::Up)]);
    assert_eq!(timeline.inputs_since_frame(3).len(), 2);
    assert_eq!(timeline.inputs_since_frame(0).len(), 3);
    assert_eq!(timeline.get_last_player_inputs().get(PlayerId(0)), Input::Down);
}

#[test]
fn inputs_of_absent_players_are_not_sent() {
    let mut timeline = timeline_to(0, &[player(0, 1, 1)]);
    let mut s1 = state_at_frame(1, vec![player(0, 1, 1)]);
    s1.player_inputs.set(PlayerId(4), Input::Up);
    timeline.push_state(s1);
    assert!(timeline.inputs_since_frame(0).is_empty());
}

#[test]
fn propagate_fills_idle_slot_and_asks_resimulation() {
    let players = [player(0, 1, 1), player(1, 3, 3)];
    let mut timeline = timeline_to(5, &players);
    let r = timeline.try_propagate_inputs(vec![remote(3, 0, Input::Up), remote(4, 1, Input::Right)]);
    // Frame 2 is the frame before the earliest input, five frames are newer than frame 0.
    assert_eq!(r, (true, Some(3)));
    assert_eq!(timeline.state_at(2).player_inputs.get(PlayerId(0)), Input::Up);
    assert_eq!(timeline.state_at(1).player_inputs.get(PlayerId(1)), Input::Right);
    assert_eq!(timeline.state_at(1).player_inputs.get(PlayerId(0)), Input::Idle);
}

#[test]
fn propagate_keeps_inputs_already_known() {
    let players = [player(0, 1, 1)];
    let mut timeline = timeline_to(5, &players);
    assert_eq!(timeline.try_propagate_inputs(vec![remote(3, 0, Input::Up)]), (true, Some(3)));
    // The slot is taken: a second input for it changes nothing and asks for nothing.
    assert_eq!(timeline.try_propagate_inputs(vec![remote(3, 0, Input::Down)]), (true, None));
    assert_eq!(timeline.state_at(2).player_inputs.get(PlayerId(0)), Input::Up);
    // Two inputs for one idle slot in one batch: the first wins.
    assert_eq!(timeline.try_propagate_inputs(vec![remote(4, 0, Input::Left), remote(4, 0, Input::Right)]), (true, Some(2)));
    assert_eq!(timeline.state_at(1).player_inputs.get(PlayerId(0)), Input::Left);
}

#[test]
fn propagate_refuses_future_frames() {
    let mut timeline = timeline_to(5, &[player(0, 1, 1)]);
    assert_eq!(timeline.try_propagate_inputs(vec![remote(3, 0, Input::Up), remote(6, 0, Input::Up)]), (false, None));
    assert_eq!(timeline.state_at(2).player_inputs.get(PlayerId(0)), Input::Idle);
    assert_eq!(timeline.try_propagate_inputs(vec![]), (true, None));
}

#[test]
fn propagate_ignores_forgotten_frames() {
    let mut timeline = timeline_to(600, &[player(0, 1, 1)]);
    assert_eq!(timeline.try_propagate_inputs(vec![remote(20, 0, Input::Up)]), (true, None));
    // The oldest kept frame can take an input but has no frame before it to resimulate from.
    assert_eq!(timeline.try_propagate_inputs(vec![remote(89, 0, Input::Up)]), (true, None));
    assert_eq!(timeline.state_at(511).player_inputs.get(PlayerId(0)), Input::Up);
}

#[test]
fn players_join_and_leave() {
    let mut timeline = timeline_to(3, &[player(0, 1, 1)]);
    timeline.add_player(PlayerId(2), Pos::new_coord(5, 5));
    assert_eq!(timeline.top_state().get_player(PlayerId(2)).map(|p| p.pos), Some(Pos::new_coord(5, 5)));
    assert!(timeline.state_at(1).get_player(PlayerId(2)).is_none());
    timeline.remove_player(PlayerId(0));
    for offset in 0..4 {
        assert!(timeline.state_at(offset).get_player(PlayerId(0)).is_none());
    }
    timeline.set_game_id(7);
    assert_eq!(timeline.top_state().rules_state.game_id, 7);
}

#[test]
fn reconcile_on_server_drops_players_that_left() {
    let mut replacement = state_at_frame(4, vec![player(0, 1, 1), player(1, 2, 2)]);
    let recorded = state_at_frame(4, vec![player(1, 9, 9), player(2, 3, 3)]);
    reconcile_players(&mut replacement, &recorded, true);
    assert!(replacement.get_player(PlayerId(0)).is_none());
    assert_eq!(replacement.get_player(PlayerId(1)).map(|p| p.pos), Some(Pos::new_coord(2, 2)));
    assert_eq!(replacement.get_player(PlayerId(2)).map(|p| p.pos), Some(Pos::new_coord(3, 3)));
}

#[test]
fn reconcile_on_client_keeps_players() {
    let mut replacement = state_at_frame(4, vec![player(0, 1, 1)]);
    let recorded = state_at_frame(4, vec![player(2, 3, 3)]);
    reconcile_players(&mut replacement, &recorded, false);
    assert_eq!(replacement.get_player(PlayerId(0)).map(|p| p.pos), Some(Pos::new_coord(1, 1)));
    assert_eq!(replacement.get_player(PlayerId(2)).map(|p| p.pos), Some(Pos::new_coord(3, 3)));
}

#[test]
fn remote_tick_state_lists_players() {
    let state = state_at_frame(9, vec![player(3, 1, 1), player(1, 2, 2)]);
    let tick = RemoteTickState::from_gamestate(&state);
    assert_eq!(tick.frame_id, 9);
    assert_eq!(tick.time_us, 9 * TICK_INTERVAL_US);
    assert_eq!(tick.states.iter().map(|p| p.id).collect::<Vec<_>>(), vec![PlayerId(1), PlayerId(3)]);
}
