use crossy_multi_core::ai::{think_lobby, BackAndForth};
use crossy_multi_core::crossy_ruleset::{
    CrossyRulesetFST, EndWinnerState, GameConfig, RoundIdentifier, RoundState, RulesState, StateTransition, WarmupState,
};
use crossy_multi_core::entities::{Entity, EntityContainer, EntityType, IsEntity};
use crossy_multi_core::game::{Input, PlayerId, Pos};
use crossy_multi_core::game_state::{find_spawn_pos, GameState};
use crossy_multi_core::menu::{MenuInput, MenuSound, Pause, PauseResult, SettingsChange, SettingsMenu};
use crossy_multi_core::player::{MoveState, MovingState, PlayerState, PushInfo};
use crossy_multi_core::player_id_map::PlayerIdMap;

#[test]
fn pause_cursor_wraps() {
    let mut pause = Pause::new();
    let step = pause.tick(MenuInput::Up);
    assert_eq!(pause.highlighted, 4);
    assert_eq!(step.sound, MenuSound::Move);
    assert_eq!(step.result, PauseResult::Nothing);
    assert_eq!(pause.t_since_move, 0);
    pause.tick(MenuInput::Down);
    assert_eq!(pause.highlighted, 0);
    pause.tick(MenuInput::Idle);
    assert_eq!(pause.t, 3);
    assert_eq!(pause.t_since_move, 1);
}

#[test]
fn pause_choices() {
    let mut pause = Pause::new();
    let step = pause.tick(MenuInput::Select);
    assert_eq!(step.result, PauseResult::Unpause);
    assert!(step.flash);
    assert_eq!(step.sound, MenuSound::Click);

    pause.tick(MenuInput::Down);
    assert_eq!(pause.tick(MenuInput::Select).result, PauseResult::Lobby);
    pause.tick(MenuInput::Down);
    pause.tick(MenuInput::Down);
    assert_eq!(pause.tick(MenuInput::Select).result, PauseResult::Feedback);
    pause.tick(MenuInput::Down);
    assert_eq!(pause.tick(MenuInput::Select).result, PauseResult::Exit);
}

#[test]
fn pause_opens_and_closes_settings() {
    let mut pause = Pause::new();
    pause.tick(MenuInput::Down);
    pause.tick(MenuInput::Down);
    let step = pause.tick(MenuInput::Select);
    assert_eq!(step.result, PauseResult::Nothing);
    assert_eq!(pause.settings_menu, Some(SettingsMenu::new()));
    let t = pause.t;

    // Input now goes to the settings menu: up wraps to "back".
    let step = pause.tick(MenuInput::Up);
    assert_eq!(pause.t, t);
    assert_eq!(pause.settings_menu.map(|m| m.highlighted), Some(7));
    assert_eq!(step.settings.map(|s| s.sound), Some(MenuSound::Move));

    let step = pause.tick(MenuInput::Select);
    assert_eq!(step.settings.map(|s| s.stay_open), Some(false));
    assert_eq!(pause.settings_menu, None);
    assert_eq!(pause.highlighted, 2);
}

#[test]
fn settings_changes() {
    let mut menu = SettingsMenu::new();
    let step = menu.tick(MenuInput::Left);
    assert_eq!(step.change, SettingsChange::MusicVolumeDown);
    assert_eq!(step.sound, MenuSound::Silent);
    assert!(step.stay_open);

    menu.tick(MenuInput::Down);
    let step = menu.tick(MenuInput::Right);
    assert_eq!(step.change, SettingsChange::SfxVolumeUp);
    assert_eq!(step.sound, MenuSound::Click);

    let expected = [
        SettingsChange::ToggleFullscreen,
        SettingsChange::ToggleScreenshake,
        SettingsChange::ToggleVibration,
        SettingsChange::ToggleFlashing,
        SettingsChange::ToggleCrtShader,
    ];
    for change in expected {
        menu.tick(MenuInput::Down);
        assert_eq!(menu.tick(MenuInput::Select).change, change);
        assert_eq!(menu.tick(MenuInput::Idle).change, SettingsChange::Nothing);
    }

    menu.tick(MenuInput::Down);
    assert_eq!(menu.highlighted, 7);
    assert!(menu.tick(MenuInput::Left).stay_open);
    assert!(!menu.tick(MenuInput::Select).stay_open);
}

#[test]
fn state_transitions() {
    let lobby = CrossyRulesetFST::Lobby { time_with_all_players_in_ready_zone: 0 };
    let warmup = CrossyRulesetFST::RoundWarmup(WarmupState {
        remaining_us: 10,
        time_full_us: 10,
        alive_states: PlayerIdMap::new(),
        win_counts: PlayerIdMap::new(),
        round_id: 1,
    });
    let t = StateTransition::new(&lobby, &None);
    assert!(t.into_lobby && !t.leaving_lobby && !t.into_round_warmup);

    let t = StateTransition::new(&warmup, &Some(lobby.clone()));
    assert!(t.leaving_lobby && t.into_round_warmup && !t.into_lobby);

    let t = StateTransition::new(&warmup, &Some(warmup.clone()));
    assert_eq!(t, StateTransition::default());

    let winner = CrossyRulesetFST::EndWinner(EndWinnerState::new(PlayerId(2)));
    let round = CrossyRulesetFST::Round(RoundState {
        screen_y: 0,
        alive_states: PlayerIdMap::new(),
        win_counts: PlayerIdMap::new(),
        round_id: 1,
    });
    let t = StateTransition::new(&winner, &Some(round.clone()));
    assert!(t.into_winner && !t.into_round);
    let t = StateTransition::new(&round, &Some(warmup));
    assert!(t.into_round && !t.into_round_warmup);
}

#[test]
fn round_identifier() {
    let mut rules = RulesState::new(GameConfig::default());
    rules.game_id = 12;
    assert_eq!(RoundIdentifier::from_rulesstate(&rules), RoundIdentifier { game_id: 12, round_id: 0 });
    rules.fst = CrossyRulesetFST::Round(RoundState {
        screen_y: 0,
        alive_states: PlayerIdMap::new(),
        win_counts: PlayerIdMap::new(),
        round_id: 3,
    });
    assert_eq!(RoundIdentifier::from_rulesstate(&rules).round_id, 3);
}

fn standing(id: u8, x: i32, y: i32) -> PlayerState {
    PlayerState { id: PlayerId(id), pos: Pos::new_coord(x, y), move_state: MoveState::Stationary, move_cooldown: 0 }
}

#[test]
fn spawn_position_skips_taken_tiles() {
    let empty = GameState::new(GameConfig::default());
    assert_eq!(find_spawn_pos(&empty), Pos::new_coord(7, 7));

    let moving_in = PlayerState {
        id: PlayerId(1),
        pos: Pos::new_coord(0, 0),
        move_state: MoveState::Moving(MovingState {
            remaining_us: 10,
            target: Pos::new_coord(7, 8),
            push_info: PushInfo { pushing: None, pushed_by: None },
        }),
        move_cooldown: 0,
    };
    let state = GameState::from_server_parts(0, 0, vec![standing(0, 7, 7), moving_in], RulesState::new(GameConfig::default()));
    assert_eq!(find_spawn_pos(&state), Pos::new_coord(7, 9));

    let column: Vec<PlayerState> = (0..7).map(|i| standing(i as u8, 7, 7 + i)).collect();
    let state = GameState::from_server_parts(0, 0, column, RulesState::new(GameConfig::default()));
    assert_eq!(find_spawn_pos(&state), Pos::new_coord(8, 7));
}

struct Marker {
    entity: Entity,
    moves: u32,
}

impl IsEntity for Marker {
    fn entity_of(&self) -> Entity {
        self.entity
    }

    fn created(e: Entity) -> Self {
        Marker { entity: e, moves: 0 }
    }

    fn create(e: Entity) -> Self {
        Marker { entity: e, moves: 0 }
    }

    fn get(&self) -> Entity {
        self.entity
    }

    fn moved_to(&self, p: Pos) -> Self {
        Marker { entity: Entity { pos: p, ..self.entity }, moves: self.moves + 1 }
    }

    fn set_pos(&mut self, p: Pos) {
        self.entity.pos = p;
        self.moves += 1;
    }

    fn get_depth(&self) -> i32 {
        self.entity.id * 10
    }

    fn draw(&self) {}
}

fn prop(id: i32, x: i32) -> Entity {
    Entity { entity_type: EntityType::Prop, pos: Pos::new_coord(x, 0), id }
}

#[test]
fn entity_container_finds_first_and_deletes_last() {
    let mut container: EntityContainer<Marker> = EntityContainer { entity_type: EntityType::Prop, inner: Vec::new() };
    container.create_entity(prop(1, 0));
    container.create_entity(prop(2, 1));
    container.create_entity(prop(1, 2));
    assert_eq!(container.inner.len(), 3);

    assert_eq!(container.get(1).map(|m| m.entity.pos), Some(Pos::new_coord(0, 0)));
    assert!(container.get(5).is_none());

    container.update_from_entity(prop(1, 9));
    assert_eq!(container.inner[0].entity.pos, Pos::new_coord(9, 0));
    assert_eq!(container.inner[2].entity.pos, Pos::new_coord(2, 0));
    assert_eq!(container.inner[0].moves, 1);

    if let Some(m) = container.get_mut(2) {
        m.moves = 7;
    }
    assert_eq!(container.inner[1].moves, 7);

    assert!(container.delete_entity(prop(1, 0)));
    assert_eq!(container.inner.len(), 2);
    assert_eq!(container.inner[0].entity.pos, Pos::new_coord(9, 0));
    assert!(!container.delete_entity(prop(4, 0)));

    let mut all = vec![(prop(9, 9), 0)];
    container.extend_all_entities_depth(&mut all);
    assert_eq!(all.len(), 3);
    assert_eq!(all[1], (container.inner[0].entity, 10));
    assert_eq!(all[2], (container.inner[1].entity, 20));
}

#[test]
fn delete_right_after_create_restores_container() {
    let mut container: EntityContainer<Marker> = EntityContainer { entity_type: EntityType::Prop, inner: Vec::new() };
    container.create_entity(prop(3, 0));
    container.create_entity(prop(5, 1));
    container.create_entity(prop(3, 4));
    assert!(container.delete_entity(prop(3, 0)));
    assert_eq!(container.inner.iter().map(|m| (m.entity.id, m.entity.pos)).collect::<Vec<_>>(), vec![(3, Pos::new_coord(0, 0)), (5, Pos::new_coord(1, 0))]);
}

#[test]
fn settings_cursor_down_then_up() {
    let mut menu = SettingsMenu::new();
    for _ in 0..8 {
        let h = menu.highlighted;
        menu.tick(MenuInput::Down);
        menu.tick(MenuInput::Up);
        assert_eq!(menu.highlighted, h);
        menu.tick(MenuInput::Down);
    }
    assert_eq!(menu.highlighted, 0);
}

#[test]
fn computer_players() {
    let ai = BackAndForth::new(PlayerId(0));
    let mut state = GameState::new(GameConfig::default());
    state.frame_id = 59;
    assert_eq!(ai.think(&state), Input::Left);
    state.frame_id = 60;
    assert_eq!(ai.think(&state), Input::Right);
    state.frame_id = 120;
    assert_eq!(ai.think(&state), Input::Left);

    let state = GameState::from_server_parts(
        0,
        0,
        vec![standing(0, 3, 14), standing(1, 9, 5), standing(2, 9, 14), standing(3, 20, 20)],
        RulesState::new(GameConfig::default()),
    );
    assert_eq!(think_lobby(&state, PlayerId(0)), Input::Right);
    assert_eq!(think_lobby(&state, PlayerId(1)), Input::Down);
    assert_eq!(think_lobby(&state, PlayerId(2)), Input::Idle);
    assert_eq!(think_lobby(&state, PlayerId(3)), Input::Left);
    assert_eq!(think_lobby(&state, PlayerId(9)), Input::Idle);
}
