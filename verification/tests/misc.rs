use crossy_multi_core::game::{CoordPos, Input, LogId, PlayerId, PlayerInputs, Pos, SimulationInput, ALL_INPUTS};
use crossy_multi_core::interop::{ClientHello, CURRENT_VERSION, INIT_MESSAGE};
use crossy_multi_core::menu::{parse_char_hex, parse_u8_hex, MenuInput};
use crossy_multi_core::player::{MovingState, PushInfo, MOVE_DUR};
use crossy_multi_core::rng::{split_mix_64, FroggyRng};

#[test]
fn client_hello_check() {
    let hello = ClientHello::default();
    assert!(hello.check(CURRENT_VERSION));
    assert!(hello.check(0));
    assert!(!hello.check(CURRENT_VERSION + 1));
    assert_eq!(&INIT_MESSAGE, b"helo");
    assert!(!ClientHello::new(*b"help", 5).check(1));
    assert!(ClientHello::new(*b"helo", 5).check(5));
}

#[test]
fn menu_toggles_and_hex() {
    assert!(MenuInput::Left.is_toggle());
    assert!(MenuInput::Right.is_toggle());
    assert!(MenuInput::Select.is_toggle());
    assert!(!MenuInput::Up.is_toggle());
    assert!(!MenuInput::Idle.is_toggle());
    assert!(!MenuInput::ReturnToGame.is_toggle());
    assert_eq!(parse_char_hex(b'7'), 7);
    assert_eq!(parse_char_hex(b'b'), 11);
    assert_eq!(parse_char_hex(b'F'), 15);
    assert_eq!(parse_u8_hex(*b"ff"), 255);
    assert_eq!(parse_u8_hex(*b"1A"), 26);
    assert_eq!(parse_u8_hex(*b"00"), 0);
}

#[test]
fn inputs_and_directions() {
    let mut inputs = PlayerInputs::new();
    assert_eq!(inputs.get(PlayerId(3)), Input::Idle);
    assert!(inputs.set(PlayerId(3), Input::Up));
    assert!(!inputs.set(PlayerId(3), Input::Up));
    assert_eq!(inputs.player_count(), 4);
    assert_eq!(inputs.get(PlayerId(1)), Input::Idle);
    for d in ALL_INPUTS {
        assert_eq!(d.invert().invert(), d);
        assert_ne!(d.orthogonal(), d);
        assert_ne!(d.orthogonal(), d.invert());
        let p = CoordPos::new(4, 4);
        assert_eq!(p.apply_input(d).apply_input(d.invert()), p);
    }
    assert_eq!(CoordPos::new(4, 4).apply_input(Input::Up), CoordPos::new(4, 3));
    assert_eq!(Input::Up.orthogonal(), Input::Left);
    assert_eq!(Input::Right.orthogonal(), Input::Up);
    let sim = SimulationInput { inputs: vec![Input::Down, Input::Left] };
    assert_eq!(sim.get_player_input(PlayerId(1)), Input::Left);
    assert_eq!(LogId(3), LogId(3));
    assert_eq!(Pos::new_coord(1, 2), Pos::Coord(CoordPos { x: 1, y: 2 }));
}

#[test]
fn moving_states() {
    let m = MovingState::new(Pos::new_coord(1, 1));
    assert_eq!(m.remaining_us, MOVE_DUR);
    assert_eq!(m.push_info, PushInfo::default());
    let p = PushInfo { pushed_by: Some(PlayerId(2)), pushing: None };
    assert_eq!(MovingState::with_push(Pos::new_coord(2, 2), p).push_info, p);
    assert_eq!(MOVE_DUR, 7 * 16_666);
}

#[test]
fn split_mix_known_values() {
    // SplitMix64 of 0 is the generator's first output for seed 0.
    assert_eq!(split_mix_64(0), 0xE220A8397B1DCDAF);
    assert_ne!(split_mix_64(1), split_mix_64(2));
}

#[test]
fn froggy_rng_is_stateless() {
    let rng = FroggyRng::new(100);
    let a = rng.gen(("test", 0));
    let b = rng.gen(("test", 0));
    let c = rng.gen(("test", 1));
    assert_eq!(a, b);
    assert_ne!(a, c);
    let other = FroggyRng::from_hash(7u32);
    assert_ne!(other.gen(("test", 0)), a);
    let choices = [10, 20, 30];
    let pick = *rng.choose_one("pick", &choices);
    assert!(choices.contains(&pick));
}
