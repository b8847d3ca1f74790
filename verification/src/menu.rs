use vstd::prelude::*;

verus! {

/// One step of menu navigation.
#[derive(Debug, Clone, Copy, PartialEq, Eq, Structural)]
pub enum MenuInput {
    Idle,
    Up,
    Down,
    Left,
    Right,
    Select,
    ReturnToGame,
}

impl MenuInput {
    /// Left, right and select flip a menu option.
    pub fn is_toggle(self) -> (r: bool)
        ensures
            r == (self is Left || self is Right || self is Select),
    {
        match self {
            MenuInput::Left | MenuInput::Right | MenuInput::Select => true,
            _ => false,
        }
    }
}

/// `c` is an ASCII hex digit.
pub open spec fn is_hex_digit(c: u8) -> bool {
    (48 <= c <= 57) || (97 <= c <= 102) || (65 <= c <= 70)
}

/// The value of an ASCII hex digit.
pub open spec fn hex_value(c: u8) -> int {
    if 48 <= c <= 57 {
        c - 48
    } else if 97 <= c <= 102 {
        c - 97 + 10
    } else {
        c - 65 + 10
    }
}

pub fn parse_char_hex(c: u8) -> (r: u8)
    requires
        is_hex_digit(c),
    ensures
        r == hex_value(c),
{
    if c >= 48 && c <= 57 {
        return c - 48;
    }
    if c >= 97 && c <= 102 {
        return c - 97 + 10;
    }
    c - 65 + 10
}

/// The byte written as two hex digits, high digit first.
pub fn parse_u8_hex(s: [u8; 2]) -> (r: u8)
    requires
        is_hex_digit(s[0]),
        is_hex_digit(s[1]),
    ensures
        r == hex_value(s[0]) * 16 + hex_value(s[1]),
{
    parse_char_hex(s[0]) * 16 + parse_char_hex(s[1])
}


/// How many options the pause menu offers: resume, lobby, settings, feedback, exit.
pub const PAUSE_OPTION_COUNT: i32 = 5;

/// How many options the settings menu offers: music volume, effects volume, window mode,
/// screenshake, vibration, flashing, the screen effect, and back.
pub const SETTINGS_OPTION_COUNT: i32 = 8;

/// Left, right and select flip a menu option.
pub open spec fn toggles(input: MenuInput) -> bool {
    input is Left || input is Right || input is Select
}

/// Where the cursor stands after `input`: down moves to the next option and up to the
/// previous one, wrapping around; other inputs leave it.
pub open spec fn cursor_after(h: i32, input: MenuInput, count: i32) -> i32 {
    match input {
        MenuInput::Down => ((h + 1) % (count as int)) as i32,
        MenuInput::Up => if h == 0 {
            (count - 1) as i32
        } else {
            (h - 1) as i32
        },
        _ => h,
    }
}

/// The sound a menu step asks for.
#[derive(Debug, Clone, Copy, PartialEq, Eq, Structural)]
pub enum MenuSound {
    Silent,
    Move,
    Click,
}

/// A change to the saved settings that a step of the settings menu asks for.
#[derive(Debug, Clone, Copy, PartialEq, Eq, Structural)]
pub enum SettingsChange {
    Nothing,
    MusicVolumeDown,
    MusicVolumeUp,
    SfxVolumeDown,
    SfxVolumeUp,
    ToggleFullscreen,
    ToggleScreenshake,
    ToggleVibration,
    ToggleFlashing,
    ToggleCrtShader,
}

/// What one step of the settings menu asks of its caller.
#[derive(Debug, Clone, Copy, PartialEq, Eq, Structural)]
pub struct SettingsStep {
    pub change: SettingsChange,
    pub sound: MenuSound,
    /// False once "back" was chosen.
    pub stay_open: bool,
}

/// What a step with `input` does on option `h` (the option after the cursor moved).
pub open spec fn settings_step(h: i32, input: MenuInput) -> SettingsStep {
    if input is Up || input is Down {
        SettingsStep { change: SettingsChange::Nothing, sound: MenuSound::Move, stay_open: true }
    } else if h == 0 && input is Left {
        SettingsStep { change: SettingsChange::MusicVolumeDown, sound: MenuSound::Silent, stay_open: true }
    } else if h == 0 && input is Right {
        SettingsStep { change: SettingsChange::MusicVolumeUp, sound: MenuSound::Silent, stay_open: true }
    } else if h == 1 && input is Left {
        SettingsStep { change: SettingsChange::SfxVolumeDown, sound: MenuSound::Click, stay_open: true }
    } else if h == 1 && input is Right {
        SettingsStep { change: SettingsChange::SfxVolumeUp, sound: MenuSound::Click, stay_open: true }
    } else if 2 <= h <= 6 && toggles(input) {
        SettingsStep {
            change: if h == 2 {
                SettingsChange::ToggleFullscreen
            } else if h == 3 {
                SettingsChange::ToggleScreenshake
            } else if h == 4 {
                SettingsChange::ToggleVibration
            } else if h == 5 {
                SettingsChange::ToggleFlashing
            } else {
                SettingsChange::ToggleCrtShader
            },
            sound: MenuSound::Click,
            stay_open: true,
        }
    } else if h == 7 && input is Select {
        SettingsStep { change: SettingsChange::Nothing, sound: MenuSound::Click, stay_open: false }
    } else {
        SettingsStep { change: SettingsChange::Nothing, sound: MenuSound::Silent, stay_open: true }
    }
}

/// The settings menu: a tick counter, the ticks since the cursor last moved, and the option
/// under the cursor.
#[derive(Debug, Clone, Copy, PartialEq, Eq, Structural)]
pub struct SettingsMenu {
    pub t: i32,
    pub t_since_move: i32,
    pub highlighted: i32,
}

impl SettingsMenu {
    pub open spec fn wf(&self) -> bool {
        0 <= self.highlighted < SETTINGS_OPTION_COUNT
    }

    pub fn new() -> (r: Self)
        ensures
            r == (SettingsMenu { t: 0, t_since_move: 0, highlighted: 0 }),
    {
        SettingsMenu { t: 0, t_since_move: 0, highlighted: 0 }
    }

    /// One tick of the settings menu with the input read at this tick.
    pub fn tick(&mut self, input: MenuInput) -> (r: SettingsStep)
        requires
            old(self).wf(),
            old(self).t < i32::MAX,
            old(self).t_since_move < i32::MAX,
        ensures
            final(self).wf(),
            final(self).t == old(self).t + 1,
            final(self).highlighted == cursor_after(old(self).highlighted, input, SETTINGS_OPTION_COUNT),
            final(self).t_since_move == if input is Up || input is Down {
                0
            } else {
                old(self).t_since_move + 1
            },
            r == settings_step(final(self).highlighted, input),
    {
        self.t = self.t + 1;
        self.t_since_move = self.t_since_move + 1;
        let mut sound = MenuSound::Silent;
        match input {
            MenuInput::Down => {
                self.highlighted = (self.highlighted + 1) % SETTINGS_OPTION_COUNT;
                self.t_since_move = 0;
                sound = MenuSound::Move;
            },
            MenuInput::Up => {
                self.highlighted = self.highlighted - 1;
                if self.highlighted < 0 {
                    self.highlighted = SETTINGS_OPTION_COUNT - 1;
                }
                self.t_since_move = 0;
                sound = MenuSound::Move;
            },
            _ => {},
        }
        let mut change = SettingsChange::Nothing;
        let mut stay_open = true;
        let h = self.highlighted;
        if h == 0 {
            match input {
                MenuInput::Left => change = SettingsChange::MusicVolumeDown,
                MenuInput::Right => change = SettingsChange::MusicVolumeUp,
                _ => {},
            }
        } else if h == 1 {
            match input {
                MenuInput::Left => {
                    change = SettingsChange::SfxVolumeDown;
                    sound = MenuSound::Click;
                },
                MenuInput::Right => {
                    change = SettingsChange::SfxVolumeUp;
                    sound = MenuSound::Click;
                },
                _ => {},
            }
        } else if h <= 6 {
            if input.is_toggle() {
                sound = MenuSound::Click;
                change = if h == 2 {
                    SettingsChange::ToggleFullscreen
                } else if h == 3 {
                    SettingsChange::ToggleScreenshake
                } else if h == 4 {
                    SettingsChange::ToggleVibration
                } else if h == 5 {
                    SettingsChange::ToggleFlashing
                } else {
                    SettingsChange::ToggleCrtShader
                };
            }
        } else {
            match input {
                MenuInput::Select => {
                    sound = MenuSound::Click;
                    stay_open = false;
                },
                _ => {},
            }
        }
        SettingsStep { change, sound, stay_open }
    }
}

/// What the pause menu answers at a tick.
#[derive(Debug, Clone, Copy, PartialEq, Eq, Structural)]
pub enum PauseResult {
    Nothing,
    Unpause,
    Exit,
    Lobby,
    Feedback,
}

/// What one step of the pause menu asks of its caller.
#[derive(Debug, Clone, Copy, PartialEq, Eq, Structural)]
pub struct PauseStep {
    pub result: PauseResult,
    pub sound: MenuSound,
    /// An option was chosen: the screen flashes.
    pub flash: bool,
    /// The step of the settings menu, where it was open.
    pub settings: Option<SettingsStep>,
}

/// The pause menu, and the settings menu where that is open over it.
#[derive(Debug, Clone, Copy, PartialEq, Eq, Structural)]
pub struct Pause {
    pub t: i32,
    pub t_since_move: i32,
    pub highlighted: i32,
    pub settings_menu: Option<SettingsMenu>,
}

/// What choosing option `h` of the pause menu answers.
pub open spec fn pause_choice(h: i32) -> PauseResult {
    if h == 0 {
        PauseResult::Unpause
    } else if h == 1 {
        PauseResult::Lobby
    } else if h == 3 {
        PauseResult::Feedback
    } else if h == 4 {
        PauseResult::Exit
    } else {
        PauseResult::Nothing
    }
}

impl Pause {
    pub open spec fn wf(&self) -> bool {
        &&& 0 <= self.highlighted < PAUSE_OPTION_COUNT
        &&& self.settings_menu matches Some(m) ==> m.wf()
    }

    pub fn new() -> (r: Self)
        ensures
            r == (Pause { t: 0, t_since_move: 0, highlighted: 0, settings_menu: None }),
    {
        Pause { t: 0, t_since_move: 0, highlighted: 0, settings_menu: None }
    }

    /// One tick of the pause menu with the input read at this tick. While the settings menu is
    /// open, the input goes to it, and the pause menu itself stands still.
    pub fn tick(&mut self, input: MenuInput) -> (r: PauseStep)
        requires
            old(self).wf(),
            old(self).t < i32::MAX,
            old(self).t_since_move < i32::MAX,
            old(self).settings_menu matches Some(m) ==> m.t < i32::MAX && m.t_since_move < i32::MAX,
        ensures
            final(self).wf(),
            match old(self).settings_menu {
                Some(m) => {
                    let h = cursor_after(m.highlighted, input, SETTINGS_OPTION_COUNT);
                    let step = settings_step(h, input);
                    &&& r == (PauseStep { result: PauseResult::Nothing, sound: MenuSound::Silent, flash: false, settings: Some(step) })
                    &&& final(self).t == old(self).t
                    &&& final(self).t_since_move == old(self).t_since_move
                    &&& final(self).highlighted == old(self).highlighted
                    &&& final(self).settings_menu == if step.stay_open {
                        Some(SettingsMenu {
                            t: (m.t + 1) as i32,
                            t_since_move: if input is Up || input is Down { 0 } else { (m.t_since_move + 1) as i32 },
                            highlighted: h,
                        })
                    } else {
                        None
                    }
                },
                None => {
                    let h = cursor_after(old(self).highlighted, input, PAUSE_OPTION_COUNT);
                    &&& final(self).t == old(self).t + 1
                    &&& final(self).highlighted == h
                    &&& final(self).t_since_move == if input is Up || input is Down {
                        0
                    } else {
                        old(self).t_since_move + 1
                    }
                    &&& r.settings is None
                    &&& r.flash == (input is Select)
                    &&& r.sound == if input is Up || input is Down {
                        MenuSound::Move
                    } else if input is Select {
                        MenuSound::Click
                    } else {
                        MenuSound::Silent
                    }
                    &&& r.result == if input is Select {
                        pause_choice(h)
                    } else {
                        PauseResult::Nothing
                    }
                    &&& final(self).settings_menu == if input is Select && h == 2 {
                        Some(SettingsMenu { t: 0, t_since_move: 0, highlighted: 0 })
                    } else {
                        None
                    }
                },
            },
    {
        match self.settings_menu {
            Some(m) => {
                let mut menu = m;
                let step = menu.tick(input);
                self.settings_menu = if step.stay_open {
                    Some(menu)
                } else {
                    None
                };
                return PauseStep { result: PauseResult::Nothing, sound: MenuSound::Silent, flash: false, settings: Some(step) };
            },
            None => {},
        }
        self.t = self.t + 1;
        self.t_since_move = self.t_since_move + 1;
        let mut sound = MenuSound::Silent;
        match input {
            MenuInput::Down => {
                self.highlighted = (self.highlighted + 1) % PAUSE_OPTION_COUNT;
                self.t_since_move = 0;
                sound = MenuSound::Move;
            },
            MenuInput::Up => {
                self.highlighted = self.highlighted - 1;
                if self.highlighted < 0 {
                    self.highlighted = PAUSE_OPTION_COUNT - 1;
                }
                self.t_since_move = 0;
                sound = MenuSound::Move;
            },
            _ => {},
        }
        let mut result = PauseResult::Nothing;
        let mut flash = false;
        match input {
            MenuInput::Select => {
                flash = true;
                sound = MenuSound::Click;
                let h = self.highlighted;
                if h == 0 {
                    result = PauseResult::Unpause;
                } else if h == 1 {
                    result = PauseResult::Lobby;
                } else if h == 2 {
                    self.settings_menu = Some(SettingsMenu::new());
                } else if h == 3 {
                    result = PauseResult::Feedback;
                } else {
                    result = PauseResult::Exit;
                }
            },
            _ => {},
        }
        PauseStep { result, sound, flash, settings: None }
    }
}


/// Moving the cursor down and then up brings it back to the option it was on, and so does up
/// then down.
pub proof fn law_cursor_down_then_up(h: i32, count: i32)
    requires
        0 <= h < count,
    ensures
        cursor_after(cursor_after(h, MenuInput::Down, count), MenuInput::Up, count) == h,
        cursor_after(cursor_after(h, MenuInput::Up, count), MenuInput::Down, count) == h,
        0 <= cursor_after(h, MenuInput::Down, count) < count,
        0 <= cursor_after(h, MenuInput::Up, count) < count,
{
    if h + 1 < count {
        vstd::arithmetic::div_mod::lemma_small_mod((h + 1) as nat, count as nat);
    } else {
        vstd::arithmetic::div_mod::lemma_mod_self_0(count as int);
    }
    if h > 0 {
        vstd::arithmetic::div_mod::lemma_small_mod(h as nat, count as nat);
    } else {
        vstd::arithmetic::div_mod::lemma_mod_self_0(count as int);
    }
}

} // verus!
