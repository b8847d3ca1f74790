use vstd::prelude::*;
use crate::game::{Input, PlayerId, Pos};
use crate::game_state::{
    GameState, MoveTable, ids_match, table_move, push_of, scan_others, slot, spec_push, spec_tick_iterate, spec_tick_timers,
    spec_try_move, spec_try_move_player, tick_push,
};

verus! {

/// Time a move between two tiles takes, in microseconds.
pub const MOVE_DUR: u32 = 7 * (1_000_000 / 60);

/// Time a player waits after landing before moving again, in microseconds.
pub const MOVE_COOLDOWN_MAX: u32 = 1;

/// Who pushes whom during a move.
#[derive(Debug, Copy, Clone, PartialEq, Eq, Structural)]
pub struct PushInfo {
    pub pushed_by: Option<PlayerId>,
    pub pushing: Option<PlayerId>,
}

impl Default for PushInfo {
    fn default() -> (r: Self)
        ensures
            r.pushed_by is None,
            r.pushing is None,
    {
        PushInfo { pushed_by: None, pushing: None }
    }
}

/// A move under way: where to, how long is left, and the pushes it involves.
#[derive(Debug, Copy, Clone, PartialEq, Eq, Structural)]
pub struct MovingState {
    pub remaining_us: u32,
    pub target: Pos,
    pub push_info: PushInfo,
}

impl MovingState {
    pub fn new(target: Pos) -> (r: MovingState)
        ensures
            r == (MovingState { remaining_us: MOVE_DUR, target, push_info: PushInfo { pushed_by: None, pushing: None } }),
    {
        MovingState { remaining_us: MOVE_DUR, push_info: PushInfo::default(), target }
    }

    pub fn with_push(target: Pos, push_info: PushInfo) -> (r: MovingState)
        ensures
            r == (MovingState { remaining_us: MOVE_DUR, target, push_info }),
    {
        MovingState { remaining_us: MOVE_DUR, target, push_info }
    }
}

#[derive(Debug, Copy, Clone, PartialEq, Eq, Structural)]
pub enum MoveState {
    Stationary,
    Moving(MovingState),
}

/// A player pushed one tile in direction `dir` by another.
#[derive(Debug, Copy, Clone, PartialEq, Eq, Structural)]
pub struct Push {
    pub id: PlayerId,
    pub pushed_by: PlayerId,
    pub dir: Input,
}

#[derive(Debug, Copy, Clone, PartialEq, Eq, Structural)]
pub struct PlayerState {
    pub id: PlayerId,
    pub move_state: MoveState,
    pub move_cooldown: u32,
    pub pos: Pos,
}

impl PlayerState {
    pub open spec fn spec_can_move(self) -> bool {
        self.move_state is Stationary && self.move_cooldown == 0
    }

    /// Standing still with no cooldown left.
    pub fn can_move(&self) -> (r: bool)
        ensures
            r == self.spec_can_move(),
    {
        if let MoveState::Stationary = self.move_state {
            self.move_cooldown == 0
        } else {
            false
        }
    }

    pub open spec fn spec_is_being_pushed_by(self, by: Option<PlayerId>) -> bool {
        self.move_state matches MoveState::Moving(s) && s.push_info.pushed_by == by
    }

    /// In a move that someone else's push started.
    pub fn is_being_pushed(&self) -> (r: bool)
        ensures
            r == (self.move_state matches MoveState::Moving(s) && s.push_info.pushed_by is Some),
    {
        match &self.move_state {
            MoveState::Moving(s) => s.push_info.pushed_by.is_some(),
            _ => false,
        }
    }

    pub fn is_being_pushed_by(&self, player: PlayerId) -> (r: bool)
        ensures
            r == self.spec_is_being_pushed_by(Some(player)),
    {
        match &self.move_state {
            MoveState::Moving(s) => match s.push_info.pushed_by {
                Some(p) => p == player,
                None => false,
            },
            _ => false,
        }
    }

    /// The player placed at `pos`, standing still, just landed.
    pub open spec fn spec_reset_to(self, pos: Pos) -> PlayerState {
        PlayerState { pos, move_state: MoveState::Stationary, move_cooldown: MOVE_COOLDOWN_MAX, ..self }
    }

    pub fn reset_to_pos(&mut self, pos: Pos)
        ensures
            *final(self) == old(self).spec_reset_to(pos),
    {
        self.pos = pos;
        self.move_state = MoveState::Stationary;
        self.move_cooldown = MOVE_COOLDOWN_MAX;
    }
}


/// The pushes a move makes, as a list.
pub open spec fn push_seq(p: Option<Push>) -> Seq<Push> {
    match p {
        Some(x) => seq![x],
        None => Seq::empty(),
    }
}

impl PlayerState {
    /// Runs the player's clocks and, if it is free to move and `input` is a direction, tries to
    /// move; a push that the move makes is added to `pushes`.
    pub fn tick_iterate(&self, state: &GameState, input: Input, dt_us: u32, pushes: &mut Vec<Push>, moves: &MoveTable) -> (r: Self)
        requires
            ids_match(state.player_states@),
        ensures
            r == spec_tick_iterate(*self, input, dt_us, state.player_states@, moves.moves@),
            final(pushes)@ == old(pushes)@ + push_seq(tick_push(*self, input, dt_us, state.player_states@, moves.moves@)),
    {
        let mut new = *self;
        match new.move_state {
            MoveState::Stationary => {
                new.move_cooldown = new.move_cooldown.saturating_sub(dt_us);
            },
            MoveState::Moving(moving_state) => {
                match moving_state.remaining_us.checked_sub(dt_us) {
                    Some(remaining_us) => {
                        let mut new_state = moving_state;
                        new_state.remaining_us = remaining_us;
                        new.move_state = MoveState::Moving(new_state);
                    },
                    _ => {
                        let leftover_us = dt_us - moving_state.remaining_us;
                        new.pos = moving_state.target;
                        new.move_state = MoveState::Stationary;
                        new.move_cooldown = MOVE_COOLDOWN_MAX.saturating_sub(leftover_us);
                    },
                }
            },
        }
        proof {
            assert(new == spec_tick_timers(*self, dt_us));
        }
        if new.can_move() && input != Input::Idle {
            if let Some(moving_state) = new.try_move(input, state, pushes, moves) {
                new.move_state = MoveState::Moving(moving_state);
            }
        }
        new
    }

    /// The player pushed one tile in the push's direction, if the map lets it move there.
    pub fn push(&self, push: &Push, moves: &MoveTable) -> (r: Self)
        ensures
            r == spec_push(*self, *push, moves.moves@),
    {
        match moves.lookup(self.pos, push.dir) {
            Some(new_pos) => {
                let mut new = *self;
                let push_info = PushInfo { pushed_by: Some(push.pushed_by), pushing: None };
                new.move_state = MoveState::Moving(MovingState::with_push(new_pos, push_info));
                new
            },
            None => *self,
        }
    }

    /// The move towards `input`, if the map and the other players allow it.
    fn try_move(&self, input: Input, state: &GameState, pushes: &mut Vec<Push>, moves: &MoveTable) -> (r: Option<MovingState>)
        requires
            ids_match(state.player_states@),
        ensures
            r == spec_try_move(*self, input, state.player_states@, moves.moves@),
            final(pushes)@ == old(pushes)@ + push_seq(push_of(*self, input, r)),
    {
        let ghost s = state.player_states@;
        let ghost t = moves.moves@;
        let new_pos = match moves.lookup(self.pos, input) {
            Some(p) => p,
            None => {
                return None;
            },
        };
        let mut i: usize = 0;
        while i < 256
            invariant
                i <= 256,
                s == state.player_states@,
                t == moves.moves@,
                ids_match(s),
                pushes@ == old(pushes)@,
                table_move(t, self.pos, input) == Some(new_pos),
                scan_others(self.id, input, new_pos, s, t, 0) == scan_others(self.id, input, new_pos, s, t, i as nat),
            decreases 256 - i,
        {
            let id = PlayerId(i as u8);
            proof {
                assert(state.player_states.spec_get(id) == slot(s, id));
            }
            if id != self.id {
                if let Some(other) = state.player_states.get(id) {
                    proof {
                        assert(other.id == id);
                    }
                    match self.try_move_player(input, new_pos, other, state, pushes, moves) {
                        None => {
                            return None;
                        },
                        Some(possible_push_info) => {
                            if possible_push_info.pushing.is_some() {
                                return Some(MovingState::with_push(new_pos, possible_push_info));
                            }
                        },
                    }
                }
            }
            i += 1;
        }
        Some(MovingState::with_push(new_pos, PushInfo { pushed_by: None, pushing: None }))
    }

    /// What moving onto `candidate_pos` means for the player `other`; a push of `other` is added
    /// to `pushes`.
    fn try_move_player(&self, dir: Input, candidate_pos: Pos, other: &PlayerState, state: &GameState, pushes: &mut Vec<Push>, moves: &MoveTable) -> (r: Option<PushInfo>)
        requires
            state.player_states.spec_contains(other.id),
        ensures
            r == spec_try_move_player(dir, candidate_pos, *other, state.player_states@, moves.moves@),
            final(pushes)@ == old(pushes)@ + if r matches Some(pi) && pi.pushing is Some {
                seq![Push { id: other.id, pushed_by: self.id, dir }]
            } else {
                Seq::empty()
            },
    {
        if other.pos == candidate_pos {
            if let MoveState::Moving(_) = other.move_state {
                return None;
            }
            if state.can_push(other.id, dir, moves) {
                pushes.push(Push { id: other.id, pushed_by: self.id, dir });
                Some(PushInfo { pushed_by: None, pushing: Some(other.id) })
            } else {
                None
            }
        } else {
            match other.move_state {
                MoveState::Moving(moving) => {
                    if moving.target != candidate_pos {
                        Some(PushInfo { pushed_by: None, pushing: None })
                    } else {
                        None
                    }
                },
                _ => Some(PushInfo { pushed_by: None, pushing: None }),
            }
        }
    }
}

} // verus!
