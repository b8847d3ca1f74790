use vstd::prelude::*;
use crate::crossy_ruleset::{player_in_lobby_ready_zone, LOBBY_READ_ZONE_X_MAX, LOBBY_READ_ZONE_X_MIN, LOBBY_READ_ZONE_Y_MAX, LOBBY_READ_ZONE_Y_MIN};
use crate::game::{Input, PlayerId, Pos};
use crate::game_state::GameState;
use crate::player::PlayerState;

verus! {

/// A computer player that walks left for sixty frames, then right for sixty, and so on.
#[derive(Debug, Clone, Copy, PartialEq, Eq, Structural)]
pub struct BackAndForth {
    pub player_id: PlayerId,
}

impl BackAndForth {
    pub fn new(player_id: PlayerId) -> (r: Self)
        ensures
            r.player_id == player_id,
    {
        BackAndForth { player_id }
    }

    pub fn think(&self, game_state: &GameState) -> (r: Input)
        ensures
            r == if (game_state.frame_id / 60) % 2 == 0 {
                Input::Left
            } else {
                Input::Right
            },
    {
        if (game_state.frame_id / 60) % 2 == 0 {
            Input::Left
        } else {
            Input::Right
        }
    }
}

/// What a computer player does in the lobby: nothing once it is ready (or gone), else a step
/// toward the ready zone, across first, then along.
pub open spec fn lobby_step(player: Option<PlayerState>) -> Input {
    match player {
        None => Input::Idle,
        Some(p) => if p.pos is Lillipad {
            Input::Idle
        } else {
            let c = p.pos->Coord_0;
            if c.x < LOBBY_READ_ZONE_X_MIN {
                Input::Right
            } else if c.x > LOBBY_READ_ZONE_X_MAX {
                Input::Left
            } else if c.y < LOBBY_READ_ZONE_Y_MIN {
                Input::Down
            } else if c.y > LOBBY_READ_ZONE_Y_MAX {
                Input::Up
            } else {
                Input::Idle
            }
        },
    }
}

/// The lobby move of the computer player `player_id`.
pub fn think_lobby(game_state: &GameState, player_id: PlayerId) -> (r: Input)
    ensures
        r == lobby_step(game_state.player_states.spec_get(player_id)),
{
    match game_state.get_player(player_id) {
        Some(player_state) => {
            if player_in_lobby_ready_zone(player_state) {
                return Input::Idle;
            }
            match player_state.pos {
                Pos::Coord(c) => {
                    if c.x < LOBBY_READ_ZONE_X_MIN {
                        return Input::Right;
                    }
                    if c.x > LOBBY_READ_ZONE_X_MAX {
                        return Input::Left;
                    }
                    if c.y < LOBBY_READ_ZONE_Y_MIN {
                        return Input::Down;
                    }
                    if c.y > LOBBY_READ_ZONE_Y_MAX {
                        return Input::Up;
                    }
                    Input::Idle
                },
                Pos::Lillipad(_) => Input::Idle,
            }
        },
        None => Input::Idle,
    }
}

} // verus!
