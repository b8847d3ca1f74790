//! Core game logic of a multiplayer crossing game: player id maps, ring buffers,
//! bit rows, icy-section verification, the round state machine and player movement.
use vstd::prelude::*;

pub mod ai;
pub mod bitmap;
pub mod crossy_ruleset;
pub mod entities;
pub mod froggy;
pub mod game;
pub mod game_state;
pub mod icy;
pub mod icy_graph;
pub mod interop;
pub mod map;
pub mod menu;
pub mod player;
pub mod player_id_map;
pub mod ring_buffer;
pub mod rng;
pub mod sections;
pub mod timeline;

verus! {

} // verus!
