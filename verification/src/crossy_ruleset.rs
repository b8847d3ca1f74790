use vstd::prelude::*;
use crate::game::{CoordPos, PlayerId, Pos, SCREEN_SIZE};
use crate::player::PlayerState;
use crate::player_id_map::{PlayerIdMap, count_ids};

verus! {

pub const INTRO_COUNTDOWN_TIME_US: u32 = 6 * 1_000_000;
pub const COUNTDOWN_TIME_US: u32 = 3 * 1_000_000;
pub const COOLDOWN_TIME_US: u32 = 4 * 1_000_000;
pub const WINNER_TIME_US: u32 = 3 * 1_000_000;

/// How far above the screen top the map is generated during a round.
pub const RIVER_SPAWN_Y_OFFSET: i32 = 12;

/// The screen top stays this many rows above the highest living player.
pub const SCREEN_Y_BUFFER: i32 = 6;

/// A player this many rows below the bottom of the screen is dead.
pub const SCREEN_KILL_BUFFER: i32 = 4;

/// Ticks with everyone on the raft before the raft sets off.
pub const LOBBY_READY_TICKS: u32 = 40;

pub const LOBBY_READ_ZONE_X_MIN: i32 = 7;
pub const LOBBY_READ_ZONE_X_MAX: i32 = 12;
pub const LOBBY_READ_ZONE_Y_MIN: i32 = 12;
pub const LOBBY_READ_ZONE_Y_MAX: i32 = 15;

#[derive(Debug, Clone, Copy, PartialEq, Eq, Structural)]
pub struct GameConfig {
    pub required_win_count: u8,
    pub minimum_players: u8,
    pub bypass_lobby: bool,
}

impl Default for GameConfig {
    fn default() -> (r: Self)
        ensures
            r == (GameConfig { required_win_count: 3, minimum_players: 2, bypass_lobby: false }),
    {
        GameConfig { required_win_count: 3, minimum_players: 2, bypass_lobby: false }
    }
}

#[derive(Debug, Clone, Copy, PartialEq, Eq, Structural)]
pub struct LobbyState {
    pub time_with_all_players_in_ready_zone: u32,
}

#[derive(Debug, Clone, Copy, PartialEq, Eq, Structural)]
pub enum AliveState {
    NotInGame,
    Alive,
    Dead,
}

/// The countdown before a round.
#[derive(Debug, Clone)]
pub struct WarmupState {
    pub remaining_us: u32,
    pub time_full_us: u32,
    /// Players who join during the warmup wait for the next round.
    pub alive_states: PlayerIdMap<AliveState>,
    pub win_counts: PlayerIdMap<u8>,
    pub round_id: u8,
}

#[derive(Debug, Clone)]
pub struct RoundState {
    pub screen_y: i32,
    pub alive_states: PlayerIdMap<AliveState>,
    pub win_counts: PlayerIdMap<u8>,
    pub round_id: u8,
}

#[derive(Debug, Clone)]
pub struct CooldownState {
    pub remaining_us: u32,
    pub round_state: RoundState,
}

#[derive(Debug, Clone, Copy, PartialEq, Eq, Structural)]
pub struct EndWinnerState {
    pub winner_id: PlayerId,
    pub remaining_us: u32,
}

impl EndWinnerState {
    pub fn new(winner_id: PlayerId) -> (r: Self)
        ensures
            r == (EndWinnerState { winner_id, remaining_us: WINNER_TIME_US }),
    {
        EndWinnerState { winner_id, remaining_us: WINNER_TIME_US }
    }
}

#[derive(Debug, Clone, Copy, PartialEq, Eq, Structural)]
pub struct EndAllLeftState {
    pub remaining_us: u32,
}

impl Default for EndAllLeftState {
    fn default() -> (r: Self)
        ensures
            r.remaining_us == WINNER_TIME_US,
    {
        EndAllLeftState { remaining_us: WINNER_TIME_US }
    }
}

/// The phases of a game: lobby, warmup, round, cooldown, and the two endings.
#[derive(Debug, Clone)]
pub enum CrossyRulesetFST {
    Lobby { time_with_all_players_in_ready_zone: u32 },
    RoundWarmup(WarmupState),
    Round(RoundState),
    RoundCooldown(CooldownState),
    EndWinner(EndWinnerState),
    EndAllLeft(EndAllLeftState),
}

#[derive(Debug, Clone)]
pub struct RulesState {
    pub game_id: u32,
    pub fst: CrossyRulesetFST,
    pub config: GameConfig,
}

/// What the map says of the tile a player is on, at the current tick.
#[derive(Debug, Clone, Copy, PartialEq, Eq, Structural)]
pub struct Hazard {
    /// The lobby's row under the player is the lobby river.
    pub lobby_river: bool,
    /// The round's row under the player is a river.
    pub river: bool,
    /// A car hits the tile the player stands on, or moves to.
    pub car: bool,
    /// The lillipad the player rides has drifted off the screen.
    pub adrift: bool,
}

/// The two readings of the lobby raft, whose position is a float kept outside this library.
#[derive(Debug, Clone, Copy, PartialEq, Eq, Structural)]
pub struct LobbyReadings {
    /// The raft has passed the start line.
    pub raft_past_start: bool,
    /// The ready-zone count shrunk to four fifths, as the lobby rounds it.
    pub ready_time_decayed: u32,
}

/// What becomes of the lobby raft.
#[derive(Debug, Clone, Copy, PartialEq, Eq, Structural)]
pub enum RaftStep {
    /// There is no lobby after the tick.
    NoLobby,
    /// The raft moves on towards the start line.
    Advance,
    /// The raft drifts back towards its mooring.
    Drift,
    /// A new lobby starts with the raft at its mooring.
    Reset,
}

pub open spec fn no_hazard() -> Hazard {
    Hazard { lobby_river: false, river: false, car: false, adrift: false }
}

/// The hazard reported for `id`; none where nothing is reported.
pub open spec fn hazard_at(h: PlayerIdMap<Hazard>, id: PlayerId) -> Hazard {
    match h.spec_get(id) {
        Some(z) => z,
        None => no_hazard(),
    }
}

/// The row a position lies on.
pub open spec fn pos_y(p: Pos) -> int {
    match p {
        Pos::Coord(c) => c.y as int,
        Pos::Lillipad(l) => l.y as int,
    }
}

/// Whether a living player dies this tick: below the screen, in a river or under a car on a
/// tile, or carried off the screen on a lillipad.
pub open spec fn spec_should_kill(p: PlayerState, screen_y: int, h: Hazard) -> bool {
    match p.pos {
        Pos::Coord(c) => c.y > screen_y + SCREEN_SIZE + SCREEN_KILL_BUFFER || h.river || h.car,
        Pos::Lillipad(_) => h.adrift,
    }
}

pub open spec fn is_alive_in(alive: PlayerIdMap<AliveState>, ps: PlayerIdMap<PlayerState>, id: PlayerId) -> bool {
    ps.spec_contains(id) && alive.spec_get(id) == Some(AliveState::Alive)
}

/// The screen top after taking the players of ids below `n` into account.
pub open spec fn screen_upto(screen_y: int, ps: PlayerIdMap<PlayerState>, alive: PlayerIdMap<AliveState>, n: nat) -> int
    decreases n,
{
    if n == 0 {
        screen_y
    } else {
        let s = screen_upto(screen_y, ps, alive, (n - 1) as nat);
        let id = PlayerId((n - 1) as u8);
        if is_alive_in(alive, ps, id) {
            let y = pos_y(ps.spec_get(id)->0.pos) - SCREEN_Y_BUFFER;
            if y < s {
                y
            } else {
                s
            }
        } else {
            s
        }
    }
}

/// The screen top follows the highest living player, never moving down.
pub open spec fn spec_screen_y(screen_y: int, ps: PlayerIdMap<PlayerState>, alive: PlayerIdMap<AliveState>) -> int {
    screen_upto(screen_y, ps, alive, 256)
}

/// The living players' rows lie far enough from the bottom of the `i32` range.
pub open spec fn rows_in_range(ps: PlayerIdMap<PlayerState>, alive: PlayerIdMap<AliveState>) -> bool {
    forall|id: PlayerId| #[trigger] is_alive_in(alive, ps, id) ==> pos_y(ps.spec_get(id)->0.pos) >= i32::MIN + SCREEN_Y_BUFFER
}

proof fn lemma_screen_bounds(screen_y: int, ps: PlayerIdMap<PlayerState>, alive: PlayerIdMap<AliveState>, n: nat)
    requires
        rows_in_range(ps, alive),
        i32::MIN <= screen_y <= i32::MAX,
    ensures
        i32::MIN <= screen_upto(screen_y, ps, alive, n) <= screen_y,
    decreases n,
{
    if n > 0 {
        lemma_screen_bounds(screen_y, ps, alive, (n - 1) as nat);
        let id = PlayerId((n - 1) as u8);
        if is_alive_in(alive, ps, id) {
            assert(pos_y(ps.spec_get(id)->0.pos) >= i32::MIN + SCREEN_Y_BUFFER);
        }
    }
}

/// Moves the screen top up to the highest living player, less the buffer.
fn update_screen_y(screen_y: i32, player_states: &PlayerIdMap<PlayerState>, alive_states: &PlayerIdMap<AliveState>) -> (r: i32)
    requires
        rows_in_range(*player_states, *alive_states),
    ensures
        r == spec_screen_y(screen_y as int, *player_states, *alive_states),
{
    let mut screen = screen_y;
    let mut i: usize = 0;
    while i < 256
        invariant
            i <= 256,
            rows_in_range(*player_states, *alive_states),
            screen == screen_upto(screen_y as int, *player_states, *alive_states, i as nat),
        decreases 256 - i,
    {
        let id = PlayerId(i as u8);
        proof {
            lemma_screen_bounds(screen_y as int, *player_states, *alive_states, i as nat);
        }
        match player_states.get(id) {
            Some(player) => {
                if let Some(AliveState::Alive) = alive_states.get_copy(id) {
                    proof {
                        assert(is_alive_in(*alive_states, *player_states, id));
                    }
                    let y = match player.pos {
                        Pos::Coord(pos) => pos.y,
                        Pos::Lillipad(lilli) => lilli.y,
                    };
                    let cand = y - SCREEN_Y_BUFFER;
                    if cand < screen {
                        screen = cand;
                    }
                }
            },
            None => {},
        }
        i += 1;
    }
    screen
}

/// Whether a living player dies this tick, given what the map reports of its tile.
fn should_kill(player_state: &PlayerState, screen_y: i32, hazard: Hazard) -> (r: bool)
    ensures
        r == spec_should_kill(*player_state, screen_y as int, hazard),
{
    match player_state.pos {
        Pos::Coord(coord_pos) => {
            if coord_pos.y as i64 > screen_y as i64 + SCREEN_SIZE as i64 + SCREEN_KILL_BUFFER as i64 {
                return true;
            }
            if hazard.river {
                return true;
            }
            hazard.car
        },
        Pos::Lillipad(_) => hazard.adrift,
    }
}

/// Marks dead every living player whose tile kills it.
fn kill_players(alive_states: &mut PlayerIdMap<AliveState>, player_states: &PlayerIdMap<PlayerState>, hazards: &PlayerIdMap<Hazard>, screen_y: i32)
    ensures
        forall|id: PlayerId| #[trigger] final(alive_states).spec_get(id) == if is_alive_in(*old(alive_states), *player_states, id)
            && spec_should_kill(player_states.spec_get(id)->0, screen_y as int, hazard_at(*hazards, id)) {
            Some(AliveState::Dead)
        } else {
            old(alive_states).spec_get(id)
        },
{
    let mut i: usize = 0;
    while i < 256
        invariant
            i <= 256,
            forall|id: PlayerId| (id.0 as int) < i ==> #[trigger] alive_states.spec_get(id) == if is_alive_in(*old(alive_states), *player_states, id)
                && spec_should_kill(player_states.spec_get(id)->0, screen_y as int, hazard_at(*hazards, id)) {
                Some(AliveState::Dead)
            } else {
                old(alive_states).spec_get(id)
            },
            forall|id: PlayerId| (id.0 as int) >= i ==> #[trigger] alive_states.spec_get(id) == old(alive_states).spec_get(id),
        decreases 256 - i,
    {
        let id = PlayerId(i as u8);
        match player_states.get(id) {
            Some(player) => {
                let alive = match alive_states.get_copy(id) {
                    Some(a) => a,
                    None => AliveState::NotInGame,
                };
                if alive == AliveState::Alive {
                    let hazard = match hazards.get_copy(id) {
                        Some(z) => z,
                        None => Hazard { lobby_river: false, river: false, car: false, adrift: false },
                    };
                    if should_kill(player, screen_y, hazard) {
                        alive_states.set(id, AliveState::Dead);
                    }
                }
            },
            None => {},
        }
        proof {
            assert forall|other: PlayerId| (other.0 as int) < i + 1 implies #[trigger] alive_states.spec_get(other) == if is_alive_in(*old(alive_states), *player_states, other)
                && spec_should_kill(player_states.spec_get(other)->0, screen_y as int, hazard_at(*hazards, other)) {
                Some(AliveState::Dead)
            } else {
                old(alive_states).spec_get(other)
            } by {
                if other.0 as int == i {
                    assert(other == id);
                }
            }
        }
        i += 1;
    }
}

/// In the lobby a player is ready once aboard the raft.
pub fn player_in_lobby_ready_zone(player: &PlayerState) -> (r: bool)
    ensures
        r == player.pos is Lillipad,
{
    if let Pos::Lillipad(_lilly) = player.pos {
        true
    } else {
        false
    }
}


/// The largest id below `n` that satisfies `f`, or 0.
pub open spec fn max_id(f: spec_fn(PlayerId) -> bool, n: nat) -> int
    decreases n,
{
    if n == 0 {
        0
    } else if f(PlayerId((n - 1) as u8)) {
        n - 1
    } else {
        max_id(f, (n - 1) as nat)
    }
}

proof fn lemma_max_id_bounds(f: spec_fn(PlayerId) -> bool, n: nat)
    requires
        n <= 256,
    ensures
        0 <= max_id(f, n) < 256,
    decreases n,
{
    if n > 0 {
        lemma_max_id_bounds(f, (n - 1) as nat);
    }
}

/// A player put back on the starting line `y`, spread out around the middle of the screen by
/// id; `offset` is the largest id in the game.
pub open spec fn reset_player(p: PlayerState, offset: int, y: i32) -> PlayerState {
    p.spec_reset_to(Pos::Coord(CoordPos { x: (p.id.0 + 9 - offset / 2) as i32, y }))
}

pub open spec fn reset_slot(slot: Option<PlayerState>, offset: int, y: i32) -> Option<PlayerState> {
    match slot {
        Some(p) => Some(reset_player(p, offset, y)),
        None => None,
    }
}

/// The occupied ids of a map.
pub open spec fn occupied(ps: PlayerIdMap<PlayerState>) -> spec_fn(PlayerId) -> bool {
    |id: PlayerId| ps.spec_contains(id)
}

enum ResetPositionTarget {
    LobbyPositions,
    RacePositions,
}

spec fn target_row(t: ResetPositionTarget) -> i32 {
    match t {
        ResetPositionTarget::LobbyPositions => 11,
        ResetPositionTarget::RacePositions => 16,
    }
}

/// Puts every player back on the lobby line or the race line.
fn reset_positions(player_states: &mut PlayerIdMap<PlayerState>, target: ResetPositionTarget)
    ensures
        forall|id: PlayerId| #[trigger] final(player_states).spec_get(id) == reset_slot(
            old(player_states).spec_get(id),
            max_id(occupied(*old(player_states)), 256),
            target_row(target),
        ),
{
    let ghost f = occupied(*player_states);
    let mut offset: i32 = 0;
    let mut i: usize = 0;
    while i < 256
        invariant
            i <= 256,
            f == occupied(*player_states),
            offset == max_id(f, i as nat),
            0 <= offset < 256,
        decreases 256 - i,
    {
        if player_states.contains(PlayerId(i as u8)) {
            offset = i as i32;
        }
        proof {
            assert(f(PlayerId(i as u8)) == player_states.spec_contains(PlayerId(i as u8)));
        }
        i += 1;
    }
    let y = match target {
        ResetPositionTarget::LobbyPositions => 11,
        ResetPositionTarget::RacePositions => 16,
    };
    let ghost ps0 = *player_states;
    i = 0;
    while i < 256
        invariant
            i <= 256,
            0 <= offset < 256,
            offset == max_id(f, 256),
            f == occupied(*old(player_states)),
            ps0 == *old(player_states),
            y == target_row(target),
            forall|id: PlayerId| (id.0 as int) < i ==> #[trigger] player_states.spec_get(id) == reset_slot(ps0.spec_get(id), offset as int, y),
            forall|id: PlayerId| (id.0 as int) >= i ==> #[trigger] player_states.spec_get(id) == ps0.spec_get(id),
        decreases 256 - i,
    {
        let id = PlayerId(i as u8);
        let ghost before = *player_states;
        match player_states.get_mut(id) {
            Some(player_state) => {
                let x = player_state.id.0 as i32 + 9 - offset / 2;
                player_state.reset_to_pos(Pos::Coord(CoordPos { x, y }));
            },
            None => {},
        }
        proof {
            assert forall|other: PlayerId| (other.0 as int) < i + 1 implies #[trigger] player_states.spec_get(other) == reset_slot(ps0.spec_get(other), offset as int, y) by {
                if other.0 as int == i {
                    assert(other == id);
                } else {
                    assert(before.spec_get(other) == player_states.spec_get(other));
                }
            }
            assert forall|other: PlayerId| (other.0 as int) >= i + 1 implies #[trigger] player_states.spec_get(other) == ps0.spec_get(other) by {
                assert(before.spec_get(other) == player_states.spec_get(other));
            }
        }
        i += 1;
    }
}


/// A player stays in the lobby unless standing in the lobby river.
pub open spec fn lobby_survivor(ps: PlayerIdMap<PlayerState>, h: PlayerIdMap<Hazard>, id: PlayerId) -> Option<PlayerState> {
    match ps.spec_get(id) {
        Some(p) => if p.pos is Coord && hazard_at(h, id).lobby_river {
            None
        } else {
            Some(p)
        },
        None => None,
    }
}

pub open spec fn lobby_present(ps: PlayerIdMap<PlayerState>, h: PlayerIdMap<Hazard>) -> spec_fn(PlayerId) -> bool {
    |id: PlayerId| lobby_survivor(ps, h, id) is Some
}

/// Every player left in the lobby is aboard the raft.
pub open spec fn lobby_all_ready(ps: PlayerIdMap<PlayerState>, h: PlayerIdMap<Hazard>) -> bool {
    forall|id: PlayerId| #[trigger] lobby_survivor(ps, h, id) matches Some(p) ==> p.pos is Lillipad
}

pub open spec fn lobby_bypass(ps: PlayerIdMap<PlayerState>, h: PlayerIdMap<Hazard>, cfg: GameConfig) -> bool {
    cfg.bypass_lobby && count_ids(lobby_present(ps, h), 256) > 0
}

/// The lobby is ready to go: bypassed, or enough players and all of them aboard.
pub open spec fn lobby_go(ps: PlayerIdMap<PlayerState>, h: PlayerIdMap<Hazard>, cfg: GameConfig) -> bool {
    lobby_bypass(ps, h, cfg) || (count_ids(lobby_present(ps, h), 256) >= cfg.minimum_players && lobby_all_ready(ps, h))
}

/// One tick of the lobby. Players in the lobby river leave the game. While the lobby is ready
/// the count of ready ticks grows and, past its threshold, the raft moves on until it passes the
/// start line, which starts the warmup of the first round with everyone alive, no wins, and
/// everyone on the race line. Otherwise the count shrinks and the raft drifts back.
pub open spec fn lobby_next(
    t: u32,
    ps0: PlayerIdMap<PlayerState>,
    h: PlayerIdMap<Hazard>,
    lobby: LobbyReadings,
    cfg: GameConfig,
    r: CrossyRulesetFST,
    raft: RaftStep,
    ps1: PlayerIdMap<PlayerState>,
) -> bool {
    let survivors_only = forall|id: PlayerId| #[trigger] ps1.spec_get(id) == lobby_survivor(ps0, h, id);
    if lobby_go(ps0, h, cfg) {
        if lobby_bypass(ps0, h, cfg) || t > LOBBY_READY_TICKS {
            if lobby.raft_past_start {
                &&& raft == RaftStep::NoLobby
                &&& r matches CrossyRulesetFST::RoundWarmup(w)
                &&& w.remaining_us == INTRO_COUNTDOWN_TIME_US
                &&& w.time_full_us == INTRO_COUNTDOWN_TIME_US
                &&& w.round_id == 1
                &&& forall|id: PlayerId| #[trigger] w.win_counts.spec_get(id) == if lobby_survivor(ps0, h, id) is Some {
                    Some(0u8)
                } else {
                    None
                }
                &&& forall|id: PlayerId| #[trigger] w.alive_states.spec_get(id) == if lobby_survivor(ps0, h, id) is Some {
                    Some(AliveState::Alive)
                } else {
                    None
                }
                &&& forall|id: PlayerId| #[trigger] ps1.spec_get(id) == reset_slot(lobby_survivor(ps0, h, id), max_id(lobby_present(ps0, h), 256), 16)
            } else {
                &&& r == CrossyRulesetFST::Lobby { time_with_all_players_in_ready_zone: (t + 1) as u32 }
                &&& raft == RaftStep::Advance
                &&& survivors_only
            }
        } else {
            &&& r == CrossyRulesetFST::Lobby { time_with_all_players_in_ready_zone: (t + 1) as u32 }
            &&& raft == RaftStep::Drift
            &&& survivors_only
        }
    } else {
        &&& r == CrossyRulesetFST::Lobby { time_with_all_players_in_ready_zone: lobby.ready_time_decayed }
        &&& raft == RaftStep::Drift
        &&& survivors_only
    }
}

/// A map with the ids that `f` holds, each holding `x`.
pub open spec fn seeded_with<T>(m: PlayerIdMap<T>, f: spec_fn(PlayerId) -> bool, x: T) -> bool {
    forall|id: PlayerId| #[trigger] m.spec_get(id) == if f(id) {
        Some(x)
    } else {
        None
    }
}

fn seed_alive(player_states: &PlayerIdMap<PlayerState>) -> (r: PlayerIdMap<AliveState>)
    ensures
        seeded_with(r, occupied(*player_states), AliveState::Alive),
{
    let r = PlayerIdMap::seed_from(player_states, AliveState::Alive);
    proof {
        assert forall|id: PlayerId| #[trigger] r.spec_get(id) == if occupied(*player_states)(id) {
            Some(AliveState::Alive)
        } else {
            None
        } by {
            if (id.0 as int) < r@.len() {
                assert(r@[id.0 as int] is Some == player_states@[id.0 as int] is Some);
            }
        }
    }
    r
}

fn seed_zero_wins(player_states: &PlayerIdMap<PlayerState>) -> (r: PlayerIdMap<u8>)
    ensures
        seeded_with(r, occupied(*player_states), 0u8),
{
    let r = PlayerIdMap::seed_from(player_states, 0u8);
    proof {
        assert forall|id: PlayerId| #[trigger] r.spec_get(id) == if occupied(*player_states)(id) {
            Some(0u8)
        } else {
            None
        } by {
            if (id.0 as int) < r@.len() {
                assert(r@[id.0 as int] is Some == player_states@[id.0 as int] is Some);
            }
        }
    }
    r
}

/// Takes out of the game every player standing in the lobby river.
fn drown_in_lobby(player_states: &mut PlayerIdMap<PlayerState>, hazards: &PlayerIdMap<Hazard>)
    ensures
        forall|id: PlayerId| #[trigger] final(player_states).spec_get(id) == lobby_survivor(*old(player_states), *hazards, id),
{
    let ghost ps0 = *player_states;
    let mut i: usize = 0;
    while i < 256
        invariant
            i <= 256,
            ps0 == *old(player_states),
            forall|id: PlayerId| (id.0 as int) < i ==> #[trigger] player_states.spec_get(id) == lobby_survivor(ps0, *hazards, id),
            forall|id: PlayerId| (id.0 as int) >= i ==> #[trigger] player_states.spec_get(id) == ps0.spec_get(id),
        decreases 256 - i,
    {
        let id = PlayerId(i as u8);
        let ghost before = *player_states;
        let mut drowned = false;
        match player_states.get(id) {
            Some(state) => {
                if let Pos::Coord(_) = state.pos {
                    if let Some(z) = hazards.get_copy(id) {
                        drowned = z.lobby_river;
                    }
                }
            },
            None => {},
        }
        if drowned {
            player_states.remove(id);
        }
        proof {
            assert forall|other: PlayerId| (other.0 as int) < i + 1 implies #[trigger] player_states.spec_get(other) == lobby_survivor(ps0, *hazards, other) by {
                if other.0 as int == i {
                    assert(other == id);
                } else {
                    assert(before.spec_get(other) == player_states.spec_get(other));
                }
            }
            assert forall|other: PlayerId| (other.0 as int) >= i + 1 implies #[trigger] player_states.spec_get(other) == ps0.spec_get(other) by {
                assert(before.spec_get(other) == player_states.spec_get(other));
            }
        }
        i += 1;
    }
}

fn all_in_ready_zone(player_states: &PlayerIdMap<PlayerState>) -> (r: bool)
    ensures
        r == forall|id: PlayerId| #[trigger] player_states.spec_get(id) matches Some(p) ==> p.pos is Lillipad,
{
    let mut i: usize = 0;
    while i < 256
        invariant
            i <= 256,
            forall|id: PlayerId| (id.0 as int) < i ==> (#[trigger] player_states.spec_get(id) matches Some(p) ==> p.pos is Lillipad),
        decreases 256 - i,
    {
        match player_states.get(PlayerId(i as u8)) {
            Some(x) => {
                if !player_in_lobby_ready_zone(x) {
                    return false;
                }
            },
            None => {},
        }
        i += 1;
    }
    true
}

fn tick_lobby(t: u32, player_states: &mut PlayerIdMap<PlayerState>, hazards: &PlayerIdMap<Hazard>, lobby: LobbyReadings, game_config: &GameConfig) -> (r: (CrossyRulesetFST, RaftStep))
    requires
        lobby_go(*old(player_states), *hazards, *game_config) ==> t < u32::MAX,
    ensures
        lobby_next(t, *old(player_states), *hazards, lobby, *game_config, r.0, r.1, *final(player_states)),
{
    let ghost ps0 = *player_states;
    drown_in_lobby(player_states, hazards);
    let ghost ps1 = *player_states;
    let count = player_states.count_populated();
    proof {
        assert(occupied(ps1) =~= lobby_present(ps0, *hazards));
        assert((|id: PlayerId| ps1.spec_contains(id)) =~= lobby_present(ps0, *hazards));
    }
    let bypass = game_config.bypass_lobby && count > 0;
    let enough_players = count >= game_config.minimum_players as usize;
    let all_ready = all_in_ready_zone(player_states);
    proof {
        assert(all_ready == lobby_all_ready(ps0, *hazards)) by {
            if all_ready {
                assert forall|id: PlayerId| (#[trigger] lobby_survivor(ps0, *hazards, id) matches Some(p) ==> p.pos is Lillipad) by {
                    assert(ps1.spec_get(id) == lobby_survivor(ps0, *hazards, id));
                }
            } else {
                let id = choose|id: PlayerId| !(#[trigger] ps1.spec_get(id) matches Some(p) ==> p.pos is Lillipad);
                assert(ps1.spec_get(id) == lobby_survivor(ps0, *hazards, id));
            }
        }
    }
    if bypass || (enough_players && all_ready) {
        if bypass || t > LOBBY_READY_TICKS {
            if lobby.raft_past_start {
                let win_counts = seed_zero_wins(player_states);
                let alive_states = seed_alive(player_states);
                reset_positions(player_states, ResetPositionTarget::RacePositions);
                proof {
                    assert(occupied(ps1) =~= lobby_present(ps0, *hazards));
                }
                (
                    CrossyRulesetFST::RoundWarmup(WarmupState {
                        win_counts,
                        alive_states,
                        remaining_us: INTRO_COUNTDOWN_TIME_US,
                        time_full_us: INTRO_COUNTDOWN_TIME_US,
                        round_id: 1,
                    }),
                    RaftStep::NoLobby,
                )
            } else {
                (CrossyRulesetFST::Lobby { time_with_all_players_in_ready_zone: t + 1 }, RaftStep::Advance)
            }
        } else {
            (CrossyRulesetFST::Lobby { time_with_all_players_in_ready_zone: t + 1 }, RaftStep::Drift)
        }
    } else {
        (CrossyRulesetFST::Lobby { time_with_all_players_in_ready_zone: lobby.ready_time_decayed }, RaftStep::Drift)
    }
}


/// The alive state of `id` once players who joined since are added as not in the game.
pub open spec fn joined_alive(alive: PlayerIdMap<AliveState>, ps: PlayerIdMap<PlayerState>, id: PlayerId) -> Option<AliveState> {
    if alive.spec_contains(id) {
        alive.spec_get(id)
    } else if ps.spec_contains(id) {
        Some(AliveState::NotInGame)
    } else {
        None
    }
}

/// The alive state of `id` once this tick's deaths are counted.
pub open spec fn after_kills(alive: PlayerIdMap<AliveState>, ps: PlayerIdMap<PlayerState>, h: PlayerIdMap<Hazard>, screen_y: int, id: PlayerId) -> Option<AliveState> {
    if is_alive_in(alive, ps, id) && spec_should_kill(ps.spec_get(id)->0, screen_y, hazard_at(h, id)) {
        Some(AliveState::Dead)
    } else {
        joined_alive(alive, ps, id)
    }
}

/// The players still alive after this tick of a round.
pub open spec fn survivors(alive: PlayerIdMap<AliveState>, ps: PlayerIdMap<PlayerState>, h: PlayerIdMap<Hazard>, screen_y: int) -> spec_fn(PlayerId) -> bool {
    |id: PlayerId| after_kills(alive, ps, h, screen_y, id) == Some(AliveState::Alive)
}

/// The first id from `i` on that satisfies `f`.
pub open spec fn first_id(f: spec_fn(PlayerId) -> bool, i: nat) -> Option<PlayerId>
    decreases 256 - i,
{
    if i >= 256 {
        None
    } else if f(PlayerId(i as u8)) {
        Some(PlayerId(i as u8))
    } else {
        first_id(f, i + 1)
    }
}

/// `next` is `st` played for one tick: the screen top follows the living players, newcomers
/// wait outside the game, and the living players whose tiles kill them die.
pub open spec fn round_follows(st: RoundState, ps: PlayerIdMap<PlayerState>, h: PlayerIdMap<Hazard>, next: RoundState) -> bool {
    let screen = spec_screen_y(st.screen_y as int, ps, st.alive_states);
    &&& next.screen_y == screen
    &&& next.round_id == st.round_id
    &&& next.win_counts@ == st.win_counts@
    &&& forall|id: PlayerId| #[trigger] next.alive_states.spec_get(id) == after_kills(st.alive_states, ps, h, screen, id)
}

/// One tick of the warmup: the countdown runs, then the round starts with every player alive.
pub open spec fn warmup_next(w: WarmupState, dt: u32, ps0: PlayerIdMap<PlayerState>, r: CrossyRulesetFST) -> bool {
    if w.remaining_us >= dt {
        &&& r matches CrossyRulesetFST::RoundWarmup(n)
        &&& n.remaining_us == w.remaining_us - dt
        &&& n.time_full_us == w.time_full_us
        &&& n.alive_states@ == w.alive_states@
        &&& n.win_counts@ == w.win_counts@
        &&& n.round_id == w.round_id
    } else {
        &&& r matches CrossyRulesetFST::Round(n)
        &&& n.screen_y == 0
        &&& seeded_with(n.alive_states, occupied(ps0), AliveState::Alive)
        &&& n.win_counts@ == w.win_counts@
        &&& n.round_id == w.round_id
    }
}

/// One tick of a round: it ends when too few players are left in the game, and cools down when
/// too few are left alive.
pub open spec fn round_next(st: RoundState, ps0: PlayerIdMap<PlayerState>, h: PlayerIdMap<Hazard>, cfg: GameConfig, r: CrossyRulesetFST) -> bool {
    if count_ids(occupied(ps0), 256) < cfg.minimum_players {
        r == CrossyRulesetFST::EndAllLeft(EndAllLeftState { remaining_us: WINNER_TIME_US })
    } else {
        let screen = spec_screen_y(st.screen_y as int, ps0, st.alive_states);
        if count_ids(survivors(st.alive_states, ps0, h, screen), 256) < cfg.minimum_players {
            &&& r matches CrossyRulesetFST::RoundCooldown(c)
            &&& c.remaining_us == COOLDOWN_TIME_US
            &&& round_follows(st, ps0, h, c.round_state)
        } else {
            r matches CrossyRulesetFST::Round(n) && round_follows(st, ps0, h, n)
        }
    }
}

/// The wins recorded for `id`, none counting as zero.
pub open spec fn wins_of(wc: PlayerIdMap<u8>, id: PlayerId) -> int {
    match wc.spec_get(id) {
        Some(c) => c as int,
        None => 0,
    }
}

/// The lowest id still alive when the cooldown runs out.
pub open spec fn cooldown_winner(c: CooldownState, ps0: PlayerIdMap<PlayerState>, h: PlayerIdMap<Hazard>) -> Option<PlayerId> {
    let st = c.round_state;
    first_id(survivors(st.alive_states, ps0, h, spec_screen_y(st.screen_y as int, ps0, st.alive_states)), 0)
}

/// The cooldown's arithmetic stays in range: the winner's count and the round number can grow.
pub open spec fn cooldown_in_range(c: CooldownState, dt: u32, ps0: PlayerIdMap<PlayerState>, h: PlayerIdMap<Hazard>, cfg: GameConfig) -> bool {
    c.remaining_us < dt ==> match cooldown_winner(c, ps0, h) {
        Some(w) => wins_of(c.round_state.win_counts, w) < 255 && (wins_of(c.round_state.win_counts, w) + 1 < cfg.required_win_count ==> c.round_state.round_id < 255),
        None => c.round_state.round_id < 255,
    }
}

/// One tick of the cooldown: the round goes on being played until the countdown runs out. Then
/// the lowest living id wins the round; a winner with enough wins ends the game with everyone
/// back in the lobby, and otherwise the next round warms up with everyone on the race line.
pub open spec fn cooldown_next(c: CooldownState, dt: u32, ps0: PlayerIdMap<PlayerState>, h: PlayerIdMap<Hazard>, cfg: GameConfig, r: CrossyRulesetFST, ps1: PlayerIdMap<PlayerState>) -> bool {
    let wc = c.round_state.win_counts;
    let winner = cooldown_winner(c, ps0, h);
    if c.remaining_us >= dt {
        &&& ps1 == ps0
        &&& r matches CrossyRulesetFST::RoundCooldown(n)
        &&& n.remaining_us == c.remaining_us - dt
        &&& round_follows(c.round_state, ps0, h, n.round_state)
    } else if winner is Some && wins_of(wc, winner->0) + 1 >= cfg.required_win_count {
        &&& r == CrossyRulesetFST::EndWinner(EndWinnerState { winner_id: winner->0, remaining_us: WINNER_TIME_US })
        &&& forall|id: PlayerId| #[trigger] ps1.spec_get(id) == reset_slot(ps0.spec_get(id), max_id(occupied(ps0), 256), 11)
    } else {
        &&& r matches CrossyRulesetFST::RoundWarmup(n)
        &&& n.remaining_us == COUNTDOWN_TIME_US
        &&& n.time_full_us == COUNTDOWN_TIME_US
        &&& n.round_id == c.round_state.round_id + 1
        &&& seeded_with(n.alive_states, occupied(ps0), AliveState::Alive)
        &&& forall|id: PlayerId| #[trigger] n.win_counts.spec_get(id) == if winner == Some(id) {
            Some((wins_of(wc, id) + 1) as u8)
        } else if wc.spec_contains(id) {
            wc.spec_get(id)
        } else if ps0.spec_contains(id) {
            Some(0u8)
        } else {
            None
        }
        &&& forall|id: PlayerId| #[trigger] ps1.spec_get(id) == reset_slot(ps0.spec_get(id), max_id(occupied(ps0), 256), 16)
    }
}

/// One tick of an ending: the countdown runs, then a new lobby starts with everyone on the
/// lobby line.
pub open spec fn ending_next(remaining_us: u32, dt: u32, ps0: PlayerIdMap<PlayerState>, counting: CrossyRulesetFST, r: CrossyRulesetFST, raft: RaftStep, ps1: PlayerIdMap<PlayerState>) -> bool {
    if remaining_us >= dt {
        r == counting && raft == RaftStep::NoLobby && ps1 == ps0
    } else {
        &&& r == CrossyRulesetFST::Lobby { time_with_all_players_in_ready_zone: 0 }
        &&& raft == RaftStep::Reset
        &&& forall|id: PlayerId| #[trigger] ps1.spec_get(id) == reset_slot(ps0.spec_get(id), max_id(occupied(ps0), 256), 11)
    }
}

proof fn lemma_screen_same(screen_y: int, ps: PlayerIdMap<PlayerState>, a1: PlayerIdMap<AliveState>, a2: PlayerIdMap<AliveState>, n: nat)
    requires
        forall|id: PlayerId| #[trigger] is_alive_in(a1, ps, id) == is_alive_in(a2, ps, id),
    ensures
        screen_upto(screen_y, ps, a1, n) == screen_upto(screen_y, ps, a2, n),
    decreases n,
{
    if n > 0 {
        lemma_screen_same(screen_y, ps, a1, a2, (n - 1) as nat);
        assert(is_alive_in(a1, ps, PlayerId((n - 1) as u8)) == is_alive_in(a2, ps, PlayerId((n - 1) as u8)));
    }
}

fn count_alive(alive_states: &PlayerIdMap<AliveState>) -> (r: usize)
    ensures
        r == count_ids(|id: PlayerId| alive_states.spec_get(id) == Some(AliveState::Alive), 256),
{
    let ghost f = |id: PlayerId| alive_states.spec_get(id) == Some(AliveState::Alive);
    let mut count: usize = 0;
    let mut i: usize = 0;
    while i < 256
        invariant
            i <= 256,
            count <= i,
            f == (|id: PlayerId| alive_states.spec_get(id) == Some(AliveState::Alive)),
            count == count_ids(f, i as nat),
        decreases 256 - i,
    {
        if let Some(AliveState::Alive) = alive_states.get_copy(PlayerId(i as u8)) {
            count += 1;
        }
        i += 1;
    }
    count
}

fn first_alive(alive_states: &PlayerIdMap<AliveState>) -> (r: Option<PlayerId>)
    ensures
        r == first_id(|id: PlayerId| alive_states.spec_get(id) == Some(AliveState::Alive), 0),
{
    let ghost f = |id: PlayerId| alive_states.spec_get(id) == Some(AliveState::Alive);
    let mut i: usize = 0;
    while i < 256
        invariant
            i <= 256,
            f == (|id: PlayerId| alive_states.spec_get(id) == Some(AliveState::Alive)),
            first_id(f, 0) == first_id(f, i as nat),
        decreases 256 - i,
    {
        if let Some(AliveState::Alive) = alive_states.get_copy(PlayerId(i as u8)) {
            return Some(PlayerId(i as u8));
        }
        i += 1;
    }
    None
}

/// Plays one tick of a round on a copy of its state.
fn play_round(st: &RoundState, player_states: &PlayerIdMap<PlayerState>, hazards: &PlayerIdMap<Hazard>) -> (r: RoundState)
    requires
        rows_in_range(*player_states, st.alive_states),
    ensures
        round_follows(*st, *player_states, *hazards, r),
{
    let ghost ps = *player_states;
    let mut alive_states = st.alive_states.copied();
    alive_states.seed_missing(player_states, AliveState::NotInGame);
    proof {
        assert forall|id: PlayerId| #[trigger] alive_states.spec_get(id) == joined_alive(st.alive_states, ps, id) by {
            if !st.alive_states.spec_contains(id) && ps.spec_contains(id) {
                let v = alive_states.spec_get(id)->0;
                assert(cloned::<AliveState>(AliveState::NotInGame, v));
            }
        }
        assert forall|id: PlayerId| #[trigger] is_alive_in(alive_states, ps, id) == is_alive_in(st.alive_states, ps, id) by {
            assert(alive_states.spec_get(id) == joined_alive(st.alive_states, ps, id));
        }
        lemma_screen_same(st.screen_y as int, ps, alive_states, st.alive_states, 256);
        assert forall|id: PlayerId| #[trigger] is_alive_in(alive_states, ps, id) implies pos_y(ps.spec_get(id)->0.pos) >= i32::MIN + SCREEN_Y_BUFFER by {
            assert(is_alive_in(st.alive_states, ps, id));
        }
    }
    let screen_y = update_screen_y(st.screen_y, player_states, &alive_states);
    let ghost a1 = alive_states;
    kill_players(&mut alive_states, player_states, hazards, screen_y);
    proof {
        assert forall|id: PlayerId| #[trigger] alive_states.spec_get(id) == after_kills(st.alive_states, ps, *hazards, screen_y as int, id) by {
            assert(a1.spec_get(id) == joined_alive(st.alive_states, ps, id));
            assert(is_alive_in(a1, ps, id) == is_alive_in(st.alive_states, ps, id));
        }
    }
    RoundState { screen_y, alive_states, win_counts: st.win_counts.copied(), round_id: st.round_id }
}

fn tick_warmup(state: &WarmupState, dt: u32, player_states: &PlayerIdMap<PlayerState>) -> (r: CrossyRulesetFST)
    ensures
        warmup_next(*state, dt, *player_states, r),
{
    match state.remaining_us.checked_sub(dt) {
        Some(remaining_us) => CrossyRulesetFST::RoundWarmup(WarmupState {
            remaining_us,
            time_full_us: state.time_full_us,
            alive_states: state.alive_states.copied(),
            win_counts: state.win_counts.copied(),
            round_id: state.round_id,
        }),
        None => {
            let alive_states = seed_alive(player_states);
            CrossyRulesetFST::Round(RoundState {
                screen_y: 0,
                alive_states,
                win_counts: state.win_counts.copied(),
                round_id: state.round_id,
            })
        },
    }
}

fn tick_round(state: &RoundState, player_states: &PlayerIdMap<PlayerState>, hazards: &PlayerIdMap<Hazard>, game_config: &GameConfig) -> (r: CrossyRulesetFST)
    requires
        rows_in_range(*player_states, state.alive_states),
    ensures
        round_next(*state, *player_states, *hazards, *game_config, r),
{
    if player_states.count_populated() < game_config.minimum_players as usize {
        proof {
            assert((|id: PlayerId| player_states.spec_contains(id)) =~= occupied(*player_states));
        }
        return CrossyRulesetFST::EndAllLeft(EndAllLeftState::default());
    }
    proof {
        assert((|id: PlayerId| player_states.spec_contains(id)) =~= occupied(*player_states));
    }
    let new_state = play_round(state, player_states, hazards);
    let alive_player_count = count_alive(&new_state.alive_states);
    proof {
        assert((|id: PlayerId| new_state.alive_states.spec_get(id) == Some(AliveState::Alive)) =~= survivors(
            state.alive_states,
            *player_states,
            *hazards,
            new_state.screen_y as int,
        ));
    }
    if alive_player_count < game_config.minimum_players as usize {
        CrossyRulesetFST::RoundCooldown(CooldownState { remaining_us: COOLDOWN_TIME_US, round_state: new_state })
    } else {
        CrossyRulesetFST::Round(new_state)
    }
}


fn tick_cooldown(state: &CooldownState, dt: u32, player_states: &mut PlayerIdMap<PlayerState>, hazards: &PlayerIdMap<Hazard>, game_config: &GameConfig) -> (r: CrossyRulesetFST)
    requires
        rows_in_range(*old(player_states), state.round_state.alive_states),
        cooldown_in_range(*state, dt, *old(player_states), *hazards, *game_config),
    ensures
        cooldown_next(*state, dt, *old(player_states), *hazards, *game_config, r, *final(player_states)),
{
    let ghost ps0 = *player_states;
    let new_state = play_round(&state.round_state, player_states, hazards);
    match state.remaining_us.checked_sub(dt) {
        Some(remaining_us) => CrossyRulesetFST::RoundCooldown(CooldownState { remaining_us, round_state: new_state }),
        None => {
            let winner = first_alive(&new_state.alive_states);
            proof {
                assert((|id: PlayerId| new_state.alive_states.spec_get(id) == Some(AliveState::Alive)) =~= survivors(
                    state.round_state.alive_states,
                    ps0,
                    *hazards,
                    new_state.screen_y as int,
                ));
            }
            let ghost wc = state.round_state.win_counts;
            let mut win_counts = new_state.win_counts;
            if let Some(winner_id) = winner {
                let old_count = match win_counts.get_copy(winner_id) {
                    Some(c) => c,
                    None => 0,
                };
                let new_count = old_count + 1;
                if new_count >= game_config.required_win_count {
                    reset_positions(player_states, ResetPositionTarget::LobbyPositions);
                    return CrossyRulesetFST::EndWinner(EndWinnerState::new(winner_id));
                }
                win_counts.set(winner_id, new_count);
            }
            proof {
                assert forall|id: PlayerId| #[trigger] win_counts.spec_get(id) == if winner == Some(id) {
                    Some((wins_of(wc, id) + 1) as u8)
                } else {
                    wc.spec_get(id)
                } by {
                    assert(new_state.win_counts.spec_get(id) == wc.spec_get(id));
                }
            }
            let ghost w1 = win_counts;
            let alive_states = seed_alive(player_states);
            win_counts.seed_missing(player_states, 0u8);
            proof {
                assert forall|id: PlayerId| #[trigger] win_counts.spec_get(id) == if winner == Some(id) {
                    Some((wins_of(wc, id) + 1) as u8)
                } else if wc.spec_contains(id) {
                    wc.spec_get(id)
                } else if ps0.spec_contains(id) {
                    Some(0u8)
                } else {
                    None
                } by {
                    assert(w1.spec_get(id) == if winner == Some(id) {
                        Some((wins_of(wc, id) + 1) as u8)
                    } else {
                        wc.spec_get(id)
                    });
                    if !w1.spec_contains(id) && ps0.spec_contains(id) {
                        assert(cloned::<u8>(0u8, win_counts.spec_get(id)->0));
                    }
                }
            }
            reset_positions(player_states, ResetPositionTarget::RacePositions);
            CrossyRulesetFST::RoundWarmup(WarmupState {
                remaining_us: COUNTDOWN_TIME_US,
                time_full_us: COUNTDOWN_TIME_US,
                win_counts,
                alive_states,
                round_id: new_state.round_id + 1,
            })
        },
    }
}

impl CrossyRulesetFST {
    /// The lobby a game starts in.
    pub fn start() -> (r: Self)
        ensures
            r == (CrossyRulesetFST::Lobby { time_with_all_players_in_ready_zone: 0 }),
    {
        CrossyRulesetFST::Lobby { time_with_all_players_in_ready_zone: 0 }
    }

    /// The state's own arithmetic stays in range this tick.
    pub open spec fn can_tick(&self, dt: u32, ps0: PlayerIdMap<PlayerState>, h: PlayerIdMap<Hazard>, cfg: GameConfig) -> bool {
        match *self {
            CrossyRulesetFST::Lobby { time_with_all_players_in_ready_zone: t } => lobby_go(ps0, h, cfg) ==> t < u32::MAX,
            CrossyRulesetFST::Round(st) => rows_in_range(ps0, st.alive_states),
            CrossyRulesetFST::RoundCooldown(c) => rows_in_range(ps0, c.round_state.alive_states) && cooldown_in_range(c, dt, ps0, h, cfg),
            _ => true,
        }
    }

    /// One tick of the game's phases, from the players' states before the tick (`ps0`) and what
    /// the map reports of their tiles: the next phase, what becomes of the raft, and the
    /// players' states after the tick (`ps1`).
    pub open spec fn spec_tick(
        &self,
        dt: u32,
        ps0: PlayerIdMap<PlayerState>,
        h: PlayerIdMap<Hazard>,
        lobby: LobbyReadings,
        cfg: GameConfig,
        r: CrossyRulesetFST,
        raft: RaftStep,
        ps1: PlayerIdMap<PlayerState>,
    ) -> bool {
        match *self {
            CrossyRulesetFST::Lobby { time_with_all_players_in_ready_zone: t } => lobby_next(t, ps0, h, lobby, cfg, r, raft, ps1),
            CrossyRulesetFST::RoundWarmup(w) => warmup_next(w, dt, ps0, r) && raft == RaftStep::NoLobby && ps1 == ps0,
            CrossyRulesetFST::Round(st) => round_next(st, ps0, h, cfg, r) && raft == RaftStep::NoLobby && ps1 == ps0,
            CrossyRulesetFST::RoundCooldown(c) => cooldown_next(c, dt, ps0, h, cfg, r, ps1) && raft == RaftStep::NoLobby,
            CrossyRulesetFST::EndWinner(e) => ending_next(
                e.remaining_us,
                dt,
                ps0,
                CrossyRulesetFST::EndWinner(EndWinnerState { winner_id: e.winner_id, remaining_us: (e.remaining_us - dt) as u32 }),
                r,
                raft,
                ps1,
            ),
            CrossyRulesetFST::EndAllLeft(e) => ending_next(
                e.remaining_us,
                dt,
                ps0,
                CrossyRulesetFST::EndAllLeft(EndAllLeftState { remaining_us: (e.remaining_us - dt) as u32 }),
                r,
                raft,
                ps1,
            ),
        }
    }

    /// Advances the game's phases by `dt` microseconds. `hazards` holds what the map reports of
    /// each player's tile at this tick, and `lobby` the readings of the lobby raft.
    pub fn tick(&self, dt: u32, player_states: &mut PlayerIdMap<PlayerState>, hazards: &PlayerIdMap<Hazard>, lobby: LobbyReadings, game_config: &GameConfig) -> (r: (Self, RaftStep))
        requires
            self.can_tick(dt, *old(player_states), *hazards, *game_config),
        ensures
            self.spec_tick(dt, *old(player_states), *hazards, lobby, *game_config, r.0, r.1, *final(player_states)),
    {
        match self {
            CrossyRulesetFST::Lobby { time_with_all_players_in_ready_zone } => {
                tick_lobby(*time_with_all_players_in_ready_zone, player_states, hazards, lobby, game_config)
            },
            CrossyRulesetFST::RoundWarmup(state) => (tick_warmup(state, dt, player_states), RaftStep::NoLobby),
            CrossyRulesetFST::Round(state) => (tick_round(state, player_states, hazards, game_config), RaftStep::NoLobby),
            CrossyRulesetFST::RoundCooldown(state) => {
                (tick_cooldown(state, dt, player_states, hazards, game_config), RaftStep::NoLobby)
            },
            CrossyRulesetFST::EndWinner(state) => match state.remaining_us.checked_sub(dt) {
                Some(remaining_us) => (
                    CrossyRulesetFST::EndWinner(EndWinnerState { remaining_us, winner_id: state.winner_id }),
                    RaftStep::NoLobby,
                ),
                None => {
                    reset_positions(player_states, ResetPositionTarget::LobbyPositions);
                    (Self::start(), RaftStep::Reset)
                },
            },
            CrossyRulesetFST::EndAllLeft(state) => match state.remaining_us.checked_sub(dt) {
                Some(remaining_us) => (CrossyRulesetFST::EndAllLeft(EndAllLeftState { remaining_us }), RaftStep::NoLobby),
                None => {
                    reset_positions(player_states, ResetPositionTarget::LobbyPositions);
                    (Self::start(), RaftStep::Reset)
                },
            },
        }
    }

    pub open spec fn spec_round_id(&self) -> u8 {
        match *self {
            CrossyRulesetFST::RoundWarmup(x) => x.round_id,
            CrossyRulesetFST::Round(x) => x.round_id,
            CrossyRulesetFST::RoundCooldown(x) => x.round_state.round_id,
            _ => 0,
        }
    }

    pub fn get_round_id(&self) -> (r: u8)
        ensures
            r == self.spec_round_id(),
    {
        match self {
            CrossyRulesetFST::RoundWarmup(x) => x.round_id,
            CrossyRulesetFST::Round(x) => x.round_id,
            CrossyRulesetFST::RoundCooldown(x) => x.round_state.round_id,
            _ => 0,
        }
    }

    /// Whether `player_id` plays in this phase: everyone in the lobby and after everyone left,
    /// the winner alone at the end, and otherwise as the round recorded it, newcomers waiting
    /// outside.
    pub open spec fn spec_player_alive(&self, player_id: PlayerId) -> AliveState {
        let or_out = |a: Option<AliveState>| match a {
            Some(x) => x,
            None => AliveState::NotInGame,
        };
        match *self {
            CrossyRulesetFST::Lobby { .. } => AliveState::Alive,
            CrossyRulesetFST::RoundWarmup(state) => or_out(state.alive_states.spec_get(player_id)),
            CrossyRulesetFST::Round(state) => or_out(state.alive_states.spec_get(player_id)),
            CrossyRulesetFST::RoundCooldown(state) => or_out(state.round_state.alive_states.spec_get(player_id)),
            CrossyRulesetFST::EndWinner(state) => if player_id == state.winner_id {
                AliveState::Alive
            } else {
                AliveState::NotInGame
            },
            CrossyRulesetFST::EndAllLeft(_) => AliveState::Alive,
        }
    }

    pub fn get_player_alive(&self, player_id: PlayerId) -> (r: AliveState)
        ensures
            r == self.spec_player_alive(player_id),
    {
        let found = match self {
            CrossyRulesetFST::Lobby { .. } => return AliveState::Alive,
            CrossyRulesetFST::RoundWarmup(state) => state.alive_states.get_copy(player_id),
            CrossyRulesetFST::Round(state) => state.alive_states.get_copy(player_id),
            CrossyRulesetFST::RoundCooldown(state) => state.round_state.alive_states.get_copy(player_id),
            CrossyRulesetFST::EndWinner(state) => {
                return if player_id == state.winner_id {
                    AliveState::Alive
                } else {
                    AliveState::NotInGame
                };
            },
            CrossyRulesetFST::EndAllLeft(_) => return AliveState::Alive,
        };
        match found {
            Some(x) => x,
            None => AliveState::NotInGame,
        }
    }

    /// The wins so far in a game under way; none in the lobby or at the end.
    pub fn winner_counts(&self) -> (r: PlayerIdMap<u8>)
        ensures
            r@ == match *self {
                CrossyRulesetFST::Round(state) => state.win_counts@,
                CrossyRulesetFST::RoundCooldown(state) => state.round_state.win_counts@,
                CrossyRulesetFST::RoundWarmup(state) => state.win_counts@,
                _ => Seq::<Option<u8>>::empty(),
            },
    {
        match self {
            CrossyRulesetFST::Round(state) => state.win_counts.copied(),
            CrossyRulesetFST::RoundCooldown(state) => state.round_state.win_counts.copied(),
            CrossyRulesetFST::RoundWarmup(state) => state.win_counts.copied(),
            _ => PlayerIdMap::default(),
        }
    }

    pub fn get_screen_y(&self) -> (r: i32)
        ensures
            r == match *self {
                CrossyRulesetFST::Round(state) => state.screen_y,
                CrossyRulesetFST::RoundCooldown(state) => state.round_state.screen_y,
                _ => 0,
            },
    {
        match self {
            CrossyRulesetFST::Round(state) => state.screen_y,
            CrossyRulesetFST::RoundCooldown(state) => state.round_state.screen_y,
            _ => 0,
        }
    }

    pub open spec fn variant_index(&self) -> int {
        match *self {
            CrossyRulesetFST::Lobby { .. } => 0,
            CrossyRulesetFST::RoundWarmup(_) => 1,
            CrossyRulesetFST::Round(_) => 2,
            CrossyRulesetFST::RoundCooldown(_) => 3,
            CrossyRulesetFST::EndWinner(_) => 4,
            CrossyRulesetFST::EndAllLeft(_) => 5,
        }
    }

    /// Both are in the same phase.
    pub fn same_variant(&self, other: &Self) -> (r: bool)
        ensures
            r == (self.variant_index() == other.variant_index()),
    {
        match (self, other) {
            (CrossyRulesetFST::Lobby { .. }, CrossyRulesetFST::Lobby { .. }) => true,
            (CrossyRulesetFST::RoundWarmup(_), CrossyRulesetFST::RoundWarmup(_)) => true,
            (CrossyRulesetFST::Round(_), CrossyRulesetFST::Round(_)) => true,
            (CrossyRulesetFST::RoundCooldown(_), CrossyRulesetFST::RoundCooldown(_)) => true,
            (CrossyRulesetFST::EndWinner(_), CrossyRulesetFST::EndWinner(_)) => true,
            (CrossyRulesetFST::EndAllLeft(_), CrossyRulesetFST::EndAllLeft(_)) => true,
            _ => false,
        }
    }

    pub fn in_lobby(&self) -> (r: bool)
        ensures
            r == self is Lobby,
    {
        match self {
            CrossyRulesetFST::Lobby { .. } => true,
            _ => false,
        }
    }
}

impl RulesState {
    pub fn new(config: GameConfig) -> (r: Self)
        ensures
            r.game_id == 0,
            r.fst == (CrossyRulesetFST::Lobby { time_with_all_players_in_ready_zone: 0 }),
            r.config == config,
    {
        RulesState { game_id: 0, fst: CrossyRulesetFST::start(), config }
    }

    /// Advances the phases with the game's own configuration; the game id grows each time the
    /// lobby is left.
    pub fn tick(&self, dt: u32, player_states: &mut PlayerIdMap<PlayerState>, hazards: &PlayerIdMap<Hazard>, lobby: LobbyReadings) -> (r: (Self, RaftStep))
        requires
            self.fst.can_tick(dt, *old(player_states), *hazards, self.config),
            self.fst is Lobby ==> self.game_id < u32::MAX,
        ensures
            self.fst.spec_tick(dt, *old(player_states), *hazards, lobby, self.config, r.0.fst, r.1, *final(player_states)),
            r.0.config == self.config,
            r.0.game_id == if self.fst is Lobby && !(r.0.fst is Lobby) {
                self.game_id + 1
            } else {
                self.game_id as int
            },
    {
        let (new_fst, raft) = self.fst.tick(dt, player_states, hazards, lobby, &self.config);
        if self.fst.in_lobby() && !new_fst.in_lobby() {
            (RulesState { game_id: self.game_id + 1, fst: new_fst, config: self.config }, raft)
        } else {
            (RulesState { game_id: self.game_id, fst: new_fst, config: self.config }, raft)
        }
    }
}


proof fn lemma_screen_above_players(screen_y: int, ps: PlayerIdMap<PlayerState>, alive: PlayerIdMap<AliveState>, n: nat)
    ensures
        screen_upto(screen_y, ps, alive, n) <= screen_y,
        forall|id: PlayerId| (id.0 as int) < n && #[trigger] is_alive_in(alive, ps, id) ==> screen_upto(screen_y, ps, alive, n) <= pos_y(
            ps.spec_get(id)->0.pos,
        ) - SCREEN_Y_BUFFER,
    decreases n,
{
    if n > 0 {
        lemma_screen_above_players(screen_y, ps, alive, (n - 1) as nat);
        assert forall|id: PlayerId| (id.0 as int) < n && #[trigger] is_alive_in(alive, ps, id) implies screen_upto(screen_y, ps, alive, n) <= pos_y(
            ps.spec_get(id)->0.pos,
        ) - SCREEN_Y_BUFFER by {
            if (id.0 as int) < n - 1 {
            } else {
                assert(id == PlayerId((n - 1) as u8));
            }
        }
    }
}

/// The screen top never moves down, and stays the buffer's height above every living player.
pub proof fn law_screen_follows_players(screen_y: int, ps: PlayerIdMap<PlayerState>, alive: PlayerIdMap<AliveState>)
    ensures
        spec_screen_y(screen_y, ps, alive) <= screen_y,
        forall|id: PlayerId| #[trigger] is_alive_in(alive, ps, id) ==> spec_screen_y(screen_y, ps, alive) <= pos_y(ps.spec_get(id)->0.pos) - SCREEN_Y_BUFFER,
{
    lemma_screen_above_players(screen_y, ps, alive, 256);
    assert forall|id: PlayerId| #[trigger] is_alive_in(alive, ps, id) implies spec_screen_y(screen_y, ps, alive) <= pos_y(ps.spec_get(id)->0.pos)
        - SCREEN_Y_BUFFER by {
        assert((id.0 as int) < 256);
    }
}

/// Within a round nobody comes back: the dead stay dead, those outside stay outside, and only
/// the living can die.
pub proof fn law_no_revival(alive: PlayerIdMap<AliveState>, ps: PlayerIdMap<PlayerState>, h: PlayerIdMap<Hazard>, screen_y: int, id: PlayerId)
    ensures
        alive.spec_get(id) == Some(AliveState::Dead) ==> after_kills(alive, ps, h, screen_y, id) == Some(AliveState::Dead),
        alive.spec_get(id) == Some(AliveState::NotInGame) ==> after_kills(alive, ps, h, screen_y, id) == Some(AliveState::NotInGame),
        after_kills(alive, ps, h, screen_y, id) == Some(AliveState::Alive) ==> alive.spec_get(id) == Some(AliveState::Alive),
{
}

/// What a phase records of player `id` being alive in the round, if it records anything.
pub open spec fn round_alive(r: CrossyRulesetFST, id: PlayerId) -> Option<AliveState> {
    match r {
        CrossyRulesetFST::Round(n) => n.alive_states.spec_get(id),
        CrossyRulesetFST::RoundCooldown(c) => c.round_state.alive_states.spec_get(id),
        _ => None,
    }
}

/// The round's screen top after a tick, where the phase records one.
pub open spec fn round_screen(r: CrossyRulesetFST) -> int {
    match r {
        CrossyRulesetFST::Round(n) => n.screen_y as int,
        CrossyRulesetFST::RoundCooldown(c) => c.round_state.screen_y as int,
        _ => 0,
    }
}

/// In a round that goes on, a living player dies on a tile with a car or in a river, or on a
/// lillipad carried off the screen; a living player on a tile with neither, within the kill line
/// below the new screen, lives on.
pub proof fn law_hazards_kill(st: RoundState, ps0: PlayerIdMap<PlayerState>, h: PlayerIdMap<Hazard>, cfg: GameConfig, r: CrossyRulesetFST, id: PlayerId)
    requires
        round_next(st, ps0, h, cfg, r),
        !(r is EndAllLeft),
        is_alive_in(st.alive_states, ps0, id),
    ensures
        r is Round || r is RoundCooldown,
        (ps0.spec_get(id)->0.pos is Coord && (hazard_at(h, id).car || hazard_at(h, id).river))
            ==> round_alive(r, id) == Some(AliveState::Dead),
        (ps0.spec_get(id)->0.pos is Lillipad && hazard_at(h, id).adrift) ==> round_alive(r, id) == Some(AliveState::Dead),
        (ps0.spec_get(id)->0.pos matches Pos::Coord(c) && !hazard_at(h, id).car && !hazard_at(h, id).river
            && c.y <= round_screen(r) + SCREEN_SIZE + SCREEN_KILL_BUFFER) ==> round_alive(r, id) == Some(AliveState::Alive),
{
}

/// The phase after `p` that a tick can lead to.
pub open spec fn next_phase_allowed(p: CrossyRulesetFST, r: CrossyRulesetFST) -> bool {
    match p {
        CrossyRulesetFST::Lobby { .. } => r is Lobby || r is RoundWarmup,
        CrossyRulesetFST::RoundWarmup(_) => r is RoundWarmup || r is Round,
        CrossyRulesetFST::Round(_) => r is Round || r is RoundCooldown || r is EndAllLeft,
        CrossyRulesetFST::RoundCooldown(_) => r is RoundCooldown || r is RoundWarmup || r is EndWinner,
        CrossyRulesetFST::EndWinner(_) => r is EndWinner || r is Lobby,
        CrossyRulesetFST::EndAllLeft(_) => r is EndAllLeft || r is Lobby,
    }
}

/// A tick follows the order of the phases: lobby, warmup, round, cooldown, then the next warmup
/// or the winner's end; a round that too many leave ends, and both endings lead back to the
/// lobby.
pub proof fn law_phase_order(
    p: CrossyRulesetFST,
    dt: u32,
    ps0: PlayerIdMap<PlayerState>,
    h: PlayerIdMap<Hazard>,
    lobby: LobbyReadings,
    cfg: GameConfig,
    r: CrossyRulesetFST,
    raft: RaftStep,
    ps1: PlayerIdMap<PlayerState>,
)
    requires
        p.spec_tick(dt, ps0, h, lobby, cfg, r, raft, ps1),
    ensures
        next_phase_allowed(p, r),
{
}

/// A round keeps its number while it warms up, is played and cools down, and the next round's
/// number is one more.
pub proof fn law_round_numbers(
    p: CrossyRulesetFST,
    dt: u32,
    ps0: PlayerIdMap<PlayerState>,
    h: PlayerIdMap<Hazard>,
    lobby: LobbyReadings,
    cfg: GameConfig,
    r: CrossyRulesetFST,
    raft: RaftStep,
    ps1: PlayerIdMap<PlayerState>,
)
    requires
        p.spec_tick(dt, ps0, h, lobby, cfg, r, raft, ps1),
        p is RoundWarmup || p is Round || p is RoundCooldown,
        r is RoundWarmup || r is Round || r is RoundCooldown,
    ensures
        r.spec_round_id() == p.spec_round_id() + if p is RoundCooldown && r is RoundWarmup {
            1int
        } else {
            0int
        },
{
}

/// Wins are never lost: from one round to the next every player keeps at least the wins it had.
pub proof fn law_wins_never_shrink(
    c: CooldownState,
    dt: u32,
    ps0: PlayerIdMap<PlayerState>,
    h: PlayerIdMap<Hazard>,
    cfg: GameConfig,
    r: CrossyRulesetFST,
    ps1: PlayerIdMap<PlayerState>,
    id: PlayerId,
)
    requires
        cooldown_next(c, dt, ps0, h, cfg, r, ps1),
        cooldown_in_range(c, dt, ps0, h, cfg),
        r is RoundWarmup,
    ensures
        wins_of(r->RoundWarmup_0.win_counts, id) >= wins_of(c.round_state.win_counts, id),
{
}


/// Which round of which game a rules state is in.
#[derive(Debug, Clone, Copy, PartialEq, Eq, Structural, Hash)]
pub struct RoundIdentifier {
    pub game_id: u32,
    pub round_id: u8,
}

impl RoundIdentifier {
    pub fn from_rulesstate(rules_state: &RulesState) -> (r: Self)
        ensures
            r.game_id == rules_state.game_id,
            r.round_id == rules_state.fst.spec_round_id(),
    {
        RoundIdentifier { game_id: rules_state.game_id, round_id: rules_state.fst.get_round_id() }
    }
}


/// The phases a game entered or left at this tick, given the phase at the previous tick (if
/// any).
#[derive(Debug, Clone, Copy, PartialEq, Eq, Structural, Default)]
pub struct StateTransition {
    pub into_lobby: bool,
    pub into_round_warmup: bool,
    pub into_round: bool,
    pub into_round_cooldown: bool,
    pub into_winner: bool,
    pub leaving_lobby: bool,
}

/// There was a previous phase, and it was of kind `kind` (its place in the order lobby, warmup,
/// round, cooldown, winner, all left).
pub open spec fn prev_was(prev: Option<CrossyRulesetFST>, kind: int) -> bool {
    prev matches Some(p) && p.variant_index() == kind
}

impl StateTransition {
    pub fn new(current: &CrossyRulesetFST, prev: &Option<CrossyRulesetFST>) -> (r: Self)
        ensures
            r.into_lobby == (current is Lobby && !prev_was(*prev, 0)),
            r.leaving_lobby == (!(current is Lobby) && prev_was(*prev, 0)),
            r.into_round_warmup == (current is RoundWarmup && !prev_was(*prev, 1)),
            r.into_round == (current is Round && !prev_was(*prev, 2)),
            r.into_round_cooldown == (current is RoundCooldown && !prev_was(*prev, 3)),
            r.into_winner == (current is EndWinner && !prev_was(*prev, 4)),
    {
        let (p_lobby, p_warmup, p_round, p_cooldown, p_winner) = match prev {
            Some(p) => (p.in_lobby(), p.is_warmup(), p.is_round(), p.is_cooldown(), p.is_winner()),
            None => (false, false, false, false, false),
        };
        StateTransition {
            into_lobby: current.in_lobby() && !p_lobby,
            leaving_lobby: !current.in_lobby() && p_lobby,
            into_round_warmup: current.is_warmup() && !p_warmup,
            into_round: current.is_round() && !p_round,
            into_round_cooldown: current.is_cooldown() && !p_cooldown,
            into_winner: current.is_winner() && !p_winner,
        }
    }
}

impl CrossyRulesetFST {
    pub fn is_warmup(&self) -> (r: bool)
        ensures
            r == self is RoundWarmup,
            r == (self.variant_index() == 1),
    {
        match self {
            CrossyRulesetFST::RoundWarmup(_) => true,
            _ => false,
        }
    }

    pub fn is_round(&self) -> (r: bool)
        ensures
            r == self is Round,
            r == (self.variant_index() == 2),
    {
        match self {
            CrossyRulesetFST::Round(_) => true,
            _ => false,
        }
    }

    pub fn is_cooldown(&self) -> (r: bool)
        ensures
            r == self is RoundCooldown,
            r == (self.variant_index() == 3),
    {
        match self {
            CrossyRulesetFST::RoundCooldown(_) => true,
            _ => false,
        }
    }

    pub fn is_winner(&self) -> (r: bool)
        ensures
            r == self is EndWinner,
            r == (self.variant_index() == 4),
    {
        match self {
            CrossyRulesetFST::EndWinner(_) => true,
            _ => false,
        }
    }
}

} // verus!
