use vstd::prelude::*;
use crate::crossy_ruleset::{AliveState, CrossyRulesetFST, GameConfig, Hazard, LobbyReadings, RaftStep, RulesState};
use crate::game::{CoordPos, Input, PlayerId, PlayerInputs, Pos};
use crate::player::{MoveState, MovingState, PlayerState, Push, PushInfo, MOVE_COOLDOWN_MAX, MOVE_DUR};
use crate::player_id_map::{PlayerIdMap, def_lookup, populated};

verus! {

/// The answer in `t`, from entry `i` on, to where a move from `p` in direction `d` leads; a
/// move that `t` does not list leads nowhere.
pub open spec fn table_move_from(t: Seq<(Pos, Input, Option<Pos>)>, p: Pos, d: Input, i: int) -> Option<Pos>
    decreases t.len() - i,
{
    if i < 0 || i >= t.len() {
        None
    } else if t[i].0 == p && t[i].1 == d {
        t[i].2
    } else {
        table_move_from(t, p, d, i + 1)
    }
}

pub open spec fn table_move(t: Seq<(Pos, Input, Option<Pos>)>, p: Pos, d: Input) -> Option<Pos> {
    table_move_from(t, p, d, 0)
}

/// The map's answers, at one tick, to where a move from a position in a direction leads: to a
/// position, or nowhere when the way is blocked.
#[derive(Debug)]
pub struct MoveTable {
    pub moves: Vec<(Pos, Input, Option<Pos>)>,
}

impl MoveTable {
    pub fn lookup(&self, p: Pos, d: Input) -> (r: Option<Pos>)
        ensures
            r == table_move(self.moves@, p, d),
    {
        let mut i: usize = 0;
        while i < self.moves.len()
            invariant
                i <= self.moves@.len(),
                table_move(self.moves@, p, d) == table_move_from(self.moves@, p, d, i as int),
            decreases self.moves@.len() - i,
        {
            let (q, e, r) = self.moves[i];
            if q == p && e == d {
                return r;
            }
            i += 1;
        }
        None
    }
}

/// The player held under `id` in the slots `s` of a player map.
pub open spec fn slot(s: Seq<Option<PlayerState>>, id: PlayerId) -> Option<PlayerState> {
    if (id.0 as int) < s.len() {
        s[id.0 as int]
    } else {
        None
    }
}

/// Every player is held under its own id.
pub open spec fn ids_match(s: Seq<Option<PlayerState>>) -> bool {
    forall|id: PlayerId| #[trigger] slot(s, id) matches Some(p) ==> p.id == id
}

/// The player stands on `pos` or is moving onto it.
pub open spec fn holds_tile(p: PlayerState, pos: Pos) -> bool {
    p.pos == pos || (p.move_state matches MoveState::Moving(m) && m.target == pos)
}

/// The player under `id`, unless `id` is `ignore`, holds `pos`.
pub open spec fn occupies(s: Seq<Option<PlayerState>>, id: PlayerId, pos: Pos, ignore: Option<PlayerId>) -> bool {
    Some(id) != ignore && slot(s, id) is Some && holds_tile(slot(s, id)->0, pos)
}

/// A player other than `ignore` stands on `pos` or is moving onto it.
pub open spec fn spec_occupied(s: Seq<Option<PlayerState>>, pos: Pos, ignore: Option<PlayerId>) -> bool {
    exists|id: PlayerId| #[trigger] occupies(s, id, pos, ignore)
}

/// Player `id` can be pushed in direction `dir`: the map lets it move there and no other
/// player stands there or is moving there.
pub open spec fn spec_can_push(s: Seq<Option<PlayerState>>, id: PlayerId, dir: Input, t: Seq<(Pos, Input, Option<Pos>)>) -> bool {
    match table_move(t, slot(s, id)->0.pos, dir) {
        Some(np) => !spec_occupied(s, np, Some(id)),
        None => false,
    }
}

pub open spec fn no_push() -> PushInfo {
    PushInfo { pushed_by: None, pushing: None }
}

/// What moving onto `cand` means for the player `other`: it blocks the move while moving
/// itself, is pushed along if it can be, and otherwise blocks; a player elsewhere blocks only
/// when moving onto the same tile.
pub open spec fn spec_try_move_player(dir: Input, cand: Pos, other: PlayerState, s: Seq<Option<PlayerState>>, t: Seq<(Pos, Input, Option<Pos>)>) -> Option<PushInfo> {
    if other.pos == cand {
        if other.move_state is Moving {
            None
        } else if spec_can_push(s, other.id, dir, t) {
            Some(PushInfo { pushed_by: None, pushing: Some(other.id) })
        } else {
            None
        }
    } else {
        match other.move_state {
            MoveState::Moving(m) => if m.target != cand {
                Some(no_push())
            } else {
                None
            },
            _ => Some(no_push()),
        }
    }
}

/// The players from id `k` on, other than the mover, looked at in turn: the first that blocks
/// the move stops it, and the first pushed ends the search.
pub open spec fn scan_others(mover: PlayerId, dir: Input, cand: Pos, s: Seq<Option<PlayerState>>, t: Seq<(Pos, Input, Option<Pos>)>, k: nat) -> Option<PushInfo>
    decreases 256 - k,
{
    if k >= 256 {
        Some(no_push())
    } else {
        let id = PlayerId(k as u8);
        if id == mover || slot(s, id) is None {
            scan_others(mover, dir, cand, s, t, k + 1)
        } else {
            match spec_try_move_player(dir, cand, slot(s, id)->0, s, t) {
                None => None,
                Some(pi) => if pi.pushing is Some {
                    Some(pi)
                } else {
                    scan_others(mover, dir, cand, s, t, k + 1)
                },
            }
        }
    }
}

/// The move a player starts in direction `input`, if the map and the other players allow it.
pub open spec fn spec_try_move(p: PlayerState, input: Input, s: Seq<Option<PlayerState>>, t: Seq<(Pos, Input, Option<Pos>)>) -> Option<MovingState> {
    match table_move(t, p.pos, input) {
        None => None,
        Some(np) => match scan_others(p.id, input, np, s, t, 0) {
            None => None,
            Some(pi) => Some(MovingState { remaining_us: MOVE_DUR, target: np, push_info: pi }),
        },
    }
}

/// The push a started move makes, if any.
pub open spec fn push_of(p: PlayerState, input: Input, m: Option<MovingState>) -> Option<Push> {
    match m {
        Some(ms) => match ms.push_info.pushing {
            Some(o) => Some(Push { id: o, pushed_by: p.id, dir: input }),
            None => None,
        },
        None => None,
    }
}

pub open spec fn sat_sub(a: u32, b: u32) -> u32 {
    if a >= b {
        (a - b) as u32
    } else {
        0
    }
}

/// The player's clocks after `dt`: a standing player's cooldown runs down; a moving player
/// moves on, landing on its target once the move's time is up, the time left over counting
/// against the cooldown.
pub open spec fn spec_tick_timers(p: PlayerState, dt: u32) -> PlayerState {
    match p.move_state {
        MoveState::Stationary => PlayerState { move_cooldown: sat_sub(p.move_cooldown, dt), ..p },
        MoveState::Moving(ms) => if ms.remaining_us >= dt {
            PlayerState { move_state: MoveState::Moving(MovingState { remaining_us: (ms.remaining_us - dt) as u32, ..ms }), ..p }
        } else {
            PlayerState {
                pos: ms.target,
                move_state: MoveState::Stationary,
                move_cooldown: sat_sub(MOVE_COOLDOWN_MAX, (dt - ms.remaining_us) as u32),
                ..p
            }
        },
    }
}

/// The player after its clocks run and, if free to move and given a direction, after trying to
/// move.
pub open spec fn spec_tick_iterate(p: PlayerState, input: Input, dt: u32, s: Seq<Option<PlayerState>>, t: Seq<(Pos, Input, Option<Pos>)>) -> PlayerState {
    let n = spec_tick_timers(p, dt);
    if n.spec_can_move() && input != Input::Idle {
        match spec_try_move(n, input, s, t) {
            Some(ms) => PlayerState { move_state: MoveState::Moving(ms), ..n },
            None => n,
        }
    } else {
        n
    }
}

/// The push made while iterating `p`, if any.
pub open spec fn tick_push(p: PlayerState, input: Input, dt: u32, s: Seq<Option<PlayerState>>, t: Seq<(Pos, Input, Option<Pos>)>) -> Option<Push> {
    let n = spec_tick_timers(p, dt);
    if n.spec_can_move() && input != Input::Idle {
        push_of(n, input, spec_try_move(n, input, s, t))
    } else {
        None
    }
}

/// A pushed player starts moving one tile in the push's direction, if the map lets it.
pub open spec fn spec_push(p: PlayerState, push: Push, t: Seq<(Pos, Input, Option<Pos>)>) -> PlayerState {
    match table_move(t, p.pos, push.dir) {
        Some(np) => PlayerState {
            move_state: MoveState::Moving(MovingState { remaining_us: MOVE_DUR, target: np, push_info: PushInfo { pushed_by: Some(push.pushed_by), pushing: None } }),
            ..p
        },
        None => p,
    }
}

/// One player's turn of a tick: a living player is iterated, and the player it pushes, if
/// any, is pushed.
pub open spec fn sim_step(s: Seq<Option<PlayerState>>, k: nat, inputs: PlayerInputs, dt: u32, t: Seq<(Pos, Input, Option<Pos>)>, fst: CrossyRulesetFST) -> Seq<Option<PlayerState>> {
    let id = PlayerId(k as u8);
    if slot(s, id) is None || fst.spec_player_alive(id) != AliveState::Alive {
        s
    } else {
        let p = slot(s, id)->0;
        let input = inputs.spec_get(id);
        let s1 = s.update(k as int, Some(spec_tick_iterate(p, input, dt, s, t)));
        match tick_push(p, input, dt, s, t) {
            Some(push) => s1.update(push.id.0 as int, Some(spec_push(slot(s1, push.id)->0, push, t))),
            None => s1,
        }
    }
}

/// The players' turns for the ids below `k`, in ascending order.
pub open spec fn sim_players(s: Seq<Option<PlayerState>>, inputs: PlayerInputs, dt: u32, t: Seq<(Pos, Input, Option<Pos>)>, fst: CrossyRulesetFST, k: nat) -> Seq<Option<PlayerState>>
    decreases k,
{
    if k == 0 {
        s
    } else {
        sim_step(sim_players(s, inputs, dt, t, fst, (k - 1) as nat), (k - 1) as nat, inputs, dt, t, fst)
    }
}

/// The whole state of a game at one tick.
#[derive(Debug, Clone)]
pub struct GameState {
    pub time_us: u32,
    pub frame_id: u32,
    pub player_states: PlayerIdMap<PlayerState>,
    pub rules_state: RulesState,
    pub player_inputs: PlayerInputs,
}

impl GameState {
    pub fn new(config: GameConfig) -> (r: Self)
        ensures
            r.time_us == 0,
            r.frame_id == 0,
            r.player_states@ == Seq::<Option<PlayerState>>::empty(),
            r.rules_state.game_id == 0,
            r.rules_state.fst == (CrossyRulesetFST::Lobby { time_with_all_players_in_ready_zone: 0 }),
            r.rules_state.config == config,
            r.player_inputs.inputs@ == Seq::<Input>::empty(),
    {
        GameState {
            time_us: 0,
            frame_id: 0,
            player_states: PlayerIdMap::new(),
            rules_state: RulesState::new(config),
            player_inputs: PlayerInputs::new(),
        }
    }

    pub fn get_player(&self, id: PlayerId) -> (r: Option<&PlayerState>)
        ensures
            r == match self.player_states.spec_get(id) {
                Some(x) => Some(&x),
                None => None::<&PlayerState>,
            },
    {
        self.player_states.get(id)
    }

    pub fn set_player_state(&mut self, id: PlayerId, state: PlayerState)
        ensures
            final(self).player_states.spec_get(id) == Some(state),
            forall|other: PlayerId| other != id ==> #[trigger] final(self).player_states.spec_get(other) == old(self).player_states.spec_get(other),
            final(self).time_us == old(self).time_us,
            final(self).frame_id == old(self).frame_id,
            final(self).rules_state == old(self).rules_state,
            final(self).player_inputs == old(self).player_inputs,
    {
        self.player_states.set(id, state);
    }

    pub fn get_player_count(&self) -> (r: usize)
        ensures
            r == crate::player_id_map::count_some(self.player_states@),
    {
        self.player_states.count_populated()
    }

    pub fn get_round_id(&self) -> (r: u8)
        ensures
            r == self.rules_state.fst.spec_round_id(),
    {
        self.rules_state.fst.get_round_id()
    }

    /// Whether a player other than `ignore_id` stands on `pos` or is moving onto it.
    pub fn space_occupied_with_player(&self, pos: Pos, ignore_id: Option<PlayerId>) -> (r: bool)
        ensures
            r == spec_occupied(self.player_states@, pos, ignore_id),
    {
        let mut i: usize = 0;
        while i < 256
            invariant
                i <= 256,
                forall|id: PlayerId| (id.0 as int) < i ==> !#[trigger] occupies(self.player_states@, id, pos, ignore_id),
            decreases 256 - i,
        {
            let id = PlayerId(i as u8);
            let skip = match ignore_id {
                Some(x) => x == id,
                None => false,
            };
            if !skip {
                match self.player_states.get(id) {
                    Some(player) => {
                        if player.pos == pos {
                            proof {
                                assert(occupies(self.player_states@, id, pos, ignore_id));
                            }
                            return true;
                        }
                        match player.move_state {
                            MoveState::Moving(moving_state) => {
                                if moving_state.target == pos {
                                    proof {
                                        assert(occupies(self.player_states@, id, pos, ignore_id));
                                    }
                                    return true;
                                }
                            },
                            _ => {},
                        }
                    },
                    None => {},
                }
            }
            proof {
                assert(self.player_states.spec_get(id) == slot(self.player_states@, id));
            }
            i += 1;
        }
        proof {
            assert forall|id: PlayerId| !#[trigger] occupies(self.player_states@, id, pos, ignore_id) by {
                assert((id.0 as int) < 256);
            }
        }
        false
    }

    /// Player `id` can be pushed in direction `dir` at this tick.
    pub fn can_push(&self, id: PlayerId, dir: Input, moves: &MoveTable) -> (r: bool)
        requires
            self.player_states.spec_contains(id),
        ensures
            r == spec_can_push(self.player_states@, id, dir, moves.moves@),
    {
        let player = self.get_player(id).unwrap();
        match moves.lookup(player.pos, dir) {
            Some(new_pos) => !self.space_occupied_with_player(new_pos, Some(id)),
            _ => false,
        }
    }
}


proof fn lemma_scan_push_present(mover: PlayerId, dir: Input, cand: Pos, s: Seq<Option<PlayerState>>, t: Seq<(Pos, Input, Option<Pos>)>, k: nat)
    requires
        ids_match(s),
    ensures
        scan_others(mover, dir, cand, s, t, k) matches Some(pi) ==> (pi.pushing matches Some(o) ==> slot(s, o) is Some),
    decreases 256 - k,
{
    if k < 256 {
        lemma_scan_push_present(mover, dir, cand, s, t, k + 1);
        let id = PlayerId(k as u8);
        if slot(s, id) is Some {
            assert(slot(s, id)->0.id == id);
        }
    }
}

proof fn lemma_tick_keeps_ids(p: PlayerState, input: Input, dt: u32, s: Seq<Option<PlayerState>>, t: Seq<(Pos, Input, Option<Pos>)>)
    requires
        ids_match(s),
    ensures
        spec_tick_iterate(p, input, dt, s, t).id == p.id,
        tick_push(p, input, dt, s, t) matches Some(push) ==> slot(s, push.id) is Some,
{
    let n = spec_tick_timers(p, dt);
    match table_move(t, n.pos, input) {
        Some(np) => lemma_scan_push_present(n.id, input, np, s, t, 0),
        None => {},
    }
}

impl GameState {
    /// The players' part of a tick: the clock and frame move on, the inputs are recorded, and
    /// each living player, in ascending id order, runs its clocks, tries to move, and pushes
    /// whoever its move pushes; `moves` holds the map's answers for this tick.
    pub fn simulate_players(&mut self, player_inputs: Option<PlayerInputs>, dt_us: u32, moves: &MoveTable)
        requires
            old(self).time_us + dt_us <= u32::MAX,
            old(self).frame_id < u32::MAX,
            ids_match(old(self).player_states@),
        ensures
            final(self).time_us == old(self).time_us + dt_us,
            final(self).frame_id == old(self).frame_id + 1,
            match player_inputs {
                Some(p) => final(self).player_inputs == p,
                None => final(self).player_inputs.inputs@ == Seq::<Input>::empty(),
            },
            final(self).player_states@ == sim_players(
                old(self).player_states@,
                final(self).player_inputs,
                dt_us,
                moves.moves@,
                old(self).rules_state.fst,
                256,
            ),
            final(self).rules_state == old(self).rules_state,
            ids_match(final(self).player_states@),
            forall|id: PlayerId| old(self).rules_state.fst.spec_player_alive(id) != AliveState::Alive ==> same_or_pushed(
                old(self).player_states.spec_get(id),
                #[trigger] final(self).player_states.spec_get(id),
            ),
    {
        self.time_us = self.time_us + dt_us;
        self.frame_id = self.frame_id + 1;
        self.player_inputs = match player_inputs {
            Some(p) => p,
            None => PlayerInputs::default(),
        };
        let ghost s0 = self.player_states@;
        let ghost t = moves.moves@;
        let mut i: usize = 0;
        while i < 256
            invariant
                i <= 256,
                t == moves.moves@,
                self.rules_state == old(self).rules_state,
                self.time_us == old(self).time_us + dt_us,
                self.frame_id == old(self).frame_id + 1,
                match player_inputs {
                    Some(p) => self.player_inputs == p,
                    None => self.player_inputs.inputs@ == Seq::<Input>::empty(),
                },
                s0 == old(self).player_states@,
                ids_match(self.player_states@),
                self.player_states@.len() == s0.len(),
                self.player_states@ == sim_players(s0, self.player_inputs, dt_us, t, self.rules_state.fst, i as nat),
            decreases 256 - i,
        {
            let id = PlayerId(i as u8);
            let ghost s = self.player_states@;
            proof {
                assert(self.player_states.spec_get(id) == slot(s, id));
            }
            if self.player_states.contains(id) && self.rules_state.fst.get_player_alive(id) == AliveState::Alive {
                let mut pushes: Vec<Push> = Vec::new();
                let player_input = self.player_inputs.get(id);
                let player_state = *self.player_states.get(id).unwrap();
                proof {
                    lemma_tick_keeps_ids(player_state, player_input, dt_us, s, t);
                }
                let iterated = player_state.tick_iterate(self, player_input, dt_us, &mut pushes, moves);
                self.player_states.set(id, iterated);
                let ghost s1 = self.player_states@;
                proof {
                    assert(s1 == s.update(i as int, Some(iterated)));
                    assert forall|j: PlayerId| (#[trigger] slot(s1, j) matches Some(p) ==> p.id == j) by {
                        if j.0 as int != i {
                            assert(slot(s1, j) == slot(s, j));
                        } else {
                            assert(j == id);
                        }
                    }
                }
                if pushes.len() > 0 {
                    let push = pushes[0];
                    proof {
                        assert(tick_push(player_state, player_input, dt_us, s, t) == Some(push));
                        assert(slot(s, push.id) is Some);
                        assert(self.player_states.spec_get(push.id) == slot(s1, push.id));
                        if push.id.0 as int != i {
                            assert(slot(s1, push.id) == slot(s, push.id));
                        }
                    }
                    let pushed_state = *self.player_states.get(push.id).unwrap();
                    let pushed = pushed_state.push(&push, moves);
                    self.player_states.set(push.id, pushed);
                    proof {
                        let s2 = self.player_states@;
                        assert forall|j: PlayerId| (#[trigger] slot(s2, j) matches Some(p) ==> p.id == j) by {
                            if j != push.id {
                                assert(slot(s2, j) == slot(s1, j));
                            }
                        }
                    }
                } else {
                    proof {
                        assert(tick_push(player_state, player_input, dt_us, s, t) is None);
                    }
                }
            }
            i += 1;
        }
        proof {
            assert forall|id: PlayerId| old(self).rules_state.fst.spec_player_alive(id) != AliveState::Alive implies same_or_pushed(
                old(self).player_states.spec_get(id),
                #[trigger] self.player_states.spec_get(id),
            ) by {
                law_inactive_players_take_no_turn(s0, self.player_inputs, dt_us, t, self.rules_state.fst, id);
                assert(old(self).player_states.spec_get(id) == slot(s0, id));
                assert(self.player_states.spec_get(id) == slot(self.player_states@, id));
            }
        }
    }

    /// The rules' part of a tick: the phases advance, with what the map reports of each
    /// player's tile once the players have moved.
    pub fn apply_rules(&mut self, dt_us: u32, hazards: &PlayerIdMap<Hazard>, lobby: LobbyReadings) -> (raft: RaftStep)
        requires
            old(self).rules_state.fst.can_tick(dt_us, old(self).player_states, *hazards, old(self).rules_state.config),
            old(self).rules_state.fst is Lobby ==> old(self).rules_state.game_id < u32::MAX,
        ensures
            old(self).rules_state.fst.spec_tick(
                dt_us,
                old(self).player_states,
                *hazards,
                lobby,
                old(self).rules_state.config,
                final(self).rules_state.fst,
                raft,
                final(self).player_states,
            ),
            final(self).rules_state.config == old(self).rules_state.config,
            final(self).rules_state.game_id == if old(self).rules_state.fst is Lobby && !(final(self).rules_state.fst is Lobby) {
                old(self).rules_state.game_id + 1
            } else {
                old(self).rules_state.game_id as int
            },
            final(self).time_us == old(self).time_us,
            final(self).frame_id == old(self).frame_id,
    {
        let (rules_state, raft) = self.rules_state.tick(dt_us, &mut self.player_states, hazards, lobby);
        self.rules_state = rules_state;
        raft
    }

    /// Adds a player standing at `pos`, free to move.
    pub fn add_player(&mut self, id: PlayerId, pos: Pos)
        ensures
            final(self).player_states.spec_get(id) == Some(PlayerState { id, pos, move_state: MoveState::Stationary, move_cooldown: 0 }),
            forall|other: PlayerId| other != id ==> #[trigger] final(self).player_states.spec_get(other) == old(self).player_states.spec_get(other),
            final(self).frame_id == old(self).frame_id,
            final(self).time_us == old(self).time_us,
            final(self).rules_state == old(self).rules_state,
            final(self).player_inputs == old(self).player_inputs,
    {
        let state = PlayerState { id, pos, move_state: MoveState::Stationary, move_cooldown: 0 };
        self.set_player_state(id, state);
    }

    pub fn remove_player(&mut self, id: PlayerId)
        ensures
            final(self).player_states.spec_get(id) is None,
            forall|other: PlayerId| other != id ==> #[trigger] final(self).player_states.spec_get(other) == old(self).player_states.spec_get(other),
            final(self).frame_id == old(self).frame_id,
            final(self).time_us == old(self).time_us,
            final(self).rules_state == old(self).rules_state,
            final(self).player_inputs == old(self).player_inputs,
    {
        self.player_states.remove(id);
    }

    /// A state rebuilt from what a server sent: each player stored under its own id.
    pub fn from_server_parts(frame_id: u32, time_us: u32, player_states_def: Vec<PlayerState>, rules_state: RulesState) -> (r: Self)
        ensures
            r.frame_id == frame_id,
            r.time_us == time_us,
            r.rules_state == rules_state,
            r.player_inputs.inputs@ == Seq::<Input>::empty(),
            forall|id: PlayerId| #[trigger] r.player_states.spec_get(id) == def_lookup(
                Seq::new(player_states_def@.len(), |i: int| (player_states_def@[i].id, player_states_def@[i])),
                id,
            ),
    {
        let ghost defs = player_states_def@;
        let mut pairs: Vec<(PlayerId, PlayerState)> = Vec::new();
        let mut i: usize = 0;
        while i < player_states_def.len()
            invariant
                i <= player_states_def@.len(),
                defs == player_states_def@,
                pairs@ == Seq::new(i as nat, |k: int| (defs[k].id, defs[k])),
            decreases player_states_def@.len() - i,
        {
            let x = player_states_def[i];
            pairs.push((x.id, x));
            i += 1;
            proof {
                assert(pairs@ =~= Seq::new(i as nat, |k: int| (defs[k].id, defs[k])));
            }
        }
        let player_states = PlayerIdMap::from_definition(pairs);
        GameState { time_us, player_states, player_inputs: PlayerInputs::new(), rules_state, frame_id }
    }

    pub fn get_player_mut(&mut self, id: PlayerId) -> (r: Option<&mut PlayerState>)
        ensures
            match old(self).player_states.spec_get(id) {
                Some(x) => r matches Some(m) && *m == x && final(self).player_states@ == old(self).player_states@.update(id.0 as int, Some(*final(m))),
                None => r is None && final(self).player_states@ == old(self).player_states@,
            },
    {
        self.player_states.get_mut(id)
    }

    /// The players in ascending id order.
    pub fn get_valid_player_states(&self) -> (r: Vec<PlayerState>)
        ensures
            r@ == populated(self.player_states@),
    {
        let r = self.player_states.get_populated();
        proof {
            assert forall|i: int| 0 <= i < r@.len() implies r@[i] == populated(self.player_states@)[i] by {
                assert(cloned::<PlayerState>(populated(self.player_states@)[i], r@[i]));
            }
            assert(r@ =~= populated(self.player_states@));
        }
        r
    }

    pub fn get_rule_state(&self) -> (r: &RulesState)
        ensures
            *r == self.rules_state,
    {
        &self.rules_state
    }
}


/// A moving player whose move time runs out this tick stands on its target.
pub proof fn law_landing(p: PlayerState, dt: u32)
    requires
        p.move_state matches MoveState::Moving(ms) && ms.remaining_us < dt,
    ensures
        spec_tick_timers(p, dt).pos == p.move_state->Moving_0.target,
        spec_tick_timers(p, dt).move_state is Stationary,
{
}

proof fn lemma_free_scan(mover: PlayerId, dir: Input, cand: Pos, s: Seq<Option<PlayerState>>, t: Seq<(Pos, Input, Option<Pos>)>, k: nat)
    requires
        scan_others(mover, dir, cand, s, t, k) matches Some(pi) && pi.pushing is None,
    ensures
        forall|id: PlayerId| (id.0 as int) >= k ==> !#[trigger] occupies(s, id, cand, Some(mover)),
    decreases 256 - k,
{
    if k < 256 {
        let id = PlayerId(k as u8);
        if id == mover || slot(s, id) is None {
            lemma_free_scan(mover, dir, cand, s, t, k + 1);
        } else {
            lemma_free_scan(mover, dir, cand, s, t, k + 1);
        }
        assert forall|j: PlayerId| (j.0 as int) >= k implies !#[trigger] occupies(s, j, cand, Some(mover)) by {
            if j.0 as int == k {
                assert(j == id);
            }
        }
    }
}

/// A move that pushes nobody goes to a tile that no other player stands on or is moving onto.
pub proof fn law_free_move_target(p: PlayerState, d: Input, s: Seq<Option<PlayerState>>, t: Seq<(Pos, Input, Option<Pos>)>)
    requires
        spec_try_move(p, d, s, t) matches Some(ms) && ms.push_info.pushing is None,
    ensures
        !spec_occupied(s, spec_try_move(p, d, s, t)->0.target, Some(p.id)),
{
    let np = table_move(t, p.pos, d)->0;
    lemma_free_scan(p.id, d, np, s, t, 0);
}


/// `after` is `before`, or `before` pushed one move along by another player: same tile, same
/// cooldown, moving with someone named as the pusher.
pub open spec fn same_or_pushed(before: Option<PlayerState>, after: Option<PlayerState>) -> bool {
    ||| after == before
    ||| match (before, after) {
        (Some(p), Some(q)) => {
            &&& q.id == p.id
            &&& q.pos == p.pos
            &&& q.move_cooldown == p.move_cooldown
            &&& q.move_state matches MoveState::Moving(ms) && ms.push_info.pushed_by is Some
        },
        _ => false,
    }
}

proof fn lemma_sim_step_ids(s: Seq<Option<PlayerState>>, k: nat, inputs: PlayerInputs, dt: u32, t: Seq<(Pos, Input, Option<Pos>)>, fst: CrossyRulesetFST)
    requires
        ids_match(s),
        k < 256,
    ensures
        ids_match(sim_step(s, k, inputs, dt, t, fst)),
        sim_step(s, k, inputs, dt, t, fst).len() == s.len(),
{
    let id = PlayerId(k as u8);
    if !(slot(s, id) is None || fst.spec_player_alive(id) != AliveState::Alive) {
        let p = slot(s, id)->0;
        let input = inputs.spec_get(id);
        lemma_tick_keeps_ids(p, input, dt, s, t);
        let s1 = s.update(k as int, Some(spec_tick_iterate(p, input, dt, s, t)));
        assert(p.id == id);
        assert forall|j: PlayerId| #[trigger] slot(s1, j) matches Some(q) ==> q.id == j by {
            if j.0 as int == k as int {
                assert(j == id);
            } else {
                assert(slot(s1, j) == slot(s, j));
            }
        }
        match tick_push(p, input, dt, s, t) {
            Some(push) => {
                let s2 = s1.update(push.id.0 as int, Some(spec_push(slot(s1, push.id)->0, push, t)));
                assert(slot(s1, push.id)->0.id == push.id);
                if push.id.0 as int != k as int {
                    assert(slot(s1, push.id) == slot(s, push.id));
                } else {
                    assert(push.id == id);
                }
                assert forall|j: PlayerId| #[trigger] slot(s2, j) matches Some(q) ==> q.id == j by {
                    if j.0 == push.id.0 {
                        assert(j == push.id);
                        assert(slot(s2, j) == Some(spec_push(slot(s1, push.id)->0, push, t)));
                    } else {
                        assert(slot(s2, j) == slot(s1, j));
                    }
                }
            },
            None => {},
        }
    }
}

proof fn lemma_inactive_step(s0: Seq<Option<PlayerState>>, s: Seq<Option<PlayerState>>, k: nat, inputs: PlayerInputs, dt: u32, t: Seq<(Pos, Input, Option<Pos>)>, fst: CrossyRulesetFST, id: PlayerId)
    requires
        ids_match(s),
        k < 256,
        fst.spec_player_alive(id) != AliveState::Alive,
        same_or_pushed(slot(s0, id), slot(s, id)),
    ensures
        same_or_pushed(slot(s0, id), slot(sim_step(s, k, inputs, dt, t, fst), id)),
{
    let me = PlayerId(k as u8);
    if !(slot(s, me) is None || fst.spec_player_alive(me) != AliveState::Alive) {
        assert(me != id);
        assert(id.0 as int != k as int) by {
            if id.0 as int == k as int {
                assert(id == me);
            }
        }
        let p = slot(s, me)->0;
        let input = inputs.spec_get(me);
        lemma_tick_keeps_ids(p, input, dt, s, t);
        let s1 = s.update(k as int, Some(spec_tick_iterate(p, input, dt, s, t)));
        assert(slot(s1, id) == slot(s, id));
        match tick_push(p, input, dt, s, t) {
            Some(push) => {
                let s2 = s1.update(push.id.0 as int, Some(spec_push(slot(s1, push.id)->0, push, t)));
                if push.id == id {
                    assert(slot(s, id) is Some);
                    assert(slot(s2, id) == Some(spec_push(slot(s, id)->0, push, t)));
                } else {
                    assert(push.id.0 != id.0) by {
                        if push.id.0 == id.0 {
                            assert(push.id == id);
                        }
                    }
                    assert(slot(s2, id) == slot(s1, id));
                }
            },
            None => {},
        }
    }
}

proof fn lemma_inactive_players(s: Seq<Option<PlayerState>>, inputs: PlayerInputs, dt: u32, t: Seq<(Pos, Input, Option<Pos>)>, fst: CrossyRulesetFST, id: PlayerId, k: nat)
    requires
        ids_match(s),
        k <= 256,
        fst.spec_player_alive(id) != AliveState::Alive,
    ensures
        same_or_pushed(slot(s, id), slot(sim_players(s, inputs, dt, t, fst, k), id)),
        ids_match(sim_players(s, inputs, dt, t, fst, k)),
    decreases k,
{
    if k > 0 {
        lemma_inactive_players(s, inputs, dt, t, fst, id, (k - 1) as nat);
        let prev = sim_players(s, inputs, dt, t, fst, (k - 1) as nat);
        lemma_sim_step_ids(prev, (k - 1) as nat, inputs, dt, t, fst);
        lemma_inactive_step(s, prev, (k - 1) as nat, inputs, dt, t, fst, id);
    }
}

/// A player that is not alive in the current phase (dead, or not in the game) takes no turn:
/// after the players' tick it stands where it stood with the same cooldown, and the only
/// change it can show is a push by a living player.
pub proof fn law_inactive_players_take_no_turn(s: Seq<Option<PlayerState>>, inputs: PlayerInputs, dt: u32, t: Seq<(Pos, Input, Option<Pos>)>, fst: CrossyRulesetFST, id: PlayerId)
    requires
        ids_match(s),
        fst.spec_player_alive(id) != AliveState::Alive,
    ensures
        same_or_pushed(slot(s, id), slot(sim_players(s, inputs, dt, t, fst, 256), id)),
{
    lemma_inactive_players(s, inputs, dt, t, fst, id, 256);
}

/// The `k`th tile that a joining player may spawn on: the square from (7, 7) to (13, 13),
/// column by column.
pub open spec fn spawn_tile(k: int) -> Pos {
    Pos::Coord(CoordPos { x: (7 + k / 7) as i32, y: (7 + k % 7) as i32 })
}

/// The first tile of the spawn square, column by column, that no player stands on or is
/// moving onto.
pub fn find_spawn_pos(game_state: &GameState) -> (r: Pos)
    requires
        exists|k: int| 0 <= k < 49 && !spec_occupied(game_state.player_states@, #[trigger] spawn_tile(k), None),
    ensures
        exists|k: int|
            0 <= k < 49 && r == #[trigger] spawn_tile(k) && !spec_occupied(game_state.player_states@, r, None) && forall|j: int|
                0 <= j < k ==> spec_occupied(game_state.player_states@, #[trigger] spawn_tile(j), None),
{
    let mut x: i32 = 7;
    while x <= 13
        invariant
            7 <= x <= 14,
            exists|k: int| 0 <= k < 49 && !spec_occupied(game_state.player_states@, #[trigger] spawn_tile(k), None),
            forall|j: int| 0 <= j < (x - 7) * 7 ==> spec_occupied(game_state.player_states@, #[trigger] spawn_tile(j), None),
        decreases 14 - x,
    {
        let mut y: i32 = 7;
        while y <= 13
            invariant
                7 <= x <= 13,
                7 <= y <= 14,
                forall|j: int| 0 <= j < (x - 7) * 7 + (y - 7) ==> spec_occupied(game_state.player_states@, #[trigger] spawn_tile(j), None),
            decreases 14 - y,
        {
            let spawn_pos = Pos::new_coord(x, y);
            proof {
                let k = (x - 7) * 7 + (y - 7);
                assert(k / 7 == x - 7 && k % 7 == y - 7) by (nonlinear_arith)
                    requires
                        k == (x - 7) * 7 + (y - 7),
                        0 <= y - 7 < 7,
                ;
                assert(spawn_pos == spawn_tile(k));
            }
            if !game_state.space_occupied_with_player(spawn_pos, None) {
                return spawn_pos;
            }
            y += 1;
        }
        x += 1;
    }
    proof {
        let k = choose|k: int| 0 <= k < 49 && !spec_occupied(game_state.player_states@, #[trigger] spawn_tile(k), None);
        assert(spec_occupied(game_state.player_states@, spawn_tile(k), None));
    }
    Pos::new_coord(7, 7)
}

} // verus!
