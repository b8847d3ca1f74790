use vstd::prelude::*;
use std::collections::VecDeque;
use crate::crossy_ruleset::{GameConfig, RulesState};
use crate::game::{Input, PlayerId, PlayerInputs, Pos};
use crate::player::MoveState;
use crate::game_state::GameState;
use crate::player::PlayerState;
use crate::player_id_map::populated;

verus! {

/// How many past states a timeline keeps.
pub const STATE_BUFFER_SIZE: usize = 512;

/// The length of a tick, in microseconds.
pub const TICK_INTERVAL_US: u32 = 16_666;

/// An input that a player gave at a frame, as sent between peers.
#[derive(Debug, Clone, Copy, PartialEq, Eq, Structural)]
pub struct RemoteInput {
    pub time_us: u32,
    pub frame_id: u32,
    pub input: Input,
    pub player_id: PlayerId,
}

/// What a server sends of one tick: the frame, the time and the players.
#[derive(Debug)]
pub struct RemoteTickState {
    pub frame_id: u32,
    pub time_us: u32,
    pub states: Vec<PlayerState>,
}

impl RemoteTickState {
    pub fn from_gamestate(game_state: &GameState) -> (r: Self)
        ensures
            r.frame_id == game_state.frame_id,
            r.time_us == game_state.time_us,
            r.states@ == populated(game_state.player_states@),
    {
        RemoteTickState { frame_id: game_state.frame_id, time_us: game_state.time_us, states: game_state.get_valid_player_states() }
    }
}

/// Frames fall by one from the newest state to the oldest.
pub open spec fn frames_consecutive(s: Seq<GameState>) -> bool {
    forall|i: int| 0 <= i < s.len() ==> #[trigger] s[i].frame_id == s[0].frame_id - i
}

/// The inputs that the players of `st` gave, in ascending id order, for the ids below `n`;
/// idle players send nothing.
pub open spec fn inputs_upto(st: GameState, n: nat) -> Seq<RemoteInput>
    decreases n,
{
    if n == 0 {
        Seq::empty()
    } else {
        let id = PlayerId((n - 1) as u8);
        let rest = inputs_upto(st, (n - 1) as nat);
        if st.player_states.spec_contains(id) && st.player_inputs.spec_get(id) != Input::Idle {
            rest.push(RemoteInput { frame_id: st.frame_id, time_us: st.time_us, input: st.player_inputs.spec_get(id), player_id: id })
        } else {
            rest
        }
    }
}

/// The inputs of the states from offset `k` down to the newest, oldest first.
pub open spec fn inputs_from(s: Seq<GameState>, k: int) -> Seq<RemoteInput>
    decreases k + 1,
{
    if k < 0 {
        Seq::empty()
    } else {
        inputs_upto(s[k], 256) + inputs_from(s, k - 1)
    }
}

/// The states of a game, newest first, kept to resimulate when late inputs arrive.
#[derive(Debug)]
pub struct Timeline {
    states: VecDeque<GameState>,
}

impl Timeline {
    /// The timeline holds between one state and the buffer's size, frames falling by one.
    pub closed spec fn wf(&self) -> bool {
        &&& 0 < self.states@.len() <= STATE_BUFFER_SIZE
        &&& frames_consecutive(self.states@)
    }

    /// The states, newest first.
    pub closed spec fn states_view(&self) -> Seq<GameState> {
        self.states@
    }

    pub fn new(config: GameConfig) -> (r: Self)
        ensures
            r.wf(),
            r.states_view().len() == 1,
            r.states_view()[0].frame_id == 0,
            r.states_view()[0].time_us == 0,
            r.states_view()[0].player_states@ == Seq::<Option<PlayerState>>::empty(),
            r.states_view()[0].rules_state.config == config,
    {
        let mut states: VecDeque<GameState> = VecDeque::new();
        states.push_front(GameState::new(config));
        Timeline { states }
    }

    pub fn from_server_parts(frame_id: u32, time_us: u32, player_states: Vec<PlayerState>, rules_state: RulesState) -> (r: Self)
        ensures
            r.wf(),
            r.states_view().len() == 1,
            r.states_view()[0].frame_id == frame_id,
            r.states_view()[0].time_us == time_us,
            r.states_view()[0].rules_state == rules_state,
    {
        let mut states: VecDeque<GameState> = VecDeque::new();
        states.push_front(GameState::from_server_parts(frame_id, time_us, player_states, rules_state));
        Timeline { states }
    }

    pub fn top_state(&self) -> (r: &GameState)
        requires
            self.wf(),
        ensures
            *r == self.states_view()[0],
            self.states_view().len() > 0,
    {
        &self.states[0]
    }

    pub fn current_state(&self) -> (r: &GameState)
        requires
            self.wf(),
        ensures
            *r == self.states_view()[0],
    {
        self.top_state()
    }

    pub fn len(&self) -> (r: usize)
        requires
            self.wf(),
        ensures
            r == self.states_view().len(),
            0 < r <= STATE_BUFFER_SIZE,
    {
        self.states.len()
    }

    /// A timeline always holds a state.
    pub fn is_empty(&self) -> (r: bool)
        requires
            self.wf(),
        ensures
            r == (self.states_view().len() == 0),
            !r,
    {
        self.states.len() == 0
    }

    /// Puts a new newest state, the next frame, and forgets the oldest beyond the buffer's size.
    pub fn push_state(&mut self, state: GameState)
        requires
            old(self).wf(),
            state.frame_id == old(self).states_view()[0].frame_id + 1,
        ensures
            final(self).wf(),
            final(self).states_view() == if old(self).states_view().len() < STATE_BUFFER_SIZE {
                seq![state] + old(self).states_view()
            } else {
                (seq![state] + old(self).states_view()).drop_last()
            },
    {
        let ghost before = self.states@;
        self.states.push_front(state);
        while self.states.len() > STATE_BUFFER_SIZE
            invariant
                self.states@.len() <= STATE_BUFFER_SIZE + 1,
                before.len() <= STATE_BUFFER_SIZE,
                self.states@.len() >= before.len(),
                before.len() < STATE_BUFFER_SIZE ==> self.states@.len() == before.len() + 1,
                self.states@ == if self.states@.len() == before.len() + 1 {
                    seq![state] + before
                } else {
                    (seq![state] + before).drop_last()
                },
            decreases self.states@.len(),
        {
            self.states.pop_back();
        }
        proof {
            let s = self.states@;
            assert forall|i: int| 0 <= i < s.len() implies #[trigger] s[i].frame_id == s[0].frame_id - i by {
                if i > 0 {
                    assert(s[i] == before[i - 1]);
                    assert(before[i - 1].frame_id == before[0].frame_id - (i - 1));
                }
            }
        }
    }

    /// The offset from the newest state of the state at `frame_id`, if still kept.
    pub fn frame_id_to_frame_offset(&self, frame_id: u32) -> (r: Option<usize>)
        requires
            self.wf(),
            frame_id <= self.states_view()[0].frame_id,
        ensures
            r == if frame_id >= self.states_view().last().frame_id {
                Some((self.states_view()[0].frame_id - frame_id) as usize)
            } else {
                None
            },
            r matches Some(o) ==> o < self.states_view().len() && self.states_view()[o as int].frame_id == frame_id,
    {
        let len = self.states.len();
        let first_frame = self.states[len - 1].frame_id;
        if frame_id < first_frame {
            return None;
        }
        let offset_back = (frame_id - first_frame) as usize;
        proof {
            assert(self.states@[len - 1].frame_id == self.states@[0].frame_id - (len - 1));
        }
        let offset_front = len - offset_back - 1;
        proof {
            assert(self.states@[offset_front as int].frame_id == self.states@[0].frame_id - offset_front);
        }
        Some(offset_front)
    }

    /// The state at `frame_id`, if kept.
    pub fn try_get_state(&self, frame_id: u32) -> (r: Option<&GameState>)
        requires
            self.wf(),
        ensures
            match r {
                Some(st) => exists|o: int| 0 <= o < self.states_view().len() && *st == self.states_view()[o] && st.frame_id == frame_id,
                None => frame_id > self.states_view()[0].frame_id || frame_id < self.states_view().last().frame_id,
            },
    {
        if frame_id > self.states[0].frame_id {
            return None;
        }
        match self.frame_id_to_frame_offset(frame_id) {
            Some(offset) => Some(&self.states[offset]),
            None => None,
        }
    }

    /// The offset of the newest state older than `time_us`.
    pub fn get_index_before_us(&self, time_us: u32) -> (r: Option<usize>)
        requires
            self.wf(),
        ensures
            match r {
                Some(i) => i < self.states_view().len() && self.states_view()[i as int].time_us < time_us && forall|j: int|
                    0 <= j < i ==> #[trigger] self.states_view()[j].time_us >= time_us,
                None => forall|j: int| 0 <= j < self.states_view().len() ==> #[trigger] self.states_view()[j].time_us >= time_us,
            },
    {
        let mut i: usize = 0;
        while i < self.states.len()
            invariant
                i <= self.states@.len(),
                forall|j: int| 0 <= j < i ==> #[trigger] self.states@[j].time_us >= time_us,
            decreases self.states@.len() - i,
        {
            if self.states[i].time_us < time_us {
                return Some(i);
            }
            i += 1;
        }
        None
    }

    /// The offset of the newest state at or before `time_us`.
    pub fn get_index_before_eq_us(&self, time_us: u32) -> (r: Option<usize>)
        requires
            self.wf(),
        ensures
            match r {
                Some(i) => i < self.states_view().len() && self.states_view()[i as int].time_us <= time_us && forall|j: int|
                    0 <= j < i ==> #[trigger] self.states_view()[j].time_us > time_us,
                None => forall|j: int| 0 <= j < self.states_view().len() ==> #[trigger] self.states_view()[j].time_us > time_us,
            },
    {
        let mut i: usize = 0;
        while i < self.states.len()
            invariant
                i <= self.states@.len(),
                forall|j: int| 0 <= j < i ==> #[trigger] self.states@[j].time_us > time_us,
            decreases self.states@.len() - i,
        {
            if self.states[i].time_us <= time_us {
                return Some(i);
            }
            i += 1;
        }
        None
    }

    pub fn get_state_before_eq_us(&self, time_us: u32) -> (r: Option<&GameState>)
        requires
            self.wf(),
        ensures
            match r {
                Some(st) => exists|i: int| 0 <= i < self.states_view().len() && *st == self.states_view()[i] && st.time_us <= time_us && forall|j: int|
                    0 <= j < i ==> #[trigger] self.states_view()[j].time_us > time_us,
                None => forall|j: int| 0 <= j < self.states_view().len() ==> #[trigger] self.states_view()[j].time_us > time_us,
            },
    {
        match self.get_index_before_eq_us(time_us) {
            Some(i) => Some(&self.states[i]),
            None => None,
        }
    }

    /// The inputs that the players gave from `frame_id` on, oldest frame first.
    pub fn inputs_since_frame(&self, frame_id: u32) -> (r: Vec<RemoteInput>)
        requires
            self.wf(),
            frame_id <= self.states_view()[0].frame_id,
        ensures
            r@ == if frame_id >= self.states_view().last().frame_id {
                inputs_from(self.states_view(), self.states_view()[0].frame_id - frame_id)
            } else {
                Seq::<RemoteInput>::empty()
            },
    {
        match self.frame_id_to_frame_offset(frame_id) {
            None => Vec::new(),
            Some(offset) => {
                let mut inputs: Vec<RemoteInput> = Vec::new();
                let mut k: usize = offset + 1;
                while k > 0
                    invariant
                        k <= offset + 1,
                        offset < self.states@.len(),
                        inputs@ + inputs_from(self.states@, k - 1) == inputs_from(self.states@, offset as int),
                    decreases k,
                {
                    k -= 1;
                    let state = &self.states[k];
                    let ghost before = inputs@;
                    let mut i: usize = 0;
                    while i < 256
                        invariant
                            i <= 256,
                            inputs@ == before + inputs_upto(*state, i as nat),
                        decreases 256 - i,
                    {
                        let player_id = PlayerId(i as u8);
                        if state.player_states.contains(player_id) {
                            let input = state.player_inputs.get(player_id);
                            if input != Input::Idle {
                                inputs.push(RemoteInput { frame_id: state.frame_id, time_us: state.time_us, input, player_id });
                            }
                        }
                        proof {
                            assert(inputs@ =~= before + inputs_upto(*state, (i + 1) as nat));
                        }
                        i += 1;
                    }
                    proof {
                        assert(inputs_from(self.states@, k as int) == inputs_upto(self.states@[k as int], 256) + inputs_from(self.states@, k - 1));
                        assert(before + inputs_from(self.states@, k as int) =~= inputs@ + inputs_from(self.states@, k - 1));
                    }
                }
                proof {
                    assert(inputs@ + inputs_from(self.states@, -1) =~= inputs@);
                }
                inputs
            },
        }
    }
}


/// The first input that is not idle among the first `n` of `inputs`, sent for player `id` at
/// frame `f`.
pub open spec fn first_input(inputs: Seq<RemoteInput>, f: u32, id: PlayerId, n: nat) -> Option<Input>
    decreases n,
{
    if n == 0 {
        None
    } else {
        match first_input(inputs, f, id, (n - 1) as nat) {
            Some(x) => Some(x),
            None => {
                let r = inputs[n - 1];
                if r.frame_id == f && r.player_id == id && r.input != Input::Idle {
                    Some(r.input)
                } else {
                    None
                }
            },
        }
    }
}

/// The input a kept state holds for `id` once `inputs` are merged: a slot that was idle takes
/// the first input sent for it that is not idle; any other slot keeps its input.
pub open spec fn merged_input(st: GameState, inputs: Seq<RemoteInput>, id: PlayerId, n: nat) -> Input {
    if st.player_inputs.spec_get(id) == Input::Idle {
        match first_input(inputs, st.frame_id, id, n) {
            Some(x) => x,
            None => Input::Idle,
        }
    } else {
        st.player_inputs.spec_get(id)
    }
}

/// Input `i` fills a slot: its frame is kept, the slot was idle, and it is the first input sent
/// for that slot that is not idle.
pub open spec fn fills_slot(s: Seq<GameState>, inputs: Seq<RemoteInput>, i: int) -> bool {
    let r = inputs[i];
    &&& s.last().frame_id <= r.frame_id <= s[0].frame_id
    &&& s[s[0].frame_id - r.frame_id].player_inputs.spec_get(r.player_id) == Input::Idle
    &&& r.input != Input::Idle
    &&& first_input(inputs, r.frame_id, r.player_id, i as nat) is None
}

/// The earliest frame before an input that fills a slot, among the first `n` inputs, if that
/// frame is still kept: where resimulation starts.
pub open spec fn resim_frame(s: Seq<GameState>, inputs: Seq<RemoteInput>, n: nat) -> Option<u32>
    decreases n,
{
    if n == 0 {
        None
    } else {
        let prev = resim_frame(s, inputs, (n - 1) as nat);
        let r = inputs[n - 1];
        if fills_slot(s, inputs, n - 1) && r.frame_id - 1 >= s.last().frame_id {
            match prev {
                Some(p) => if r.frame_id - 1 < p {
                    Some((r.frame_id - 1) as u32)
                } else {
                    Some(p)
                },
                None => Some((r.frame_id - 1) as u32),
            }
        } else {
            prev
        }
    }
}

/// The latest frame among the first `n` inputs.
pub open spec fn last_frame(inputs: Seq<RemoteInput>, n: nat) -> int
    decreases n,
{
    if n == 0 {
        0
    } else if inputs[n - 1].frame_id > last_frame(inputs, (n - 1) as nat) {
        inputs[n - 1].frame_id as int
    } else {
        last_frame(inputs, (n - 1) as nat)
    }
}

/// `a` is `b` with the inputs of `inputs` merged in.
pub open spec fn merged_state(a: GameState, b: GameState, inputs: Seq<RemoteInput>, n: nat) -> bool {
    &&& a.frame_id == b.frame_id
    &&& a.time_us == b.time_us
    &&& a.player_states == b.player_states
    &&& a.rules_state == b.rules_state
    &&& forall|id: PlayerId| #[trigger] a.player_inputs.spec_get(id) == merged_input(b, inputs, id, n)
}

impl Timeline {
    /// The state at offset `offset` from the newest.
    pub fn state_at(&self, offset: usize) -> (r: &GameState)
        requires
            self.wf(),
            offset < self.states_view().len(),
        ensures
            *r == self.states_view()[offset as int],
    {
        &self.states[offset]
    }

    /// Puts a resimulated state in place of the state of the same frame.
    pub fn replace_state(&mut self, offset: usize, state: GameState)
        requires
            old(self).wf(),
            offset < old(self).states_view().len(),
            state.frame_id == old(self).states_view()[offset as int].frame_id,
        ensures
            final(self).wf(),
            final(self).states_view() == old(self).states_view().update(offset as int, state),
    {
        let ghost before = self.states@;
        let _ = self.states.remove(offset);
        self.states.insert(offset, state);
        proof {
            assert(self.states@ =~= before.update(offset as int, state));
            assert forall|i: int| 0 <= i < self.states@.len() implies #[trigger] self.states@[i].frame_id == self.states@[0].frame_id - i by {
                assert(before[i].frame_id == before[0].frame_id - i);
            }
        }
    }

    /// The inputs of the newest state.
    pub fn get_last_player_inputs(&self) -> (r: PlayerInputs)
        requires
            self.wf(),
        ensures
            r.inputs@ == self.states_view()[0].player_inputs.inputs@,
    {
        let src = &self.states[0].player_inputs;
        let mut inputs: Vec<Input> = Vec::new();
        let mut i: usize = 0;
        while i < src.inputs.len()
            invariant
                i <= src.inputs@.len(),
                inputs@ == src.inputs@.take(i as int),
            decreases src.inputs@.len() - i,
        {
            inputs.push(src.inputs[i]);
            i += 1;
            proof {
                assert(inputs@ =~= src.inputs@.take(i as int));
            }
        }
        proof {
            assert(src.inputs@.take(i as int) =~= src.inputs@);
        }
        PlayerInputs { inputs }
    }

    /// Sets the game id of the newest state.
    pub fn set_game_id(&mut self, game_id: u32)
        requires
            old(self).wf(),
        ensures
            final(self).wf(),
            final(self).states_view().len() == old(self).states_view().len(),
            final(self).states_view()[0].rules_state.game_id == game_id,
            final(self).states_view()[0].frame_id == old(self).states_view()[0].frame_id,
            forall|i: int| 0 < i < old(self).states_view().len() ==> #[trigger] final(self).states_view()[i] == old(self).states_view()[i],
    {
        let ghost before = self.states@;
        let mut st = self.states.pop_front().unwrap();
        st.rules_state.game_id = game_id;
        self.states.push_front(st);
        proof {
            assert forall|i: int| 0 < i < before.len() implies #[trigger] self.states@[i] == before[i] by {
                assert(self.states@[i] == before.drop_first()[i - 1]);
            }
            assert forall|i: int| 0 <= i < self.states@.len() implies #[trigger] self.states@[i].frame_id == self.states@[0].frame_id - i by {
                assert(before[i].frame_id == before[0].frame_id - i);
            }
        }
    }

    /// Adds a player to the newest state.
    pub fn add_player(&mut self, player_id: PlayerId, pos: Pos)
        requires
            old(self).wf(),
        ensures
            final(self).wf(),
            final(self).states_view().len() == old(self).states_view().len(),
            final(self).states_view()[0].player_states.spec_get(player_id) == Some(
                PlayerState { id: player_id, pos, move_state: MoveState::Stationary, move_cooldown: 0 },
            ),
            forall|other: PlayerId| other != player_id ==> #[trigger] final(self).states_view()[0].player_states.spec_get(other)
                == old(self).states_view()[0].player_states.spec_get(other),
            forall|i: int| 0 < i < old(self).states_view().len() ==> #[trigger] final(self).states_view()[i] == old(self).states_view()[i],
    {
        let ghost before = self.states@;
        let mut st = self.states.pop_front().unwrap();
        st.add_player(player_id, pos);
        self.states.push_front(st);
        proof {
            assert forall|i: int| 0 < i < before.len() implies #[trigger] self.states@[i] == before[i] by {
                assert(self.states@[i] == before.drop_first()[i - 1]);
            }
            assert forall|i: int| 0 <= i < self.states@.len() implies #[trigger] self.states@[i].frame_id == self.states@[0].frame_id - i by {
                assert(before[i].frame_id == before[0].frame_id - i);
            }
        }
    }

    /// Removes a player from every kept state.
    pub fn remove_player(&mut self, player_id: PlayerId)
        requires
            old(self).wf(),
        ensures
            final(self).wf(),
            final(self).states_view().len() == old(self).states_view().len(),
            forall|i: int| 0 <= i < old(self).states_view().len() ==> (#[trigger] final(self).states_view()[i]).frame_id
                == old(self).states_view()[i].frame_id && final(self).states_view()[i].player_states.spec_get(player_id) is None && forall|
                other: PlayerId,
            | other != player_id ==> #[trigger] final(self).states_view()[i].player_states.spec_get(other)
                == old(self).states_view()[i].player_states.spec_get(other),
    {
        let ghost before = self.states@;
        let mut kept: VecDeque<GameState> = VecDeque::new();
        let n = self.states.len();
        let mut i: usize = 0;
        while i < n
            invariant
                n == before.len(),
                i <= n,
                self.states@ == before.skip(i as int),
                kept@.len() == i,
                forall|k: int| 0 <= k < i ==> (#[trigger] kept@[k]).frame_id == before[k].frame_id && kept@[k].player_states.spec_get(player_id) is None
                    && forall|other: PlayerId| other != player_id ==> #[trigger] kept@[k].player_states.spec_get(other)
                    == before[k].player_states.spec_get(other),
            decreases n - i,
        {
            let mut st = self.states.pop_front().unwrap();
            st.remove_player(player_id);
            kept.push_back(st);
            proof {
                assert(self.states@ =~= before.skip(i + 1));
            }
            i += 1;
        }
        self.states = kept;
        proof {
            assert forall|k: int| 0 <= k < self.states@.len() implies #[trigger] self.states@[k].frame_id == self.states@[0].frame_id - k by {
                assert(before[k].frame_id == before[0].frame_id - k);
            }
        }
    }
}


proof fn lemma_last_frame_bound(inputs: Seq<RemoteInput>, n: nat, i: int)
    requires
        0 <= i < n <= inputs.len(),
    ensures
        inputs[i].frame_id <= last_frame(inputs, n),
    decreases n,
{
    if i < n - 1 {
        lemma_last_frame_bound(inputs, (n - 1) as nat, i);
    }
}

proof fn lemma_first_input_not_idle(inputs: Seq<RemoteInput>, f: u32, id: PlayerId, n: nat)
    ensures
        first_input(inputs, f, id, n) matches Some(x) ==> x != Input::Idle,
    decreases n,
{
    if n > 0 {
        lemma_first_input_not_idle(inputs, f, id, (n - 1) as nat);
    }
}

proof fn lemma_merge_step(st: GameState, inputs: Seq<RemoteInput>, id: PlayerId, i: nat)
    requires
        i < inputs.len(),
    ensures
        merged_input(st, inputs, id, i + 1) == if merged_input(st, inputs, id, i) == Input::Idle && inputs[i as int].frame_id == st.frame_id
            && inputs[i as int].player_id == id {
            inputs[i as int].input
        } else {
            merged_input(st, inputs, id, i)
        },
        (merged_input(st, inputs, id, i) == Input::Idle) == (st.player_inputs.spec_get(id) == Input::Idle && first_input(
            inputs,
            st.frame_id,
            id,
            i,
        ) is None),
{
    lemma_first_input_not_idle(inputs, st.frame_id, id, i);
    lemma_first_input_not_idle(inputs, st.frame_id, id, i + 1);
    assert(first_input(inputs, st.frame_id, id, i + 1) == match first_input(inputs, st.frame_id, id, i) {
        Some(x) => Some(x),
        None => {
            let r = inputs[i as int];
            if r.frame_id == st.frame_id && r.player_id == id && r.input != Input::Idle {
                Some(r.input)
            } else {
                None
            }
        },
    });
}

proof fn lemma_resim_bounds(s: Seq<GameState>, inputs: Seq<RemoteInput>, n: nat)
    requires
        n <= inputs.len(),
        s.len() > 0,
        last_frame(inputs, inputs.len()) <= s[0].frame_id,
    ensures
        resim_frame(s, inputs, n) matches Some(f) ==> s.last().frame_id <= f < s[0].frame_id,
    decreases n,
{
    if n > 0 {
        lemma_resim_bounds(s, inputs, (n - 1) as nat);
        lemma_last_frame_bound(inputs, inputs.len(), n - 1);
    }
}

proof fn lemma_first_input_none(inputs: Seq<RemoteInput>, f: u32, id: PlayerId, n: nat, i: int)
    requires
        first_input(inputs, f, id, n) is None,
        0 <= i < n,
    ensures
        !(inputs[i].frame_id == f && inputs[i].player_id == id && inputs[i].input != Input::Idle),
    decreases n,
{
    if i < n - 1 {
        lemma_first_input_none(inputs, f, id, (n - 1) as nat, i);
    }
}

/// Merging never overwrites an input that a state already knew with another, and never
/// empties a slot: a known input stays as it was.
pub proof fn law_merge_keeps_known_inputs(merged: GameState, kept: GameState, inputs: Seq<RemoteInput>, id: PlayerId)
    requires
        merged_state(merged, kept, inputs, inputs.len()),
        kept.player_inputs.spec_get(id) != Input::Idle,
    ensures
        merged.player_inputs.spec_get(id) == kept.player_inputs.spec_get(id),
{
    assert(merged.player_inputs.spec_get(id) == merged_input(kept, inputs, id, inputs.len()));
}

/// Handing the same inputs over a second time changes no state and asks for no resimulation.
pub proof fn law_propagate_twice_changes_nothing(
    s0: Seq<GameState>,
    s1: Seq<GameState>,
    s2: Seq<GameState>,
    inputs: Seq<RemoteInput>,
)
    requires
        s0.len() > 0,
        frames_consecutive(s0),
        s1.len() == s0.len(),
        s2.len() == s1.len(),
        forall|k: int| 0 <= k < s0.len() ==> merged_state(#[trigger] s1[k], s0[k], inputs, inputs.len()),
        forall|k: int| 0 <= k < s1.len() ==> merged_state(#[trigger] s2[k], s1[k], inputs, inputs.len()),
    ensures
        resim_frame(s1, inputs, inputs.len()) is None,
        forall|k: int, id: PlayerId| 0 <= k < s1.len() ==> #[trigger] s2[k].player_inputs.spec_get(id)
            == s1[k].player_inputs.spec_get(id),
{
    let n = inputs.len();
    assert forall|k: int, id: PlayerId| 0 <= k < s1.len() implies #[trigger] s2[k].player_inputs.spec_get(id)
        == s1[k].player_inputs.spec_get(id) by {
        assert(merged_state(s1[k], s0[k], inputs, n));
        assert(merged_state(s2[k], s1[k], inputs, n));
        assert(s1[k].player_inputs.spec_get(id) == merged_input(s0[k], inputs, id, n));
        assert(s2[k].player_inputs.spec_get(id) == merged_input(s1[k], inputs, id, n));
        lemma_first_input_not_idle(inputs, s0[k].frame_id, id, n);
    }
    assert forall|i: int| 0 <= i < n implies !#[trigger] fills_slot(s1, inputs, i) by {
        let r = inputs[i];
        assert(merged_state(s1[0], s0[0], inputs, n));
        assert(merged_state(s1[s1.len() - 1], s0[s0.len() - 1], inputs, n));
        if s1.last().frame_id <= r.frame_id <= s1[0].frame_id {
            let idx = s1[0].frame_id - r.frame_id;
            assert(s0[idx].frame_id == s0[0].frame_id - idx);
            assert(merged_state(s1[idx], s0[idx], inputs, n));
            assert(s1[idx].player_inputs.spec_get(r.player_id) == merged_input(s0[idx], inputs, r.player_id, n));
            lemma_first_input_not_idle(inputs, s0[idx].frame_id, r.player_id, n);
            if s1[idx].player_inputs.spec_get(r.player_id) == Input::Idle {
                lemma_first_input_none(inputs, s0[idx].frame_id, r.player_id, n, i);
            }
        }
    }
    lemma_resim_none(s1, inputs, n);
}

proof fn lemma_resim_none(s: Seq<GameState>, inputs: Seq<RemoteInput>, n: nat)
    requires
        n <= inputs.len(),
        forall|i: int| 0 <= i < n ==> !#[trigger] fills_slot(s, inputs, i),
    ensures
        resim_frame(s, inputs, n) is None,
    decreases n,
{
    if n > 0 {
        assert(!fills_slot(s, inputs, n - 1));
        lemma_resim_none(s, inputs, (n - 1) as nat);
    }
}

/// Input `i` fills a slot and the frame before it is still kept, so resimulation could start
/// there.
pub open spec fn resim_candidate(s: Seq<GameState>, inputs: Seq<RemoteInput>, i: int) -> bool {
    fills_slot(s, inputs, i) && inputs[i].frame_id - 1 >= s.last().frame_id
}

/// Resimulation starts at the earliest frame that any input of the batch needs, whatever the
/// order of the inputs: the frame before some input that filled a slot, and no later than the
/// frame before any such input. Where no input needs it, there is none.
pub proof fn law_resim_from_earliest(s: Seq<GameState>, inputs: Seq<RemoteInput>, n: nat)
    requires
        n <= inputs.len(),
    ensures
        resim_frame(s, inputs, n) is None <==> forall|i: int| 0 <= i < n ==> !#[trigger] resim_candidate(s, inputs, i),
        resim_frame(s, inputs, n) matches Some(f) ==> {
            &&& exists|i: int| 0 <= i < n && #[trigger] resim_candidate(s, inputs, i) && f == inputs[i].frame_id - 1
            &&& forall|i: int| 0 <= i < n && #[trigger] resim_candidate(s, inputs, i) ==> f <= inputs[i].frame_id - 1
        },
    decreases n,
{
    if n > 0 {
        law_resim_from_earliest(s, inputs, (n - 1) as nat);
        let k = n - 1;
        if resim_candidate(s, inputs, k) {
            match resim_frame(s, inputs, (n - 1) as nat) {
                Some(p) => {
                    if inputs[k].frame_id - 1 < p {
                        assert(resim_frame(s, inputs, n) == Some((inputs[k].frame_id - 1) as u32));
                    } else {
                        let i0 = choose|i: int| 0 <= i < n - 1 && #[trigger] resim_candidate(s, inputs, i) && p == inputs[i].frame_id - 1;
                        assert(resim_candidate(s, inputs, i0));
                    }
                },
                None => {
                    assert(resim_frame(s, inputs, n) == Some((inputs[k].frame_id - 1) as u32));
                },
            }
        } else {
            match resim_frame(s, inputs, (n - 1) as nat) {
                Some(p) => {
                    let i0 = choose|i: int| 0 <= i < n - 1 && #[trigger] resim_candidate(s, inputs, i) && p == inputs[i].frame_id - 1;
                    assert(resim_candidate(s, inputs, i0));
                },
                None => {},
            }
        }
    }
}

impl Timeline {
    /// Merges inputs that arrived late into the kept states. Inputs from frames after the newest
    /// are refused, and nothing changes. Otherwise each input fills its player's slot in the
    /// state of its frame if that slot is still idle, and the answer tells where resimulation
    /// must start: the offset of the frame before the earliest input that filled a slot, if that
    /// frame is kept.
    pub fn try_propagate_inputs(&mut self, inputs: Vec<RemoteInput>) -> (r: (bool, Option<usize>))
        requires
            old(self).wf(),
            forall|i: int| 0 <= i < inputs@.len() && #[trigger] fills_slot(old(self).states_view(), inputs@, i) ==> inputs@[i].frame_id >= 1,
        ensures
            final(self).wf(),
            r.0 == (inputs@.len() == 0 || last_frame(inputs@, inputs@.len()) <= old(self).states_view()[0].frame_id),
            !r.0 || inputs@.len() == 0 ==> final(self).states_view() == old(self).states_view() && r.1 is None,
            r.0 && inputs@.len() > 0 ==> {
                &&& final(self).states_view().len() == old(self).states_view().len()
                &&& forall|k: int| 0 <= k < old(self).states_view().len() ==> merged_state(
                    #[trigger] final(self).states_view()[k],
                    old(self).states_view()[k],
                    inputs@,
                    inputs@.len(),
                )
                &&& r.1 == match resim_frame(old(self).states_view(), inputs@, inputs@.len()) {
                    Some(f) => Some((old(self).states_view()[0].frame_id - f) as usize),
                    None => None,
                }
                &&& r.1 is None <==> forall|i: int| 0 <= i < inputs@.len() ==> !#[trigger] resim_candidate(old(self).states_view(), inputs@, i)
                &&& r.1 matches Some(o) ==> forall|i: int| 0 <= i < inputs@.len() && #[trigger] resim_candidate(old(self).states_view(), inputs@, i)
                    ==> o >= old(self).states_view()[0].frame_id - (inputs@[i].frame_id - 1)
            },
    {
        if inputs.len() == 0 {
            return (true, None);
        }
        let mut last: u32 = 0;
        let mut j: usize = 0;
        while j < inputs.len()
            invariant
                j <= inputs@.len(),
                last == last_frame(inputs@, j as nat),
            decreases inputs@.len() - j,
        {
            if inputs[j].frame_id > last {
                last = inputs[j].frame_id;
            }
            j += 1;
        }
        if last > self.states[0].frame_id {
            return (false, None);
        }
        let ghost s0 = self.states@;
        let ghost n = inputs@.len();
        let mut resim: Option<u32> = None;
        let mut i: usize = 0;
        while i < inputs.len()
            invariant
                self.wf(),
                i <= n,
                n == inputs@.len(),
                self.states@.len() == s0.len(),
                0 < s0.len(),
                frames_consecutive(s0),
                last_frame(inputs@, n) <= s0[0].frame_id,
                forall|k: int| 0 <= k < n && #[trigger] fills_slot(s0, inputs@, k) ==> inputs@[k].frame_id >= 1,
                forall|k: int| 0 <= k < s0.len() ==> merged_state(#[trigger] self.states@[k], s0[k], inputs@, i as nat),
                resim == resim_frame(s0, inputs@, i as nat),
                resim matches Some(f) ==> s0.last().frame_id <= f < s0[0].frame_id,
            decreases n - i,
        {
            let input = inputs[i];
            proof {
                lemma_last_frame_bound(inputs@, n, i as int);
                assert(self.states@[0].frame_id == s0[0].frame_id);
                assert(self.states@[self.states@.len() - 1].frame_id == s0[s0.len() - 1].frame_id);
            }
            let ghost before = self.states@;
            let mut filled = false;
            match self.frame_id_to_frame_offset(input.frame_id) {
                Some(off) => {
                    let mut st = self.states.remove(off).unwrap();
                    let ghost pre = st;
                    if st.player_inputs.get(input.player_id) == Input::Idle {
                        filled = st.player_inputs.set(input.player_id, input.input);
                        proof {
                            assert forall|other: PlayerId| other != input.player_id implies #[trigger] st.player_inputs.spec_get(other)
                                == pre.player_inputs.spec_get(other) by {
                                assert(other.0 != input.player_id.0);
                            }
                        }
                    }
                    self.states.insert(off, st);
                    proof {
                        assert(self.states@ =~= before.update(off as int, st));
                        assert(s0[off as int].frame_id == input.frame_id);
                        assert(merged_state(before[off as int], s0[off as int], inputs@, i as nat));
                        lemma_merge_step(s0[off as int], inputs@, input.player_id, i as nat);
                        assert forall|k: int| 0 <= k < s0.len() implies merged_state(#[trigger] self.states@[k], s0[k], inputs@, (i + 1) as nat) by {
                            assert(merged_state(before[k], s0[k], inputs@, i as nat));
                            assert(s0[k].frame_id == s0[0].frame_id - k);
                            assert forall|id: PlayerId| #[trigger] self.states@[k].player_inputs.spec_get(id) == merged_input(s0[k], inputs@, id, (i + 1) as nat) by {
                                lemma_merge_step(s0[k], inputs@, id, i as nat);
                                assert(before[k].player_inputs.spec_get(id) == merged_input(s0[k], inputs@, id, i as nat));
                                if k == off as int && id == input.player_id {
                                } else if k == off as int {
                                    assert(id.0 != input.player_id.0);
                                }
                            }
                        }
                        assert(filled == fills_slot(s0, inputs@, i as int));
                    }
                },
                None => {
                    proof {
                        assert forall|k: int| 0 <= k < s0.len() implies merged_state(#[trigger] self.states@[k], s0[k], inputs@, (i + 1) as nat) by {
                            assert(merged_state(before[k], s0[k], inputs@, i as nat));
                            assert(s0[k].frame_id == s0[0].frame_id - k);
                            assert forall|id: PlayerId| #[trigger] self.states@[k].player_inputs.spec_get(id) == merged_input(s0[k], inputs@, id, (i + 1) as nat) by {
                                assert(before[k].player_inputs.spec_get(id) == merged_input(s0[k], inputs@, id, i as nat));
                            }
                        }
                        assert(!fills_slot(s0, inputs@, i as int));
                    }
                },
            }
            proof {
                lemma_resim_bounds(s0, inputs@, (i + 1) as nat);
            }
            if filled {
                let before_frame = input.frame_id - 1;
                match self.frame_id_to_frame_offset(before_frame) {
                    Some(_) => {
                        resim = Some(
                            match resim {
                                Some(p) => if before_frame < p {
                                    before_frame
                                } else {
                                    p
                                },
                                None => before_frame,
                            },
                        );
                    },
                    None => {},
                }
            }
            i += 1;
        }
        proof {
            law_resim_from_earliest(s0, inputs@, n);
        }
        let start = match resim {
            Some(f) => {
                proof {
                    assert(self.states@[0].frame_id == s0[0].frame_id);
                }
                match self.frame_id_to_frame_offset(f) {
                    Some(offset) => Some(offset),
                    None => None,
                }
            },
            None => None,
        };
        (true, start)
    }
}


/// Brings a resimulated state's players in line with the recorded state of the same frame:
/// players that joined in the meantime are added, and on a server players that left are
/// dropped.
pub fn reconcile_players(replacement: &mut GameState, recorded: &GameState, is_server: bool)
    ensures
        final(replacement).frame_id == old(replacement).frame_id,
        final(replacement).time_us == old(replacement).time_us,
        forall|id: PlayerId| #[trigger] final(replacement).player_states.spec_get(id) == if recorded.player_states.spec_contains(id) {
            if old(replacement).player_states.spec_contains(id) {
                old(replacement).player_states.spec_get(id)
            } else {
                recorded.player_states.spec_get(id)
            }
        } else if is_server {
            None
        } else {
            old(replacement).player_states.spec_get(id)
        },
{
    let mut i: usize = 0;
    while i < 256
        invariant
            i <= 256,
            replacement.frame_id == old(replacement).frame_id,
            replacement.time_us == old(replacement).time_us,
            forall|id: PlayerId| #[trigger] replacement.player_states.spec_get(id) == if (id.0 as int) < i {
                if recorded.player_states.spec_contains(id) {
                    if old(replacement).player_states.spec_contains(id) {
                        old(replacement).player_states.spec_get(id)
                    } else {
                        recorded.player_states.spec_get(id)
                    }
                } else if is_server {
                    None
                } else {
                    old(replacement).player_states.spec_get(id)
                }
            } else {
                old(replacement).player_states.spec_get(id)
            },
        decreases 256 - i,
    {
        let id = PlayerId(i as u8);
        match recorded.player_states.get(id) {
            Some(player_state) => {
                if !replacement.player_states.contains(id) {
                    replacement.player_states.set(id, *player_state);
                }
            },
            None => {
                if is_server && replacement.player_states.contains(id) {
                    replacement.remove_player(id);
                }
            },
        }
        proof {
            assert forall|other: PlayerId| (other.0 as int) == i implies other == id by {}
        }
        i += 1;
    }
}

} // verus!
