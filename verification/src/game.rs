use vstd::prelude::*;

verus! {

/// Width and height of the playing field in tiles.
pub const SCREEN_SIZE: i32 = 20;

#[derive(Debug, Copy, Clone, PartialEq, Eq, Structural, Hash)]
pub struct CoordPos {
    pub x: i32,
    pub y: i32,
}

#[derive(Debug, Copy, Clone, PartialEq, Eq, Structural)]
pub struct PlayerId(pub u8);

#[derive(Debug, Copy, Clone, PartialEq, Eq, Structural)]
pub struct LillipadId {
    pub id: u8,
    pub y: i32,
    pub round_id: u8,
}

/// Where a player stands: a tile of the grid, or a lillipad drifting on a river.
#[derive(Debug, Copy, Clone, PartialEq, Eq, Structural)]
pub enum Pos {
    Coord(CoordPos),
    Lillipad(LillipadId),
}

#[derive(Debug, Copy, Clone, PartialEq, Eq, Structural)]
pub enum Input {
    Idle,
    Up,
    Left,
    Right,
    Down,
}

/// The four directions a player can move in.
pub const ALL_INPUTS: [Input; 4] = [Input::Up, Input::Left, Input::Right, Input::Down];

impl Pos {
    pub fn new_coord(x: i32, y: i32) -> (r: Self)
        ensures
            r == Pos::Coord(CoordPos { x, y }),
    {
        Pos::Coord(CoordPos { x, y })
    }
}

impl Input {
    /// The opposite direction; `Idle` stays `Idle`.
    pub open spec fn spec_invert(self) -> Input {
        match self {
            Input::Up => Input::Down,
            Input::Down => Input::Up,
            Input::Left => Input::Right,
            Input::Right => Input::Left,
            Input::Idle => Input::Idle,
        }
    }

    pub fn invert(self) -> (r: Input)
        ensures
            r == self.spec_invert(),
    {
        match self {
            Input::Up => Input::Down,
            Input::Down => Input::Up,
            Input::Left => Input::Right,
            Input::Right => Input::Left,
            Input::Idle => Input::Idle,
        }
    }

    /// A direction at right angles: vertical moves give `Left`, horizontal ones `Up`.
    pub open spec fn spec_orthogonal(self) -> Input {
        match self {
            Input::Up | Input::Down => Input::Left,
            Input::Left | Input::Right => Input::Up,
            Input::Idle => Input::Idle,
        }
    }

    pub fn orthogonal(self) -> (r: Input)
        ensures
            r == self.spec_orthogonal(),
    {
        match self {
            Input::Up | Input::Down => Input::Left,
            Input::Left | Input::Right => Input::Up,
            Input::Idle => Input::Idle,
        }
    }
}

impl CoordPos {
    pub fn new(x: i32, y: i32) -> (r: Self)
        ensures
            r.x == x,
            r.y == y,
    {
        CoordPos { x, y }
    }

    /// The input can be applied without leaving the range of `i32`.
    pub open spec fn can_apply(self, input: Input) -> bool {
        match input {
            Input::Up => self.y > i32::MIN,
            Input::Down => self.y < i32::MAX,
            Input::Left => self.x > i32::MIN,
            Input::Right => self.x < i32::MAX,
            Input::Idle => true,
        }
    }

    /// The tile one step in the direction of `input`; up is towards smaller `y`.
    pub open spec fn spec_apply_input(self, input: Input) -> CoordPos {
        match input {
            Input::Up => CoordPos { x: self.x, y: (self.y - 1) as i32 },
            Input::Down => CoordPos { x: self.x, y: (self.y + 1) as i32 },
            Input::Left => CoordPos { x: (self.x - 1) as i32, y: self.y },
            Input::Right => CoordPos { x: (self.x + 1) as i32, y: self.y },
            Input::Idle => self,
        }
    }

    pub fn apply_input(&self, input: Input) -> (r: Self)
        requires
            self.can_apply(input),
        ensures
            r == self.spec_apply_input(input),
    {
        match input {
            Input::Up => CoordPos { x: self.x, y: self.y - 1 },
            Input::Down => CoordPos { x: self.x, y: self.y + 1 },
            Input::Left => CoordPos { x: self.x - 1, y: self.y },
            Input::Right => CoordPos { x: self.x + 1, y: self.y },
            _ => *self,
        }
    }
}

/// The input of every player for one frame, indexed by player id.
#[derive(Debug, Clone)]
pub struct PlayerInputs {
    pub inputs: Vec<Input>,
}

impl Default for PlayerInputs {
    fn default() -> (r: Self)
        ensures
            r.inputs@ == Seq::<Input>::empty(),
    {
        PlayerInputs { inputs: Vec::with_capacity(8) }
    }
}

impl PlayerInputs {
    /// The input recorded for `id`; players beyond the end have no input.
    pub open spec fn spec_get(self, id: PlayerId) -> Input {
        if (id.0 as int) < self.inputs@.len() {
            self.inputs@[id.0 as int]
        } else {
            Input::Idle
        }
    }

    pub fn new() -> (r: Self)
        ensures
            r.inputs@ == Seq::<Input>::empty(),
    {
        Self::default()
    }

    /// Records `input` for `id`, growing the list with `Idle` as needed, and says whether
    /// the recorded input changed.
    pub fn set(&mut self, id: PlayerId, input: Input) -> (changed: bool)
        ensures
            changed == (old(self).spec_get(id) != input),
            final(self).inputs@.len() == if (id.0 as int) < old(self).inputs@.len() {
                old(self).inputs@.len() as int
            } else {
                id.0 + 1
            },
            final(self).inputs@[id.0 as int] == input,
            forall|j: int|
                0 <= j < final(self).inputs@.len() && j != id.0 ==> final(self).inputs@[j]
                    == (if j < old(self).inputs@.len() {
                    old(self).inputs@[j]
                } else {
                    Input::Idle
                }),
    {
        let index = id.0 as usize;
        let ghost old_inputs = self.inputs@;
        while index >= self.inputs.len()
            invariant
                old_inputs.len() <= self.inputs@.len() <= (if (index as int) < old_inputs.len() {
                    old_inputs.len() as int
                } else {
                    index + 1
                }),
                forall|j: int| 0 <= j < old_inputs.len() ==> self.inputs@[j] == old_inputs[j],
                forall|j: int| old_inputs.len() <= j < self.inputs@.len() ==> self.inputs@[j] == Input::Idle,
            decreases index + 1 - self.inputs.len(),
        {
            self.inputs.push(Input::Idle);
        }
        let changed = self.inputs[index] != input;
        self.inputs.set(index, input);
        changed
    }

    pub fn get(&self, id: PlayerId) -> (r: Input)
        ensures
            r == self.spec_get(id),
    {
        let index = id.0 as usize;
        if index < self.inputs.len() {
            self.inputs[index]
        } else {
            Input::Idle
        }
    }

    pub fn player_count(&self) -> (r: usize)
        ensures
            r == self.inputs@.len(),
    {
        self.inputs.len()
    }
}


/// A log that a player can ride.
#[derive(Debug, Copy, Clone, PartialEq, Eq, Structural)]
pub struct LogId(pub u32);

/// The inputs of one frame, one per player id.
#[derive(Debug)]
pub struct SimulationInput {
    pub inputs: Vec<Input>,
}

impl SimulationInput {
    pub fn get_player_input(&self, id: PlayerId) -> (r: Input)
        requires
            (id.0 as int) < self.inputs@.len(),
        ensures
            r == self.inputs@[id.0 as int],
    {
        self.inputs[id.0 as usize]
    }
}


/// Inverting a direction twice gives it back.
pub proof fn law_invert_involution(d: Input)
    ensures
        d.spec_invert().spec_invert() == d,
{
}

/// A step followed by a step the opposite way comes back to the start.
pub proof fn law_apply_then_back(p: CoordPos, d: Input)
    requires
        p.can_apply(d),
    ensures
        p.spec_apply_input(d).can_apply(d.spec_invert()),
        p.spec_apply_input(d).spec_apply_input(d.spec_invert()) == p,
{
}

/// The orthogonal of a direction is a direction at right angles: neither it nor its opposite.
pub proof fn law_orthogonal_is_perpendicular(d: Input)
    requires
        d != Input::Idle,
    ensures
        d.spec_orthogonal() != Input::Idle,
        d.spec_orthogonal() != d,
        d.spec_orthogonal() != d.spec_invert(),
{
}

} // verus!
