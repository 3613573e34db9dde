//! Player inputs, shift directions, rotation states and turns.

use core::ops::Add;
use vstd::prelude::*;
use vstd::std_specs::convert::FromSpecImpl;
use vstd::std_specs::ops::AddSpecImpl;

verus! {

/// One input a player can give to the falling piece.
#[derive(Copy, Clone, Debug, Eq, PartialEq, Hash, Structural)]
pub enum Input {
    Left,
    Right,
    Cw,
    Ccw,
    SonicDrop,
}

/// Horizontal direction of a shift.
#[derive(Copy, Clone, Debug, Eq, PartialEq, Hash, Structural)]
pub enum Dir {
    Left,
    Right,
}

impl Dir {
    /// The input that asks for a shift in this direction.
    pub open spec fn input(self) -> Input {
        match self {
            Dir::Left => Input::Left,
            Dir::Right => Input::Right,
        }
    }

    /// The horizontal offset of one shift in this direction.
    pub open spec fn dx(self) -> int {
        match self {
            Dir::Left => -1,
            Dir::Right => 1,
        }
    }
}

impl From<Dir> for i8 {
    fn from(d: Dir) -> (dx: i8) {
        match d {
            Dir::Left => -1,
            Dir::Right => 1,
        }
    }
}

impl FromSpecImpl<Dir> for i8 {
    open spec fn obeys_from_spec() -> bool {
        true
    }

    open spec fn from_spec(d: Dir) -> i8 {
        d.dx() as i8
    }
}

impl Add<Dir> for i8 {
    type Output = i8;

    fn add(self, rhs: Dir) -> (sum: i8) {
        match rhs {
            Dir::Left => self - 1,
            Dir::Right => self + 1,
        }
    }
}

impl AddSpecImpl<Dir> for i8 {
    open spec fn obeys_add_spec() -> bool {
        true
    }

    open spec fn add_req(self, rhs: Dir) -> bool {
        i8::MIN <= self + rhs.dx() <= i8::MAX
    }

    open spec fn add_spec(self, rhs: Dir) -> i8 {
        (self + rhs.dx()) as i8
    }
}

impl From<Dir> for Input {
    fn from(d: Dir) -> (input: Input) {
        match d {
            Dir::Left => Input::Left,
            Dir::Right => Input::Right,
        }
    }
}

impl FromSpecImpl<Dir> for Input {
    open spec fn obeys_from_spec() -> bool {
        true
    }

    open spec fn from_spec(d: Dir) -> Input {
        d.input()
    }
}

/// Represents the rotation state of a shape.
#[derive(Copy, Clone, Debug, Eq, PartialEq, Ord, PartialOrd, Hash, Structural)]
pub enum Rot {
    /// Initial orientation.
    N,
    /// One CW rotation.
    E,
    /// Two rotations in either direction.
    S,
    /// One CCW rotation, or three CW rotations.
    W,
}

impl Rot {
    /// The number of clockwise quarter turns from the initial orientation.
    pub open spec fn index(self) -> int {
        match self {
            Rot::N => 0,
            Rot::E => 1,
            Rot::S => 2,
            Rot::W => 3,
        }
    }

    /// The rotation state reached after `n` clockwise quarter turns from the
    /// initial orientation.
    pub open spec fn from_index(n: int) -> Rot {
        let k = n % 4;
        if k == 0 {
            Rot::N
        } else if k == 1 {
            Rot::E
        } else if k == 2 {
            Rot::S
        } else {
            Rot::W
        }
    }

    /// The rotation state after one turn.
    pub open spec fn turned(self, t: Turn) -> Rot {
        Rot::from_index(self.index() + t.quarters())
    }
}

impl Default for Rot {
    fn default() -> (r: Rot)
        ensures
            r == Rot::N,
    {
        Rot::N
    }
}

impl From<u8> for Rot {
    fn from(v: u8) -> (r: Rot) {
        let k: u8 = v & 3;
        assert(v & 3 == v % 4) by (bit_vector);
        if k == 0 {
            Rot::N
        } else if k == 1 {
            Rot::E
        } else if k == 2 {
            Rot::S
        } else {
            Rot::W
        }
    }
}

impl FromSpecImpl<u8> for Rot {
    open spec fn obeys_from_spec() -> bool {
        true
    }

    open spec fn from_spec(v: u8) -> Rot {
        Rot::from_index(v as int)
    }
}

impl From<Rot> for u8 {
    fn from(r: Rot) -> (v: u8) {
        match r {
            Rot::N => 0,
            Rot::E => 1,
            Rot::S => 2,
            Rot::W => 3,
        }
    }
}

impl FromSpecImpl<Rot> for u8 {
    open spec fn obeys_from_spec() -> bool {
        true
    }

    open spec fn from_spec(r: Rot) -> u8 {
        r.index() as u8
    }
}

/// A quarter turn of the falling piece.
#[derive(Copy, Clone, Debug, Eq, PartialEq, Structural)]
pub enum Turn {
    Cw,
    Ccw,
}

impl Turn {
    /// The input that asks for this turn.
    pub open spec fn input(self) -> Input {
        match self {
            Turn::Cw => Input::Cw,
            Turn::Ccw => Input::Ccw,
        }
    }

    /// The number of clockwise quarter turns that this turn amounts to.
    pub open spec fn quarters(self) -> int {
        match self {
            Turn::Cw => 1,
            Turn::Ccw => 3,
        }
    }

    /// The turn that undoes this one.
    pub open spec fn inverse(self) -> Turn {
        match self {
            Turn::Cw => Turn::Ccw,
            Turn::Ccw => Turn::Cw,
        }
    }
}

impl Add<Turn> for Rot {
    type Output = Rot;

    fn add(self, t: Turn) -> (r: Rot) {
        match (self, t) {
            (Rot::N, Turn::Cw) => Rot::E,
            (Rot::E, Turn::Cw) => Rot::S,
            (Rot::S, Turn::Cw) => Rot::W,
            (Rot::W, Turn::Cw) => Rot::N,
            (Rot::N, Turn::Ccw) => Rot::W,
            (Rot::E, Turn::Ccw) => Rot::N,
            (Rot::S, Turn::Ccw) => Rot::E,
            (Rot::W, Turn::Ccw) => Rot::S,
        }
    }
}

impl AddSpecImpl<Turn> for Rot {
    open spec fn obeys_add_spec() -> bool {
        true
    }

    open spec fn add_req(self, t: Turn) -> bool {
        true
    }

    open spec fn add_spec(self, t: Turn) -> Rot {
        self.turned(t)
    }
}

impl From<Turn> for Input {
    fn from(t: Turn) -> (input: Input) {
        match t {
            Turn::Cw => Input::Cw,
            Turn::Ccw => Input::Ccw,
        }
    }
}

impl FromSpecImpl<Turn> for Input {
    open spec fn obeys_from_spec() -> bool {
        true
    }

    open spec fn from_spec(t: Turn) -> Input {
        t.input()
    }
}

/// A turn followed by its inverse restores the rotation state.
pub proof fn lemma_turn_inverse(r: Rot, t: Turn)
    ensures
        r.turned(t).turned(t.inverse()) == r,
{
}

} // verus!
