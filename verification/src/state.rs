//! Book-keeping of line clears along a sequence of placements.

use vstd::prelude::*;

verus! {

/// What the line clears so far amount to: how many there were of each kind,
/// and whether the last one was a difficult one (a quad or a spin), so that
/// another difficult one counts as back-to-back.
#[derive(Copy, Clone, Debug, Eq, PartialEq, Structural)]
pub struct State {
    pub b2b: bool,
    pub b2b_clears: u8,
    pub single_clears: u8,
    pub double_clears: u8,
    pub triple_clears: u8,
    pub quad_clears: u8,
    pub spin_single_clears: u8,
    pub spin_double_clears: u8,
    pub spin_triple_clears: u8,
}

impl Default for State {
    fn default() -> (state: State)
        ensures
            state == State::spec_new(false),
    {
        State::new(false)
    }
}

impl State {
    /// The state before any line clear.
    pub open spec fn spec_new(b2b: bool) -> State {
        State {
            b2b,
            b2b_clears: 0,
            single_clears: 0,
            double_clears: 0,
            triple_clears: 0,
            quad_clears: 0,
            spin_single_clears: 0,
            spin_double_clears: 0,
            spin_triple_clears: 0,
        }
    }

    /// The number of line clears counted, of all kinds together.
    pub open spec fn clears(self) -> int {
        self.single_clears + self.double_clears + self.triple_clears + self.quad_clears
            + self.spin_single_clears + self.spin_double_clears + self.spin_triple_clears
    }

    /// Whether every counter of `self` is at most the counter of `other`.
    pub open spec fn le(self, other: State) -> bool {
        &&& self.b2b_clears <= other.b2b_clears
        &&& self.single_clears <= other.single_clears
        &&& self.double_clears <= other.double_clears
        &&& self.triple_clears <= other.triple_clears
        &&& self.quad_clears <= other.quad_clears
        &&& self.spin_single_clears <= other.spin_single_clears
        &&& self.spin_double_clears <= other.spin_double_clears
        &&& self.spin_triple_clears <= other.spin_triple_clears
    }

    /// Whether a placement that clears `cleared` lines can be counted: the
    /// counters that it raises are below the greatest `u8`.
    pub open spec fn can_count(self, cleared: u8, is_spin: bool) -> bool {
        let after = self.counted(cleared, is_spin);
        &&& after.0 <= u8::MAX
        &&& after.1 <= u8::MAX
    }

    /// The counter of the kind of a clear of `cleared` lines, and the
    /// counter of back-to-back clears, as they are after that clear.
    pub open spec fn counted(self, cleared: u8, is_spin: bool) -> (int, int) {
        let kind = if cleared == 0 {
            0
        } else if is_spin {
            if cleared == 3 || cleared == 4 {
                self.spin_triple_clears + 1
            } else if cleared == 2 {
                self.spin_double_clears + 1
            } else {
                self.spin_single_clears + 1
            }
        } else {
            if cleared == 4 {
                self.quad_clears + 1
            } else if cleared == 3 {
                self.triple_clears + 1
            } else if cleared == 2 {
                self.double_clears + 1
            } else {
                self.single_clears + 1
            }
        };
        let b2b = if cleared != 0 && (is_spin || cleared >= 4) && self.b2b {
            self.b2b_clears + 1
        } else {
            self.b2b_clears as int
        };
        (kind, b2b)
    }

    /// The state after a placement that cleared `cleared` lines and was a
    /// spin or not. Without a line clear nothing changes. Else the counter of
    /// the kind of clear goes up by one: a spin that clears more than three
    /// lines counts as a spin triple, and a clear of no listed size as a
    /// single. A spin or a clear of four lines or more is difficult: it
    /// counts as back-to-back if the last clear was difficult too.
    pub open spec fn spec_next(self, cleared: u8, is_spin: bool) -> State {
        if cleared == 0 {
            self
        } else {
            let kind = self.counted(cleared, is_spin).0 as u8;
            let b2b_clears = self.counted(cleared, is_spin).1 as u8;
            let b2b = is_spin || cleared >= 4;
            if is_spin {
                if cleared == 3 || cleared == 4 {
                    State { b2b, b2b_clears, spin_triple_clears: kind, ..self }
                } else if cleared == 2 {
                    State { b2b, b2b_clears, spin_double_clears: kind, ..self }
                } else {
                    State { b2b, b2b_clears, spin_single_clears: kind, ..self }
                }
            } else {
                if cleared == 4 {
                    State { b2b, b2b_clears, quad_clears: kind, ..self }
                } else if cleared == 3 {
                    State { b2b, b2b_clears, triple_clears: kind, ..self }
                } else if cleared == 2 {
                    State { b2b, b2b_clears, double_clears: kind, ..self }
                } else {
                    State { b2b, b2b_clears, single_clears: kind, ..self }
                }
            }
        }
    }

    /// The state before any line clear, with the given back-to-back flag.
    pub fn new(b2b: bool) -> (state: State)
        ensures
            state == State::spec_new(b2b),
    {
        State {
            b2b,
            b2b_clears: 0,
            single_clears: 0,
            double_clears: 0,
            triple_clears: 0,
            quad_clears: 0,
            spin_single_clears: 0,
            spin_double_clears: 0,
            spin_triple_clears: 0,
        }
    }

    /// The state after a placement that cleared `cleared` lines.
    pub fn next(self, cleared: u8, is_spin: bool) -> (state: State)
        requires
            self.can_count(cleared, is_spin),
        ensures
            state == self.spec_next(cleared, is_spin),
            self.le(state),
    {
        let mut state = self;
        if cleared == 0 {
            return state;
        }
        let b2b_clear;
        if is_spin {
            b2b_clear = true;
            if cleared == 3 || cleared == 4 {
                state.spin_triple_clears += 1;
            } else if cleared == 2 {
                state.spin_double_clears += 1;
            } else {
                state.spin_single_clears += 1;
            }
        } else {
            b2b_clear = cleared >= 4;
            if cleared == 4 {
                state.quad_clears += 1;
            } else if cleared == 3 {
                state.triple_clears += 1;
            } else if cleared == 2 {
                state.double_clears += 1;
            } else {
                state.single_clears += 1;
            }
        }
        if b2b_clear && state.b2b {
            state.b2b_clears += 1;
        }
        state.b2b = b2b_clear;
        state
    }
}

/// No counter goes down from one state to the next, whatever the placement.
pub proof fn lemma_next_monotone(state: State, cleared: u8, is_spin: bool)
    requires
        state.can_count(cleared, is_spin),
    ensures
        state.le(state.spec_next(cleared, is_spin)),
{
}

/// A placement raises the number of clears counted and the number of
/// back-to-back clears by one at most.
pub proof fn lemma_next_counts(state: State, cleared: u8, is_spin: bool)
    requires
        state.can_count(cleared, is_spin),
    ensures
        state.clears() <= state.spec_next(cleared, is_spin).clears() <= state.clears() + 1,
        state.spec_next(cleared, is_spin).b2b_clears <= state.b2b_clears + 1,
{
}

/// A state that has counted fewer than 255 clears of each sort can count
/// one more.
pub proof fn lemma_can_count(state: State, cleared: u8, is_spin: bool)
    requires
        state.clears() < u8::MAX,
        state.b2b_clears < u8::MAX,
    ensures
        state.can_count(cleared, is_spin),
{
}

} // verus!
