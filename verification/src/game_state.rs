//! Game state having to do with attacks.

use vstd::prelude::*;

verus! {

/// The maximum REN, attacks at a greater REN will send the same as this.
pub const MAX_REN: u32 = 9;

/// Represents game state having to do with attacks.
#[derive(Copy, Clone, Debug, Eq, PartialEq, Ord, PartialOrd, Hash, Structural)]
pub struct GameState {
    pub sent: u32,
    pub ren: u32,
    pub b2b: bool,
}

/// The attack table configuration.
#[derive(Copy, Clone, Debug, Hash)]
pub struct AttackTable {
    pub single: u32,
    pub double: u32,
    pub triple: u32,
    pub quad: u32,
    pub spin_single: u32,
    pub spin_double: u32,
    pub spin_triple: u32,
    pub b2b: u32,
    pub ren: [u32; 10],
}

impl Default for GameState {
    fn default() -> (state: GameState)
        ensures
            state == (GameState { sent: 0, ren: 0, b2b: false }),
    {
        GameState { sent: 0, ren: 0, b2b: false }
    }
}

impl AttackTable {
    /// The standard attack table used by Botris Battle.
    pub fn standard() -> (atk: AttackTable)
        ensures
            atk.single == 0,
            atk.double == 1,
            atk.triple == 2,
            atk.quad == 4,
            atk.spin_single == 2,
            atk.spin_double == 4,
            atk.spin_triple == 6,
            atk.b2b == 1,
            atk.ren@ == seq![0u32, 0, 1, 1, 1, 2, 2, 3, 3, 4],
    {
        let atk = AttackTable {
            single: 0,
            double: 1,
            triple: 2,
            quad: 4,
            spin_single: 2,
            spin_double: 4,
            spin_triple: 6,
            b2b: 1,
            ren: [0, 0, 1, 1, 1, 2, 2, 3, 3, 4],
        };
        assert(atk.ren@ =~= seq![0u32, 0, 1, 1, 1, 2, 2, 3, 3, 4]);
        atk
    }

    /// Whether a clear is a difficult one: a spin, or more than three lines.
    pub open spec fn difficult(cleared: u8, spin: bool) -> bool {
        spin || cleared > 3
    }

    /// The attack that the table gives for the lines alone.
    pub open spec fn base(self, cleared: u8, spin: bool) -> int {
        if spin {
            if cleared == 1 {
                self.spin_single as int
            } else if cleared == 2 {
                self.spin_double as int
            } else {
                self.spin_triple as int
            }
        } else {
            if cleared == 1 {
                self.single as int
            } else if cleared == 2 {
                self.double as int
            } else if cleared == 3 {
                self.triple as int
            } else {
                self.quad as int
            }
        }
    }

    /// The attack that a clear sends: nothing without a cleared line; else
    /// what the table gives for the lines, for a difficult clear after a
    /// difficult clear, and for the clears in a row before this one.
    pub open spec fn attack(self, cleared: u8, spin: bool, b2b: bool, ren: u32) -> int {
        if cleared == 0 {
            0
        } else {
            self.base(cleared, spin) + (if Self::difficult(cleared, spin) && b2b {
                self.b2b as int
            } else {
                0
            }) + self.ren[ren as int]
        }
    }

    fn score(&self, cleared: u8, spin: bool, b2b: &mut bool, ren: &mut u32) -> (score: u32)
        requires
            *old(ren) <= MAX_REN,
            self.attack(cleared, spin, *old(b2b), *old(ren)) <= u32::MAX,
        ensures
            score == self.attack(cleared, spin, *old(b2b), *old(ren)),
            *final(b2b) == (if cleared == 0 {
                *old(b2b)
            } else {
                Self::difficult(cleared, spin)
            }),
            *final(ren) == (if cleared == 0 {
                0
            } else if *old(ren) < MAX_REN {
                (*old(ren) + 1) as u32
            } else {
                MAX_REN
            }),
    {
        if cleared == 0 {
            *ren = 0;
            return 0;
        }
        let mut score;
        let b2b_clear;
        if spin {
            if cleared == 1 {
                score = self.spin_single;
            } else if cleared == 2 {
                score = self.spin_double;
            } else {
                score = self.spin_triple;
            }
            b2b_clear = true;
        } else {
            if cleared == 1 {
                score = self.single;
            } else if cleared == 2 {
                score = self.double;
            } else if cleared == 3 {
                score = self.triple;
            } else {
                score = self.quad;
            }
            b2b_clear = cleared > 3;
        }
        if b2b_clear && *b2b {
            score += self.b2b;
        }
        score += self.ren[*ren as usize];
        *b2b = b2b_clear;
        *ren = if *ren + 1 < MAX_REN {
            *ren + 1
        } else {
            MAX_REN
        };
        score
    }
}

impl GameState {
    /// The state after a clear of `cleared` lines: what was sent grows by
    /// the attack of the clear, the clears in a row go up to [`MAX_REN`] or
    /// back to none, and a clear remembers whether it was a difficult one.
    pub open spec fn after(self, cleared: u8, spin: bool, atk: AttackTable) -> GameState {
        GameState {
            sent: (self.sent + atk.attack(cleared, spin, self.b2b, self.ren)) as u32,
            ren: if cleared == 0 {
                0
            } else if self.ren < MAX_REN {
                (self.ren + 1) as u32
            } else {
                MAX_REN
            },
            b2b: if cleared == 0 {
                self.b2b
            } else {
                AttackTable::difficult(cleared, spin)
            },
        }
    }

    /// The state before anything was sent.
    pub fn new() -> (state: GameState)
        ensures
            state == (GameState { sent: 0, ren: 0, b2b: false }),
    {
        GameState { sent: 0, ren: 0, b2b: false }
    }

    /// Process a line clear using the given attack table. If `spin` is true then this is
    /// recognized as an important spin, ie. tspin or allspin depending on ruleset.
    pub fn send(&mut self, cleared: u8, spin: bool, atk: &AttackTable)
        requires
            old(self).ren <= MAX_REN,
            old(self).sent + atk.attack(cleared, spin, old(self).b2b, old(self).ren) <= u32::MAX,
        ensures
            *final(self) == old(self).after(cleared, spin, *atk),
    {
        let mut b2b = self.b2b;
        let mut ren = self.ren;
        let score = atk.score(cleared, spin, &mut b2b, &mut ren);
        self.sent += score;
        self.b2b = b2b;
        self.ren = ren;
    }
}

} // verus!
