use vstd::prelude::*;

verus! {

/// Energy value of a fully alive cell.
pub const ALIVE_STATE: u8 = 255;

/// Energy a cell loses in one aging step.
pub const AGING_DECREMENT: u8 = 17;

/// One grid unit: a position, fixed after creation, and an energy byte.
/// State 255 means alive, 0 fully dead, and anything in between is
/// residual energy left behind by aging.
#[derive(Debug, Clone, Copy, PartialEq, Eq, Structural)]
pub struct Cell {
    pub x: u16,
    pub y: u16,
    pub state: u8,
}

/// Energy left after one aging step: `AGING_DECREMENT` less, clamped at 0
/// so that a nearly dead cell never wraps around.
pub open spec fn spec_aged(s: u8) -> u8 {
    if s >= AGING_DECREMENT {
        (s - AGING_DECREMENT) as u8
    } else {
        0
    }
}

/// Energy left after `n` aging steps.
pub open spec fn spec_aged_n(s: u8, n: nat) -> u8
    decreases n,
{
    if n == 0 {
        s
    } else {
        spec_aged(spec_aged_n(s, (n - 1) as nat))
    }
}

impl Cell {
    pub fn new(x: u16, y: u16, state: u8) -> (c: Cell)
        ensures
            c == (Cell { x, y, state }),
    {
        Cell { x, y, state }
    }

    pub fn get_state(&self) -> (s: u8)
        ensures
            s == self.state,
    {
        self.state
    }

    pub fn set_state(&mut self, state: u8)
        ensures
            *final(self) == (Cell { state, ..*old(self) }),
    {
        self.state = state;
    }

    /// Sets the cell to the fully alive state.
    pub fn revive(&mut self)
        ensures
            *final(self) == (Cell { state: ALIVE_STATE, ..*old(self) }),
    {
        self.state = ALIVE_STATE;
    }

    /// Sets the cell to the fully dead state.
    pub fn kill(&mut self)
        ensures
            *final(self) == (Cell { state: 0u8, ..*old(self) }),
    {
        self.state = 0;
    }

    /// One aging step: a cell with any energy left loses `AGING_DECREMENT`,
    /// clamped at 0; a fully dead cell is untouched.
    pub fn age(&mut self)
        ensures
            *final(self) == (Cell { state: spec_aged(old(self).state), ..*old(self) }),
    {
        if self.get_state() > 0 {
            if self.get_state() >= AGING_DECREMENT {
                let s = self.get_state() - AGING_DECREMENT;
                self.set_state(s);
            } else {
                self.set_state(0);
            }
        }
    }

    /// A cell is alive exactly when its state is `ALIVE_STATE`.
    pub fn is_alive(&self) -> (r: bool)
        ensures
            r == (self.state == ALIVE_STATE),
    {
        self.state == ALIVE_STATE
    }
}

/// Law: aging repeatedly from the fully alive state 255 passes through the
/// values `255 - 17 * n` and reaches exactly 0 at the fifteenth step,
/// never underflowing.
pub proof fn lemma_aging_from_alive(n: nat)
    requires
        1 <= n <= 15,
    ensures
        spec_aged_n(ALIVE_STATE, n) as int == 255 - 17 * n,
        n == 15 ==> spec_aged_n(ALIVE_STATE, n) == 0,
    decreases n,
{
    if n == 1 {
        assert(spec_aged_n(ALIVE_STATE, 1) == spec_aged(spec_aged_n(ALIVE_STATE, 0)));
        assert(spec_aged_n(ALIVE_STATE, 0) == ALIVE_STATE);
    } else {
        lemma_aging_from_alive((n - 1) as nat);
        assert(spec_aged_n(ALIVE_STATE, n) == spec_aged(spec_aged_n(ALIVE_STATE, (n - 1) as nat)));
    }
}

} // verus!
