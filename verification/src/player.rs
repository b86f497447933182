use vstd::prelude::*;

verus! {

/// A player identity, distinguishable by its symbol alone.
#[derive(Clone, Copy, Debug, PartialEq, Eq, Hash, Structural)]
pub struct Player(char);

impl Player {
    pub fn new(symbol: char) -> (r: Self)
        ensures
            r.spec_symbol() == symbol,
    {
        Self(symbol)
    }

    pub closed spec fn spec_symbol(self) -> char {
        self.0
    }

    pub fn symbol(&self) -> (r: char)
        ensures
            r == self.spec_symbol(),
    {
        self.0
    }

    /// The fixed identity that a roster position is mapped to, if any:
    /// only the first three positions have one.
    pub fn from_index(value: u32) -> (r: Option<Player>)
        ensures
            value <= 2 ==> (r matches Some(p) && p.spec_symbol() == (if value == 0 {
                'X'
            } else if value == 1 {
                'O'
            } else {
                'F'
            })),
            value > 2 ==> r is None,
    {
        match value {
            0 => Some(Self('X')),
            1 => Some(Self('O')),
            2 => Some(Self('F')),
            _ => None,
        }
    }
}

} // verus!
