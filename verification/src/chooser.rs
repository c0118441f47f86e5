use vstd::prelude::*;

verus! {

/// Secondary pointer selecting between the two candidate exit pixels when
/// the direction of travel alone is ambiguous.
#[derive(Clone, Copy, Debug, PartialEq, Eq, Structural, Hash)]
pub enum Chooser {
    Left,
    Right,
}

impl Chooser {
    /// The opposite chooser.
    pub open spec fn spec_flip(self) -> Chooser {
        match self {
            Chooser::Left => Chooser::Right,
            Chooser::Right => Chooser::Left,
        }
    }

    pub fn flip(&self) -> (c: Chooser)
        ensures
            c == self.spec_flip(),
    {
        match self {
            Chooser::Left => Chooser::Right,
            Chooser::Right => Chooser::Left,
        }
    }
}

} // verus!
