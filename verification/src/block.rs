use vstd::prelude::*;

use crate::colour::Colour;
use crate::machine::{ErrorReason, Operation};

verus! {

/// A maximal 4-connected region of same-coloured pixels, with the stable
/// id it was assigned in discovery order.
#[derive(Clone, Debug, PartialEq, Eq, Hash)]
pub struct Block {
    pub id: usize,
    pub colour: Colour,
    pub pixels: Vec<(u32, u32)>,
}

/// The hue step from `h1` to `h2` around the 6-cycle of hues.
pub open spec fn spec_hue_delta(h1: u8, h2: u8) -> int {
    (h2 - h1) % 6
}

/// The lightness step from `l1` to `l2` around the 3-cycle of lightnesses.
pub open spec fn spec_lightness_delta(l1: u8, l2: u8) -> int {
    (l2 - l1) % 3
}

/// The fixed 6x3 table mapping a (hue delta, lightness delta) pair to its
/// operation; `size` is the pixel count of the entered block, the operand
/// of Push.
pub open spec fn spec_op_table(dh: int, dl: int, size: int) -> Operation {
    if dh == 0 {
        if dl == 0 {
            Operation::NoOp
        } else if dl == 1 {
            Operation::Push(size as i64)
        } else {
            Operation::Pop
        }
    } else if dh == 1 {
        if dl == 0 {
            Operation::Add
        } else if dl == 1 {
            Operation::Subtract
        } else {
            Operation::Multiply
        }
    } else if dh == 2 {
        if dl == 0 {
            Operation::Divide
        } else if dl == 1 {
            Operation::Mod
        } else {
            Operation::Not
        }
    } else if dh == 3 {
        if dl == 0 {
            Operation::Greater
        } else if dl == 1 {
            Operation::Pointer
        } else {
            Operation::Switch
        }
    } else if dh == 4 {
        if dl == 0 {
            Operation::Duplicate
        } else if dl == 1 {
            Operation::Roll
        } else {
            Operation::InNum
        }
    } else {
        if dl == 0 {
            Operation::InChar
        } else if dl == 1 {
            Operation::OutNum
        } else {
            Operation::OutChar
        }
    }
}

/// The operation decoded from moving out of a block of colour `a` (with
/// `size` pixels) into a block of colour `b`. Entering a non-standard
/// colour is a program error; white on either side is transparent; black
/// never appears here because the automaton builder bounces off black
/// blocks.
pub open spec fn spec_delta(a: Colour, b: Colour, size: int) -> Operation {
    if a is Other || b is Other {
        Operation::Error(ErrorReason::NonStandardColour)
    } else if a is White || b is White {
        Operation::NoOp
    } else {
        spec_op_table(
            spec_hue_delta(a->Colour_hue, b->Colour_hue),
            spec_lightness_delta(a->Colour_lightness, b->Colour_lightness),
            size,
        )
    }
}

/// Law of the decoder: the hue and lightness deltas of any two palette
/// cells always land inside the 6x3 table, and the table maps every such
/// pair to a real operation, never an error marker.
pub proof fn lemma_decode_total(h1: u8, l1: u8, h2: u8, l2: u8, size: int)
    requires
        h1 < 6,
        l1 < 3,
        h2 < 6,
        l2 < 3,
    ensures
        0 <= spec_hue_delta(h1, h2) < 6,
        0 <= spec_lightness_delta(l1, l2) < 3,
        !(spec_op_table(spec_hue_delta(h1, h2), spec_lightness_delta(l1, l2), size) is Error),
{
}

impl Block {
    /// Structural soundness of a block: a classifiable colour, at least
    /// one pixel, and no pixel listed twice.
    pub open spec fn wf(self) -> bool {
        &&& self.colour.wf()
        &&& self.pixels@.len() >= 1
        &&& forall|i: int, j: int|
            0 <= i < j < self.pixels@.len() ==> self.pixels@[i] != self.pixels@[j]
    }

    /// Decodes the colour transition of a move out of `self` into `rhs`.
    pub fn delta(&self, rhs: &Block) -> (op: Operation)
        requires
            self.colour.wf(),
            rhs.colour.wf(),
            !self.colour.is_black(),
            !rhs.colour.is_black(),
            self.pixels@.len() <= i64::MAX,
        ensures
            op == spec_delta(self.colour, rhs.colour, self.pixels@.len() as int),
    {
        match (self.colour, rhs.colour) {
            (
                Colour::Colour { hue: h1, lightness: l1 },
                Colour::Colour { hue: h2, lightness: l2 },
            ) => {
                let dh: u8 = (h2 + 6 - h1) % 6;
                let dl: u8 = (l2 + 3 - l1) % 3;
                assert(dh == spec_hue_delta(h1, h2));
                assert(dl == spec_lightness_delta(l1, l2));
                match (dh, dl) {
                    (0, 0) => Operation::NoOp,
                    (0, 1) => Operation::Push(self.pixels.len() as i64),
                    (0, 2) => Operation::Pop,
                    (1, 0) => Operation::Add,
                    (1, 1) => Operation::Subtract,
                    (1, 2) => Operation::Multiply,
                    (2, 0) => Operation::Divide,
                    (2, 1) => Operation::Mod,
                    (2, 2) => Operation::Not,
                    (3, 0) => Operation::Greater,
                    (3, 1) => Operation::Pointer,
                    (3, 2) => Operation::Switch,
                    (4, 0) => Operation::Duplicate,
                    (4, 1) => Operation::Roll,
                    (4, 2) => Operation::InNum,
                    (5, 0) => Operation::InChar,
                    (5, 1) => Operation::OutNum,
                    (5, 2) => Operation::OutChar,
                    _ => vstd::pervasive::unreached(),
                }
            },
            (Colour::Other, _) | (_, Colour::Other) => Operation::Error(
                ErrorReason::NonStandardColour,
            ),
            (Colour::White, _) | (_, Colour::White) => Operation::NoOp,
            _ => vstd::pervasive::unreached(),
        }
    }
}

} // verus!
