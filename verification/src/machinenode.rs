use vstd::prelude::*;

use crate::block::{spec_delta, Block};
use crate::chooser::Chooser;
use crate::direction::Direction;
use crate::machine::Operation;

verus! {

/// A pointer state of the automaton: the block the pointer rests in, its
/// direction of travel, its codel chooser, and the transient `flipped`
/// marker used while the bounce protocol cycles through exit attempts.
#[derive(Clone, Copy, Debug, PartialEq, Eq, Structural, Hash)]
pub struct MachineNode {
    pub block: usize,
    pub direction: Direction,
    pub chooser: Chooser,
    pub flipped: bool,
}

/// The fixed 16-way enumeration of (direction, chooser, flipped) triples
/// that gives each pointer state of a block its stable rank.
pub open spec fn spec_node_index(d: Direction, c: Chooser, f: bool) -> int {
    let di: int = match d {
        Direction::Up => 0,
        Direction::Down => 1,
        Direction::Left => 2,
        Direction::Right => 3,
    };
    let ci: int = match c {
        Chooser::Left => 0,
        Chooser::Right => 1,
    };
    di * 4 + ci * 2 + if f {
        1int
    } else {
        0int
    }
}

impl MachineNode {
    /// One application of the bounce rule: a not-yet-flipped state toggles
    /// its chooser and flips; a flipped state rotates its direction a
    /// quarter turn clockwise and unflips.
    pub open spec fn spec_redirect(self) -> MachineNode {
        if self.flipped {
            MachineNode {
                block: self.block,
                direction: self.direction.spec_clockwise(),
                chooser: self.chooser,
                flipped: false,
            }
        } else {
            MachineNode {
                block: self.block,
                direction: self.direction,
                chooser: self.chooser.spec_flip(),
                flipped: true,
            }
        }
    }

    pub fn redirect(&self) -> (n: MachineNode)
        ensures
            n == self.spec_redirect(),
    {
        if self.flipped {
            MachineNode {
                block: self.block,
                direction: self.direction.clockwise(),
                chooser: self.chooser,
                flipped: false,
            }
        } else {
            MachineNode {
                block: self.block,
                direction: self.direction,
                chooser: self.chooser.flip(),
                flipped: true,
            }
        }
    }

    /// The root pointer state: block 0, entered as if having just moved
    /// rightward, with the Left chooser and no bounce in progress.
    pub open spec fn spec_is_root(self) -> bool {
        self.block == 0 && self.direction is Right && self.chooser is Left && !self.flipped
    }

    pub fn is_root(&self) -> (r: bool)
        ensures
            r == self.spec_is_root(),
    {
        self.block == 0 && matches!(self.direction, Direction::Right)
            && matches!(self.chooser, Chooser::Left) && !self.flipped
    }

    /// The canonical numeric identity of a pointer state.
    pub open spec fn spec_identifier(self) -> int {
        self.block * 16 + spec_node_index(self.direction, self.chooser, self.flipped)
    }

    pub fn identifier(&self) -> (id: u64)
        requires
            self.block * 16 + 15 <= u64::MAX,
        ensures
            id == self.spec_identifier(),
    {
        let extra: u64 = match (self.direction, self.chooser, self.flipped) {
            (Direction::Up, Chooser::Left, false) => 0,
            (Direction::Up, Chooser::Left, true) => 1,
            (Direction::Up, Chooser::Right, false) => 2,
            (Direction::Up, Chooser::Right, true) => 3,
            (Direction::Down, Chooser::Left, false) => 4,
            (Direction::Down, Chooser::Left, true) => 5,
            (Direction::Down, Chooser::Right, false) => 6,
            (Direction::Down, Chooser::Right, true) => 7,
            (Direction::Left, Chooser::Left, false) => 8,
            (Direction::Left, Chooser::Left, true) => 9,
            (Direction::Left, Chooser::Right, false) => 10,
            (Direction::Left, Chooser::Right, true) => 11,
            (Direction::Right, Chooser::Left, false) => 12,
            (Direction::Right, Chooser::Left, true) => 13,
            (Direction::Right, Chooser::Right, false) => 14,
            (Direction::Right, Chooser::Right, true) => 15,
        };
        (self.block as u64) * 16 + extra
    }

    /// Flattens one transition: the numeric identities of the two states
    /// and the operation their blocks' colour delta decodes to.
    pub fn delta(&self, rhs: &MachineNode, sb: &Block, rb: &Block) -> (r: (u64, (u64, Operation)))
        requires
            sb.id == self.block,
            rb.id == rhs.block,
            sb.colour.wf(),
            rb.colour.wf(),
            !sb.colour.is_black(),
            !rb.colour.is_black(),
            sb.pixels@.len() <= i64::MAX,
            self.block * 16 + 15 <= u64::MAX,
            rhs.block * 16 + 15 <= u64::MAX,
        ensures
            r.0 == self.spec_identifier(),
            r.1.0 == rhs.spec_identifier(),
            r.1.1 == spec_delta(sb.colour, rb.colour, sb.pixels@.len() as int),
    {
        (self.identifier(), (rhs.identifier(), sb.delta(rb)))
    }
}

/// The 16-way enumeration never leaves its range.
pub proof fn lemma_node_index_range(d: Direction, c: Chooser, f: bool)
    ensures
        0 <= spec_node_index(d, c, f) < 16,
{
}

/// The inverse of the 16-way enumeration: the (direction, chooser,
/// flipped) triple at a given rank.
pub open spec fn spec_index_parts(i: int) -> (Direction, Chooser, bool) {
    let d = if i / 4 == 0 {
        Direction::Up
    } else if i / 4 == 1 {
        Direction::Down
    } else if i / 4 == 2 {
        Direction::Left
    } else {
        Direction::Right
    };
    let c = if (i / 2) % 2 == 0 {
        Chooser::Left
    } else {
        Chooser::Right
    };
    (d, c, i % 2 == 1)
}

/// Ranks below 16 decompose and recompose exactly.
pub proof fn lemma_index_parts_inverse(i: int)
    requires
        0 <= i < 16,
    ensures
        spec_node_index(spec_index_parts(i).0, spec_index_parts(i).1, spec_index_parts(i).2) == i,
{
}

/// Decomposes a rank below 16 into its (direction, chooser, flipped)
/// triple.
pub fn index_parts(i: usize) -> (r: (Direction, Chooser, bool))
    requires
        i < 16,
    ensures
        r == spec_index_parts(i as int),
        spec_node_index(r.0, r.1, r.2) == i,
{
    let d = match i / 4 {
        0 => Direction::Up,
        1 => Direction::Down,
        2 => Direction::Left,
        _ => Direction::Right,
    };
    let c = if (i / 2) % 2 == 0 {
        Chooser::Left
    } else {
        Chooser::Right
    };
    let f = i % 2 == 1;
    proof {
        lemma_index_parts_inverse(i as int);
    }
    (d, c, f)
}

/// `k` applications of the bounce rule.
pub open spec fn spec_redirect_n(n: MachineNode, k: nat) -> MachineNode
    decreases k,
{
    if k == 0 {
        n
    } else {
        spec_redirect_n(n, (k - 1) as nat).spec_redirect()
    }
}

/// Whether the first eight bounce iterates of `n` include a state travelling
/// in direction `d` with chooser `c`.
pub open spec fn bounce_visits(n: MachineNode, d: Direction, c: Chooser) -> bool {
    exists|i: nat|
        i < 8 && (#[trigger] spec_redirect_n(n, i)).direction == d && spec_redirect_n(n, i).chooser
            == c
}

/// Law of the bounce protocol: from any pointer state, repeated bounces
/// return to that state after exactly eight applications, and the eight
/// states visited on the way cover all four directions with both choosers.
pub proof fn lemma_bounce_cycle(n: MachineNode)
    ensures
        spec_redirect_n(n, 8) == n,
        forall|k: nat| 1 <= k < 8 ==> spec_redirect_n(n, k) != n,
        forall|d: Direction, c: Chooser| #[trigger] bounce_visits(n, d, c),
{
    reveal_with_fuel(spec_redirect_n, 9);
    assert(spec_redirect_n(n, 8) == n);
    assert forall|k: nat| 1 <= k < 8 implies spec_redirect_n(n, k) != n by {
        if k == 1 {
        } else if k == 2 {
        } else if k == 3 {
        } else if k == 4 {
        } else if k == 5 {
        } else if k == 6 {
        } else {
            assert(k == 7);
        }
    }
    assert forall|d: Direction, c: Chooser| #[trigger] bounce_visits(n, d, c) by {
        assert(spec_redirect_n(n, 0) == n);
        assert(spec_redirect_n(n, 1) == spec_redirect_n(n, 0).spec_redirect());
        assert(spec_redirect_n(n, 2) == spec_redirect_n(n, 1).spec_redirect());
        assert(spec_redirect_n(n, 3) == spec_redirect_n(n, 2).spec_redirect());
        assert(spec_redirect_n(n, 4) == spec_redirect_n(n, 3).spec_redirect());
        assert(spec_redirect_n(n, 5) == spec_redirect_n(n, 4).spec_redirect());
        assert(spec_redirect_n(n, 6) == spec_redirect_n(n, 5).spec_redirect());
        assert(spec_redirect_n(n, 7) == spec_redirect_n(n, 6).spec_redirect());
    }
}

} // verus!
