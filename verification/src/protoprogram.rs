use vstd::prelude::*;

use std::collections::HashMap;

use crate::block::{spec_delta, Block};
use crate::chooser::Chooser;
use crate::direction::Direction;
use crate::machine::{Operation, Program};
use crate::machinenode::{lemma_node_index_range, spec_node_index, MachineNode};

verus! {

broadcast use vstd::std_specs::hash::group_hash_axioms;

/// The raw pointer automaton: the blocks of the image, and for each pointer
/// state (indexed by its canonical numeric identity) the successor the
/// bounce protocol assigns, or nothing where the state has been pruned or
/// belongs to a black block.
pub struct ProtoProgram {
    pub blocks: Vec<Block>,
    pub next: Vec<Option<MachineNode>>,
}

/// The numeric identity of the root pointer state: block 0, travelling
/// Right with the Left chooser, not flipped.
pub open spec fn spec_root_id() -> int {
    spec_node_index(Direction::Right, Chooser::Left, false)
}

/// Soundness of a transition table on its own: every recorded successor
/// points at an existing state.
pub open spec fn next_wf(next: Seq<Option<MachineNode>>) -> bool {
    forall|j: int|
        0 <= j < next.len() ==> (#[trigger] next[j] matches Some(m) ==> 16 * m.block + 15
            < next.len())
}

impl ProtoProgram {
    /// Structural soundness: ids match positions, one table slot for each
    /// of a block's 16 pointer states, and every recorded transition joins
    /// two in-range, non-black blocks.
    pub open spec fn wf(self) -> bool {
        &&& forall|i: int|
            0 <= i < self.blocks@.len() ==> (#[trigger] self.blocks@[i]).id == i
                && self.blocks@[i].wf() && self.blocks@[i].pixels@.len() <= i64::MAX
        &&& self.next@.len() == 16 * self.blocks@.len()
        &&& forall|j: int|
            0 <= j < self.next@.len() ==> (#[trigger] self.next@[j] matches Some(m) ==> m.block
                < self.blocks@.len() && !self.blocks@[m.block as int].colour.is_black()
                && !self.blocks@[j / 16].colour.is_black())
    }
}

/// Follows a chain of same-block transitions from `m` through `next` until
/// it first leaves block `b`; a chain that dies out or fails to leave the
/// block within its 16 possible states is a stuck bounce cycle and yields
/// nothing, so that execution halts there.
pub open spec fn spec_chase(
    next: Seq<Option<MachineNode>>,
    b: int,
    m: MachineNode,
    fuel: nat,
) -> Option<MachineNode>
    decreases fuel,
{
    if m.block != b {
        Some(m)
    } else if fuel == 0 {
        None
    } else {
        match next[m.spec_identifier()] {
            None => None,
            Some(m2) => spec_chase(next, b, m2, (fuel - 1) as nat),
        }
    }
}

/// One slot of the no-advance collapse: a transition that stays inside its
/// own block is short-circuited to the first transition that leaves the
/// block, or dropped if none does.
pub open spec fn spec_noop_entry(next: Seq<Option<MachineNode>>, id: int) -> Option<MachineNode> {
    match next[id] {
        None => None,
        Some(m) => if m.block == id / 16 {
            spec_chase(next, id / 16, m, 16)
        } else {
            Some(m)
        },
    }
}

/// The no-advance collapse pass over the whole table.
pub open spec fn spec_remove_noops(next: Seq<Option<MachineNode>>) -> Seq<Option<MachineNode>> {
    Seq::new(next.len(), |id: int| spec_noop_entry(next, id))
}

/// Whether some recorded transition points at the state with identity `id`.
pub open spec fn spec_is_target(next: Seq<Option<MachineNode>>, id: int) -> bool {
    exists|j: int|
        0 <= j < next.len() && ((#[trigger] next[j]) matches Some(t) && t.spec_identifier() == id)
}

/// One slot of dead-state pruning: a state that is neither the root nor
/// the target of any transition is dropped.
pub open spec fn spec_unreachable_entry(
    next: Seq<Option<MachineNode>>,
    id: int,
) -> Option<MachineNode> {
    match next[id] {
        None => None,
        Some(m) => if id == spec_root_id() || spec_is_target(next, id) {
            Some(m)
        } else {
            None
        },
    }
}

/// The dead-state pruning pass over the whole table.
pub open spec fn spec_remove_unreachable(next: Seq<Option<MachineNode>>) -> Seq<
    Option<MachineNode>,
> {
    Seq::new(next.len(), |id: int| spec_unreachable_entry(next, id))
}

/// One full optimizer pass: collapse, then prune.
pub open spec fn spec_opt_all(next: Seq<Option<MachineNode>>) -> Seq<Option<MachineNode>> {
    spec_remove_unreachable(spec_remove_noops(next))
}

/// Number of live (non-pruned) states in a table.
pub open spec fn count_some(next: Seq<Option<MachineNode>>) -> nat
    decreases next.len(),
{
    if next.len() == 0 {
        0
    } else {
        count_some(next.drop_last()) + if next.last() is Some {
            1nat
        } else {
            0nat
        }
    }
}

/// A table whose slots are live only where another's are has no more live
/// states than the other.
proof fn lemma_count_some_pointwise(s1: Seq<Option<MachineNode>>, s2: Seq<Option<MachineNode>>)
    requires
        s1.len() == s2.len(),
        forall|j: int| 0 <= j < s1.len() && (#[trigger] s1[j]) is Some ==> s2[j] is Some,
    ensures
        count_some(s1) <= count_some(s2),
    decreases s1.len(),
{
    if s1.len() > 0 {
        lemma_count_some_pointwise(s1.drop_last(), s2.drop_last());
    }
}

/// Both optimizer passes only keep or drop slots, never revive them.
proof fn lemma_opt_all_pointwise(next: Seq<Option<MachineNode>>)
    ensures
        spec_opt_all(next).len() == next.len(),
        forall|j: int|
            0 <= j < next.len() && (#[trigger] spec_opt_all(next)[j]) is Some ==> next[j] is Some,
        count_some(spec_opt_all(next)) <= count_some(next),
{
    assert forall|j: int|
        0 <= j < next.len() && (#[trigger] spec_opt_all(next)[j]) is Some implies next[j]
        is Some by {
        assert(spec_opt_all(next)[j] == spec_unreachable_entry(spec_remove_noops(next), j));
        assert(spec_remove_noops(next)[j] == spec_noop_entry(next, j));
    }
    lemma_count_some_pointwise(spec_opt_all(next), next);
}

/// The optimizer's fixed-point iteration: run full passes until one leaves
/// the number of live states unchanged, and keep the table that entered
/// that final pass.
pub open spec fn spec_optimize(next: Seq<Option<MachineNode>>) -> Seq<Option<MachineNode>>
    decreases count_some(next) via spec_optimize_decreases
{
    if count_some(spec_opt_all(next)) == count_some(next) {
        next
    } else {
        spec_optimize(spec_opt_all(next))
    }
}

#[via_fn]
proof fn spec_optimize_decreases(next: Seq<Option<MachineNode>>) {
    lemma_opt_all_pointwise(next);
}

/// At the optimizer's output a further full pass cannot change the live
/// count.
pub proof fn lemma_optimize_reaches_fixed_point(next: Seq<Option<MachineNode>>)
    ensures
        count_some(spec_opt_all(spec_optimize(next))) == count_some(spec_optimize(next)),
    decreases count_some(next),
{
    if count_some(spec_opt_all(next)) == count_some(next) {
    } else {
        lemma_opt_all_pointwise(next);
        lemma_optimize_reaches_fixed_point(spec_opt_all(next));
    }
}

/// Law of the optimizer: it is idempotent — running it on its own output
/// changes nothing.
pub proof fn lemma_optimize_idempotent(next: Seq<Option<MachineNode>>)
    ensures
        spec_optimize(spec_optimize(next)) == spec_optimize(next),
{
    lemma_optimize_reaches_fixed_point(next);
}

/// Walking `n + j` steps is walking `n` steps and then `j` more from
/// wherever that landed.
proof fn lemma_walk_append(next: Seq<Option<MachineNode>>, a: int, n: nat, j: nat)
    requires
        spec_walk_state(next, a, n) is Some,
    ensures
        spec_walk_state(next, a, (n + j) as nat) == spec_walk_state(
            next,
            spec_walk_state(next, a, n)->Some_0,
            j,
        ),
    decreases j,
{
    let c = spec_walk_state(next, a, n)->Some_0;
    if j == 0 {
        assert(spec_walk_state(next, c, 0) == Some(c));
    } else {
        lemma_walk_append(next, a, n, (j - 1) as nat);
        assert(spec_walk_state(next, a, (n + j) as nat) == spec_walk_state(
            next,
            a,
            ((n + j - 1) as nat + 1) as nat,
        ));
    }
}

/// A successful chase retraces a walk of the original table: the state it
/// ends at is where some bounded walk from the chain's start lands.
proof fn lemma_chase_walk(next: Seq<Option<MachineNode>>, b: int, m: MachineNode, fuel: nat)
    requires
        next_wf(next),
        m.block == b ==> 16 * b + 15 < next.len(),
    ensures
        spec_chase(next, b, m, fuel) matches Some(w) ==> exists|j: nat|
            j <= fuel && #[trigger] spec_walk_state(next, m.spec_identifier(), j) == Some(
                w.spec_identifier(),
            ),
    decreases fuel,
{
    if m.block != b {
        if spec_chase(next, b, m, fuel) matches Some(w) {
            assert(spec_walk_state(next, m.spec_identifier(), 0) == Some(m.spec_identifier()));
        }
    } else if fuel > 0 {
        match next[m.spec_identifier()] {
            None => {},
            Some(m2) => {
                assert(next[m.spec_identifier()] is Some);
                lemma_chase_walk(next, b, m2, (fuel - 1) as nat);
                match spec_chase(next, b, m, fuel) {
                    None => {},
                    Some(w) => {
                        let j2 = choose|j2: nat|
                            j2 <= fuel - 1 && #[trigger] spec_walk_state(
                                next,
                                m2.spec_identifier(),
                                j2,
                            ) == Some(w.spec_identifier());
                        assert(spec_walk_state(next, m.spec_identifier(), 1) == Some(
                            m2.spec_identifier(),
                        ));
                        lemma_walk_append(next, m.spec_identifier(), 1, j2);
                        assert(spec_walk_state(next, m.spec_identifier(), (1 + j2) as nat)
                            == Some(w.spec_identifier()));
                    },
                }
            },
        }
    }
}

/// Part of the optimizer guarantee: the collapse pass invents no states —
/// whatever its table's root walk visits, the original table's root walk
/// also visits, no sooner.
proof fn lemma_collapse_simulates(next: Seq<Option<MachineNode>>, k: nat)
    requires
        next_wf(next),
    ensures
        spec_walk_state(spec_remove_noops(next), spec_root_id(), k) matches Some(s) ==> exists|
            k2: nat,
        |
            k2 >= k && #[trigger] spec_walk_state(next, spec_root_id(), k2) == Some(s),
    decreases k,
{
    let collapsed = spec_remove_noops(next);
    if k == 0 {
        match spec_walk_state(collapsed, spec_root_id(), 0) {
            Some(s) => {
                assert(spec_walk_state(next, spec_root_id(), 0) == Some(s));
            },
            None => {},
        }
    } else {
        lemma_collapse_simulates(next, (k - 1) as nat);
        match spec_walk_state(collapsed, spec_root_id(), (k - 1) as nat) {
            None => {},
            Some(cur) => {
                match spec_walk_state(collapsed, spec_root_id(), k) {
                    None => {},
                    Some(s) => {
                    assert(0 <= cur < collapsed.len());
                    assert(collapsed[cur] == spec_noop_entry(next, cur));
                    let k2 = choose|k2: nat|
                        k2 >= k - 1 && #[trigger] spec_walk_state(next, spec_root_id(), k2)
                            == Some(cur);
                    match next[cur] {
                        None => {},
                        Some(m) => {
                            assert(next[cur] is Some);
                            assert(spec_walk_state(next, spec_root_id(), (k2 + 1) as nat)
                                == Some(m.spec_identifier()));
                            if m.block == cur / 16 {
                                lemma_chase_walk(next, cur / 16, m, 16);
                                match spec_chase(next, cur / 16, m, 16) {
                                    None => {},
                                    Some(w) => {
                                        assert(s == w.spec_identifier());
                                        let j = choose|j: nat|
                                            j <= 16 && #[trigger] spec_walk_state(
                                                next,
                                                m.spec_identifier(),
                                                j,
                                            ) == Some(w.spec_identifier());
                                        lemma_walk_append(
                                            next,
                                            spec_root_id(),
                                            (k2 + 1) as nat,
                                            j,
                                        );
                                        assert(spec_walk_state(
                                            next,
                                            spec_root_id(),
                                            (k2 + 1 + j) as nat,
                                        ) == Some(s));
                                    },
                                }
                            } else {
                                assert(s == m.spec_identifier());
                            }
                        },
                    }
                    },
                }
            },
        }
    }
}

/// Both optimizer passes keep the table sound on its own.
proof fn lemma_opt_all_preserves_next_wf(next: Seq<Option<MachineNode>>)
    requires
        next_wf(next),
    ensures
        next_wf(spec_remove_noops(next)),
        next_wf(spec_opt_all(next)),
{
    let mid = spec_remove_noops(next);
    assert forall|j: int|
        0 <= j < mid.len() implies (#[trigger] mid[j] matches Some(m) ==> 16 * m.block + 15
        < mid.len()) by {
        assert(mid[j] == spec_noop_entry(next, j));
        match next[j] {
            None => {},
            Some(m) => {
                assert(next[j] is Some);
                if m.block == j / 16 {
                    lemma_chase_from_values(next, j / 16, m, 16);
                    match spec_chase(next, j / 16, m, 16) {
                        Some(w) => {
                            if w != m {
                                let jj = choose|jj: int|
                                    0 <= jj < next.len() && next[jj] == Some(w);
                                assert(next[jj] is Some);
                            }
                        },
                        None => {},
                    }
                }
            },
        }
    }
    assert forall|j: int|
        0 <= j < spec_opt_all(next).len() implies (#[trigger] spec_opt_all(next)[j] matches Some(
            m,
        ) ==> 16 * m.block + 15 < spec_opt_all(next).len()) by {
        assert(spec_opt_all(next)[j] == spec_unreachable_entry(mid, j));
        match spec_opt_all(next)[j] {
            Some(m) => {
                assert(mid[j] == Some(m));
                assert(mid[j] is Some);
            },
            None => {},
        }
    }
}

/// One full optimizer pass invents no states on the walk from the root.
proof fn lemma_opt_all_simulates(next: Seq<Option<MachineNode>>, k: nat)
    requires
        next_wf(next),
    ensures
        spec_walk_state(spec_opt_all(next), spec_root_id(), k) matches Some(s) ==> exists|k2: nat|
            k2 >= k && #[trigger] spec_walk_state(next, spec_root_id(), k2) == Some(s),
{
    lemma_opt_all_preserves_next_wf(next);
    lemma_prune_preserves_root_walk(spec_remove_noops(next), k);
    lemma_collapse_simulates(next, k);
}

/// Law of the optimizer, reachability direction: the optimized automaton
/// invents no behaviour — every state its root walk visits is visited by
/// the root walk of the automaton it was built from, no sooner.
pub proof fn lemma_optimize_simulates(next: Seq<Option<MachineNode>>, k: nat)
    requires
        next_wf(next),
    ensures
        spec_walk_state(spec_optimize(next), spec_root_id(), k) matches Some(s) ==> exists|
            k2: nat,
        |
            k2 >= k && #[trigger] spec_walk_state(next, spec_root_id(), k2) == Some(s),
    decreases count_some(next),
{
    if count_some(spec_opt_all(next)) == count_some(next) {
    } else {
        lemma_opt_all_pointwise(next);
        lemma_opt_all_preserves_next_wf(next);
        lemma_optimize_simulates(spec_opt_all(next), k);
        match spec_walk_state(spec_optimize(next), spec_root_id(), k) {
            None => {},
            Some(s) => {
                let k2 = choose|k2: nat|
                    k2 >= k && #[trigger] spec_walk_state(spec_opt_all(next), spec_root_id(), k2)
                        == Some(s);
                lemma_opt_all_simulates(next, k2);
                let k3 = choose|k3: nat|
                    k3 >= k2 && #[trigger] spec_walk_state(next, spec_root_id(), k3) == Some(s);
                assert(spec_walk_state(next, spec_root_id(), k3) == Some(s));
            },
        }
    }
}

/// A successful chase always ends outside the block it was started in.
proof fn lemma_chase_crosses(next: Seq<Option<MachineNode>>, b: int, m: MachineNode, fuel: nat)
    ensures
        spec_chase(next, b, m, fuel) matches Some(w) ==> w.block != b,
    decreases fuel,
{
    if m.block == b && fuel > 0 {
        match next[m.spec_identifier()] {
            None => {},
            Some(m2) => {
                lemma_chase_crosses(next, b, m2, (fuel - 1) as nat);
            },
        }
    }
}

/// Part of the optimizer guarantee: after the no-advance collapse every
/// remaining transition leaves its source block, so no collapsed automaton
/// step bounces in place.
pub proof fn lemma_collapse_changes_blocks(next: Seq<Option<MachineNode>>, id: int)
    requires
        0 <= id < next.len(),
    ensures
        spec_remove_noops(next)[id] matches Some(m) ==> m.block != id / 16,
{
    assert(spec_remove_noops(next)[id] == spec_noop_entry(next, id));
    match next[id] {
        None => {},
        Some(m) => {
            if m.block == id / 16 {
                lemma_chase_crosses(next, id / 16, m, 16);
            }
        },
    }
}

/// The state the automaton rests in after `k` steps of the walk that
/// starts at `id`: each step follows the recorded transition of the
/// current state, and a missing slot ends the walk.
pub open spec fn spec_walk_state(next: Seq<Option<MachineNode>>, id: int, k: nat) -> Option<int>
    decreases k,
{
    if k == 0 {
        Some(id)
    } else {
        match spec_walk_state(next, id, (k - 1) as nat) {
            None => None,
            Some(cur) => if 0 <= cur < next.len() {
                match next[cur] {
                    None => None,
                    Some(m) => Some(m.spec_identifier()),
                }
            } else {
                None
            },
        }
    }
}

/// Every state the walk visits after its start is the target of some
/// recorded transition.
proof fn lemma_walk_visits_targets(next: Seq<Option<MachineNode>>, id: int, k: nat)
    requires
        k >= 1,
        spec_walk_state(next, id, k) is Some,
    ensures
        spec_is_target(next, spec_walk_state(next, id, k)->Some_0),
{
    match spec_walk_state(next, id, (k - 1) as nat) {
        None => {},
        Some(cur) => {
            match next[cur] {
                None => {},
                Some(m) => {
                    assert(0 <= cur < next.len());
                    assert(next[cur] matches Some(t) && t.spec_identifier() == spec_walk_state(
                        next,
                        id,
                        k,
                    )->Some_0);
                },
            }
        },
    }
}

/// Part of the optimizer guarantee: dead-state pruning leaves the walk
/// from the root unchanged, because any state the walk visits is the root
/// or the target of a transition that pruning keeps.
pub proof fn lemma_prune_preserves_root_walk(next: Seq<Option<MachineNode>>, k: nat)
    ensures
        spec_walk_state(spec_remove_unreachable(next), spec_root_id(), k) == spec_walk_state(
            next,
            spec_root_id(),
            k,
        ),
    decreases k,
{
    let pruned = spec_remove_unreachable(next);
    if k >= 1 {
        lemma_prune_preserves_root_walk(next, (k - 1) as nat);
        match spec_walk_state(next, spec_root_id(), (k - 1) as nat) {
            None => {},
            Some(cur) => {
                if 0 <= cur < next.len() {
                    assert(pruned[cur] == spec_unreachable_entry(next, cur));
                    if cur == spec_root_id() {
                    } else if k - 1 >= 1 {
                        lemma_walk_visits_targets(next, spec_root_id(), (k - 1) as nat);
                    }
                }
            },
        }
    }
}

/// A successful chase ends at the chain's start or at some recorded
/// transition target.
proof fn lemma_chase_from_values(next: Seq<Option<MachineNode>>, b: int, m: MachineNode, fuel: nat)
    requires
        next_wf(next),
        m.block == b ==> 16 * m.block + 15 < next.len(),
    ensures
        spec_chase(next, b, m, fuel) matches Some(w) ==> (w == m || exists|j: int|
            0 <= j < next.len() && next[j] == Some(w)),
    decreases fuel,
{
    if m.block == b && fuel > 0 {
        match next[m.spec_identifier()] {
            None => {},
            Some(m2) => {
                assert(next[m.spec_identifier()] is Some);
                lemma_chase_from_values(next, b, m2, (fuel - 1) as nat);
                match spec_chase(next, b, m, fuel) {
                    Some(w) => {
                        if w == m2 {
                            assert(next[m.spec_identifier()] == Some(w));
                        }
                    },
                    None => {},
                }
            },
        }
    }
}

/// A well-formed program's table is sound on its own.
proof fn lemma_wf_next_wf(p: ProtoProgram)
    requires
        p.wf(),
    ensures
        next_wf(p.next@),
{
    assert forall|j: int|
        0 <= j < p.next@.len() implies (#[trigger] p.next@[j] matches Some(m) ==> 16 * m.block + 15
        < p.next@.len()) by {
        match p.next@[j] {
            Some(m) => {
                assert(m.block < p.blocks@.len());
            },
            None => {},
        }
    }
}

/// A full optimizer pass keeps the table sound over the same blocks.
proof fn lemma_opt_all_preserves_wf(p: ProtoProgram, next2: Seq<Option<MachineNode>>)
    requires
        p.wf(),
        next2 == spec_opt_all(p.next@),
    ensures
        next2.len() == p.next@.len(),
        forall|j: int|
            0 <= j < next2.len() ==> (#[trigger] next2[j] matches Some(m) ==> m.block
                < p.blocks@.len() && !p.blocks@[m.block as int].colour.is_black()
                && !p.blocks@[j / 16].colour.is_black()),
{
    lemma_wf_next_wf(p);
    let mid = spec_remove_noops(p.next@);
    assert forall|j: int|
        0 <= j < mid.len() implies (#[trigger] mid[j] matches Some(m) ==> m.block
        < p.blocks@.len() && !p.blocks@[m.block as int].colour.is_black()
        && !p.blocks@[j / 16].colour.is_black()) by {
        assert(mid[j] == spec_noop_entry(p.next@, j));
        match p.next@[j] {
            None => {},
            Some(m) => {
                assert(p.next@[j] is Some);
                if m.block == j / 16 {
                    lemma_chase_from_values(p.next@, j / 16, m, 16);
                    match spec_chase(p.next@, j / 16, m, 16) {
                        Some(w) => {
                            if w != m {
                                let jj = choose|jj: int|
                                    0 <= jj < p.next@.len() && p.next@[jj] == Some(w);
                                assert(p.next@[jj] is Some);
                            }
                        },
                        None => {},
                    }
                }
            },
        }
    }
    assert forall|j: int|
        0 <= j < next2.len() implies (#[trigger] next2[j] matches Some(m) ==> m.block
        < p.blocks@.len() && !p.blocks@[m.block as int].colour.is_black()
        && !p.blocks@[j / 16].colour.is_black()) by {
        assert(next2[j] == spec_unreachable_entry(mid, j));
        match next2[j] {
            Some(m) => {
                assert(mid[j] == Some(m));
                assert(mid[j] is Some);
            },
            None => {},
        }
    }
}

/// Follows a same-block chain from `m`, giving up after the 16 states a
/// block can have.
fn chase_exec(next: &Vec<Option<MachineNode>>, b: usize, m: MachineNode) -> (r: Option<
    MachineNode,
>)
    requires
        next_wf(next@),
        m.block == b ==> 16 * b + 15 < next@.len(),
    ensures
        r == spec_chase(next@, b as int, m, 16),
{
    let mut cur = m;
    let mut fuel: usize = 16;
    loop
        invariant
            next_wf(next@),
            cur.block == b ==> 16 * b + 15 < next@.len(),
            fuel <= 16,
            spec_chase(next@, b as int, cur, fuel as nat) == spec_chase(next@, b as int, m, 16),
        decreases fuel,
    {
        if cur.block != b {
            return Some(cur);
        }
        if fuel == 0 {
            return None;
        }
        let n = next.len();
        proof {
            lemma_node_index_range(cur.direction, cur.chooser, cur.flipped);
            assert(16 * cur.block + 15 < next@.len());
            assert(n == next@.len());
            assert(usize::MAX <= u64::MAX);
            assert(cur.spec_identifier() < next@.len());
        }
        let id = cur.identifier();
        match next[id as usize] {
            None => {
                return None;
            },
            Some(m2) => {
                proof {
                    assert(next@[id as int] is Some);
                }
                cur = m2;
                fuel -= 1;
            },
        }
    }
}

/// Counts the live states of a table.
fn count_live(next: &Vec<Option<MachineNode>>) -> (c: usize)
    ensures
        c == count_some(next@),
{
    let mut c: usize = 0;
    let mut j: usize = 0;
    while j < next.len()
        invariant
            j <= next@.len(),
            c <= j,
            c == count_some(next@.take(j as int)),
        decreases next@.len() - j,
    {
        proof {
            assert(next@.take(j as int + 1).drop_last() == next@.take(j as int));
            assert(next@.take(j as int + 1).last() == next@[j as int]);
        }
        match next[j] {
            Some(_) => {
                c += 1;
            },
            None => {},
        }
        j += 1;
    }
    proof {
        assert(next@.take(next@.len() as int) == next@);
    }
    c
}

/// The no-advance collapse pass on a bare table.
fn pass_noops(next: &Vec<Option<MachineNode>>) -> (r: Vec<Option<MachineNode>>)
    requires
        next_wf(next@),
    ensures
        r@ == spec_remove_noops(next@),
{
    let mut out: Vec<Option<MachineNode>> = Vec::new();
    let mut id: usize = 0;
    while id < next.len()
        invariant
            next_wf(next@),
            id <= next@.len(),
            out@.len() == id,
            forall|j: int| 0 <= j < id ==> out@[j] == spec_noop_entry(next@, j),
        decreases next@.len() - id,
    {
        match next[id] {
            None => {
                out.push(None);
            },
            Some(m) => {
                proof {
                    assert(next@[id as int] is Some);
                }
                if m.block == id / 16 {
                    let chased = chase_exec(next, id / 16, m);
                    out.push(chased);
                } else {
                    out.push(Some(m));
                }
            },
        }
        id += 1;
    }
    proof {
        assert(out@ =~= spec_remove_noops(next@));
    }
    out
}

/// Whether any recorded transition targets the state with identity `id`.
fn is_target_exec(next: &Vec<Option<MachineNode>>, id: u64) -> (r: bool)
    requires
        next_wf(next@),
    ensures
        r == spec_is_target(next@, id as int),
{
    let mut j: usize = 0;
    while j < next.len()
        invariant
            next_wf(next@),
            j <= next@.len(),
            forall|k: int|
                0 <= k < j ==> ((#[trigger] next@[k]) matches Some(t) ==> t.spec_identifier()
                    != id as int),
        decreases next@.len() - j,
    {
        match next[j] {
            Some(t) => {
                proof {
                    assert(next@[j as int] is Some);
                    lemma_node_index_range(t.direction, t.chooser, t.flipped);
                    assert(16 * t.block + 15 < next@.len());
                    assert(next@.len() <= usize::MAX);
                    assert(usize::MAX <= u64::MAX);
                }
                if t.identifier() == id {
                    proof {
                        assert(next@[j as int] matches Some(t2) && t2.spec_identifier()
                            == id as int);
                    }
                    return true;
                }
            },
            None => {},
        }
        j += 1;
    }
    proof {
        if spec_is_target(next@, id as int) {
            let k = choose|k: int|
                0 <= k < next@.len() && ((#[trigger] next@[k]) matches Some(t)
                    && t.spec_identifier() == id as int);
            assert(false);
        }
    }
    false
}

/// The dead-state pruning pass on a bare table.
fn pass_unreachable(next: &Vec<Option<MachineNode>>) -> (r: Vec<Option<MachineNode>>)
    requires
        next_wf(next@),
    ensures
        r@ == spec_remove_unreachable(next@),
{
    let root_node = MachineNode {
        block: 0,
        direction: Direction::Right,
        chooser: Chooser::Left,
        flipped: false,
    };
    let root = root_node.identifier();
    let mut out: Vec<Option<MachineNode>> = Vec::new();
    let mut id: usize = 0;
    while id < next.len()
        invariant
            next_wf(next@),
            id <= next@.len(),
            out@.len() == id,
            root == spec_root_id(),
            forall|j: int| 0 <= j < id ==> out@[j] == spec_unreachable_entry(next@, j),
        decreases next@.len() - id,
    {
        match next[id] {
            None => {
                out.push(None);
            },
            Some(m) => {
                let keep = (id as u64) == root || is_target_exec(next, id as u64);
                if keep {
                    out.push(Some(m));
                } else {
                    out.push(None);
                }
            },
        }
        id += 1;
    }
    proof {
        assert(out@ =~= spec_remove_unreachable(next@));
    }
    out
}

impl ProtoProgram {
    /// The no-advance collapse pass (4.6): short-circuits transitions that
    /// stay inside their own block.
    pub fn opt_remove_noops(self) -> (r: ProtoProgram)
        requires
            self.wf(),
        ensures
            r.wf(),
            r.blocks@ == self.blocks@,
            r.next@ == spec_remove_noops(self.next@),
    {
        proof {
            lemma_wf_next_wf(self);
        }
        let next2 = pass_noops(&self.next);
        let r = ProtoProgram { blocks: self.blocks, next: next2 };
        proof {
            lemma_remove_noops_wf(self, r.next@);
        }
        r
    }

    /// The dead-state pruning pass (4.6): drops states that nothing
    /// reaches.
    pub fn opt_remove_unreachable(self) -> (r: ProtoProgram)
        requires
            self.wf(),
        ensures
            r.wf(),
            r.blocks@ == self.blocks@,
            r.next@ == spec_remove_unreachable(self.next@),
    {
        proof {
            lemma_wf_next_wf(self);
        }
        let next2 = pass_unreachable(&self.next);
        let r = ProtoProgram { blocks: self.blocks, next: next2 };
        proof {
            assert forall|j: int|
                0 <= j < r.next@.len() implies (#[trigger] r.next@[j] matches Some(m) ==> m.block
                < r.blocks@.len() && !r.blocks@[m.block as int].colour.is_black()
                && !r.blocks@[j / 16].colour.is_black()) by {
                assert(r.next@[j] == spec_unreachable_entry(self.next@, j));
                match r.next@[j] {
                    Some(m) => {
                        assert(self.next@[j] == Some(m));
                        assert(self.next@[j] is Some);
                    },
                    None => {},
                }
            }
        }
        r
    }

    /// One full optimizer pass: collapse, then prune.
    pub fn opt_all(self) -> (r: ProtoProgram)
        requires
            self.wf(),
        ensures
            r.wf(),
            r.blocks@ == self.blocks@,
            r.next@ == spec_opt_all(self.next@),
    {
        self.opt_remove_noops().opt_remove_unreachable()
    }

    /// Runs full optimizer passes to a fixed point: stops as soon as a
    /// pass leaves the number of live states unchanged, and returns the
    /// table that entered that pass. Re-running the optimizer on its own
    /// output changes nothing (`lemma_optimize_idempotent`).
    #[verifier::loop_isolation(false)]
    pub fn optimize(self) -> (r: ProtoProgram)
        requires
            self.wf(),
        ensures
            r.wf(),
            r.blocks@ == self.blocks@,
            r.next@ == spec_optimize(self.next@),
            spec_optimize(r.next@) == r.next@,
    {
        let ghost blocks0 = self.blocks@;
        let ghost next0 = self.next@;
        let mut cur = self;
        loop
            invariant
                cur.wf(),
                cur.blocks@ == blocks0,
                spec_optimize(cur.next@) == spec_optimize(next0),
            decreases count_some(cur.next@),
        {
            proof {
                lemma_wf_next_wf(cur);
            }
            let c0 = count_live(&cur.next);
            let mid = pass_noops(&cur.next);
            proof {
                lemma_remove_noops_wf(cur, mid@);
                assert forall|j: int|
                    0 <= j < mid@.len() implies (#[trigger] mid@[j] matches Some(m) ==> 16 * m.block
                    + 15 < mid@.len()) by {
                    match mid@[j] {
                        Some(m) => {
                            assert(m.block < cur.blocks@.len());
                        },
                        None => {},
                    }
                }
            }
            let n2 = pass_unreachable(&mid);
            let c1 = count_live(&n2);
            if c1 == c0 {
                return cur;
            }
            proof {
                lemma_opt_all_pointwise(cur.next@);
                lemma_opt_all_preserves_wf(cur, n2@);
            }
            cur = ProtoProgram { blocks: cur.blocks, next: n2 };
        }
    }
}

/// The collapse pass keeps the table sound over the same blocks.
proof fn lemma_remove_noops_wf(p: ProtoProgram, next2: Seq<Option<MachineNode>>)
    requires
        p.wf(),
        next2 == spec_remove_noops(p.next@),
    ensures
        forall|j: int|
            0 <= j < next2.len() ==> (#[trigger] next2[j] matches Some(m) ==> m.block
                < p.blocks@.len() && !p.blocks@[m.block as int].colour.is_black()
                && !p.blocks@[j / 16].colour.is_black()),
        next2.len() == p.next@.len(),
{
    lemma_wf_next_wf(p);
    assert forall|j: int|
        0 <= j < next2.len() implies (#[trigger] next2[j] matches Some(m) ==> m.block
        < p.blocks@.len() && !p.blocks@[m.block as int].colour.is_black()
        && !p.blocks@[j / 16].colour.is_black()) by {
        assert(next2[j] == spec_noop_entry(p.next@, j));
        match p.next@[j] {
            None => {},
            Some(m) => {
                assert(p.next@[j] is Some);
                if m.block == j / 16 {
                    lemma_chase_from_values(p.next@, j / 16, m, 16);
                    match spec_chase(p.next@, j / 16, m, 16) {
                        Some(w) => {
                            if w != m {
                                let jj = choose|jj: int|
                                    0 <= jj < p.next@.len() && p.next@[jj] == Some(w);
                                assert(p.next@[jj] is Some);
                            }
                        },
                        None => {},
                    }
                }
            },
        }
    }
}


/// The flattened transition table of an automaton: each live state's
/// numeric identity maps to its target's identity and the operation the
/// two blocks' colour delta decodes to.
pub open spec fn spec_encode(blocks: Seq<Block>, next: Seq<Option<MachineNode>>) -> Map<
    u64,
    (u64, Operation),
> {
    Map::new(
        |id: u64| id < next.len() && next[id as int] is Some,
        |id: u64|
            (
                next[id as int]->Some_0.spec_identifier() as u64,
                spec_delta(
                    blocks[id as int / 16].colour,
                    blocks[next[id as int]->Some_0.block as int].colour,
                    blocks[id as int / 16].pixels@.len() as int,
                ),
            ),
    )
}

impl ProtoProgram {
    /// Flattens the automaton into the executable program, decoding each
    /// transition's operation from its blocks' colour delta. The initial
    /// state is the root pointer state of block 0.
    #[verifier::loop_isolation(false)]
    pub fn to_program(&self) -> (prog: Program)
        requires
            self.wf(),
        ensures
            prog.initial_state == spec_root_id(),
            prog.transitions@ == spec_encode(self.blocks@, self.next@),
    {
        let mut ret: HashMap<u64, (u64, Operation)> = HashMap::new();
        let mut id: usize = 0;
        let n = self.next.len();
        while id < n
            invariant
                id <= n,
                forall|k: u64| #[trigger]
                    ret@.contains_key(k) <==> ((k as int) < id && self.next@[k as int] is Some),
                forall|k: u64|
                    ret@.contains_key(k) ==> ret@[k] == spec_encode(self.blocks@, self.next@)[k],
            decreases n - id,
        {
            match self.next[id] {
                None => {},
                Some(m) => {
                    proof {
                        assert(self.next@[id as int] is Some);
                        lemma_node_index_range(m.direction, m.chooser, m.flipped);
                        assert(usize::MAX <= u64::MAX);
                    }
                    let sb = &self.blocks[id / 16];
                    let rb = &self.blocks[m.block];
                    let tid = m.identifier();
                    let op = sb.delta(rb);
                    ret.insert(id as u64, (tid, op));
                    proof {
                        assert(spec_encode(self.blocks@, self.next@).dom().contains(id as u64));
                    }
                },
            }
            id += 1;
        }
        let root_node = MachineNode {
            block: 0,
            direction: Direction::Right,
            chooser: Chooser::Left,
            flipped: false,
        };
        let root = root_node.identifier();
        proof {
            assert forall|k: u64| #[trigger]
                spec_encode(self.blocks@, self.next@).dom().contains(k) implies ret@.contains_key(
                k,
            ) by {}
            assert(ret@ =~= spec_encode(self.blocks@, self.next@));
        }
        Program::new(root, ret)
    }
}

} // verus!
