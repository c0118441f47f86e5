use vstd::prelude::*;

use std::collections::HashMap;

use vstd::arithmetic::div_mod::{
    lemma_fundamental_div_mod, lemma_fundamental_div_mod_converse_div,
    lemma_fundamental_div_mod_converse_mod,
};

use crate::chooser::Chooser;
use crate::direction::Direction;
use crate::machinenode::{index_parts, lemma_node_index_range, spec_index_parts, spec_node_index};

verus! {

broadcast use vstd::std_specs::hash::group_hash_axioms;

/// Why a running program was aborted.
#[derive(Clone, Copy, Debug, PartialEq, Eq, Structural, Hash)]
pub enum ErrorReason {
    /// A move entered a block whose colour is not one of the 18 palette
    /// cells, black or white.
    NonStandardColour,
}

/// A primitive Piet operation, produced by the operation decoder and
/// consumed by the stack machine.
#[derive(Clone, Copy, Debug, PartialEq, Eq, Structural, Hash)]
pub enum Operation {
    NoOp,
    Push(i64),
    Pop,
    Add,
    Subtract,
    Multiply,
    Divide,
    Mod,
    Not,
    Greater,
    Pointer,
    Switch,
    Duplicate,
    Roll,
    InNum,
    InChar,
    OutNum,
    OutChar,
    Error(ErrorReason),
}

/// The executable program: the numeric identity of the root pointer state,
/// and the flattened transition table. A state with no entry is a halt.
pub struct Program {
    pub initial_state: u64,
    pub transitions: HashMap<u64, (u64, Operation)>,
}

impl Program {
    pub fn new(initial_state: u64, transitions: HashMap<u64, (u64, Operation)>) -> (p: Program)
        ensures
            p.initial_state == initial_state,
            p.transitions == transitions,
    {
        Program { initial_state, transitions }
    }
}

/// Division rounding toward negative infinity, Piet's convention. Stated
/// with Euclidean division by a positive divisor only, which is the case
/// the solver's theory pins down directly.
pub open spec fn spec_floor_div(b: int, a: int) -> int {
    if a > 0 {
        b / a
    } else {
        -((b + (-a) - 1) / (-a))
    }
}

/// The remainder matching floor division: its sign follows the divisor.
pub open spec fn spec_floor_mod(b: int, a: int) -> int {
    b - a * spec_floor_div(b, a)
}

/// What Divide pushes: floor division, wrapped on the one overflowing
/// operand pair.
pub open spec fn spec_div_value(b: i64, a: i64) -> i64 {
    if b == i64::MIN && a == -1 {
        i64::MIN
    } else {
        spec_floor_div(b as int, a as int) as i64
    }
}

/// What Mod pushes: the floored remainder, whose sign matches the divisor.
pub open spec fn spec_mod_value(b: i64, a: i64) -> i64 {
    spec_floor_mod(b as int, a as int) as i64
}

/// The magnitude of a signed value.
pub open spec fn spec_abs(x: int) -> int {
    if x >= 0 {
        x
    } else {
        -x
    }
}

fn abs_u64(x: i64) -> (u: u64)
    ensures
        u as int == spec_abs(x as int),
{
    if x >= 0 {
        x as u64
    } else {
        (-(x as i128)) as u64
    }
}

/// Floor division of two machine words via unsigned magnitudes.
fn floor_div_exec(b: i64, a: i64) -> (q: i64)
    requires
        a != 0,
        !(b == i64::MIN && a == -1),
    ensures
        q as int == spec_floor_div(b as int, a as int),
{
    let ub = abs_u64(b);
    let ua = abs_u64(a);
    let qm = ub / ua;
    let rm = ub % ua;
    proof {
        lemma_fundamental_div_mod(ub as int, ua as int);
        lemma_floor_div_cases(b as int, a as int, ub as int, ua as int, qm as int, rm as int);
        if ua == 1 {
            assert(qm == ub) by (nonlinear_arith)
                requires
                    qm == ub as int / ua as int,
                    ua == 1,
                    ub >= 0,
            ;
        } else {
            assert(qm <= ub / 2) by (nonlinear_arith)
                requires
                    qm == ub as int / ua as int,
                    ua >= 2,
                    ub >= 0,
            ;
        }
    }
    if (b >= 0) == (a >= 0) {
        qm as i64
    } else {
        let adj: u64 = if rm != 0 {
            1
        } else {
            0
        };
        let qq = qm + adj;
        if qq == 0x8000_0000_0000_0000u64 {
            i64::MIN
        } else {
            -(qq as i64)
        }
    }
}

/// Floor division by sign case, in terms of the magnitudes' Euclidean
/// division.
proof fn lemma_floor_div_cases(b: int, a: int, ub: int, ua: int, qm: int, rm: int)
    requires
        a != 0,
        ub == spec_abs(b),
        ua == spec_abs(a),
        qm == ub / ua,
        rm == ub % ua,
    ensures
        (b >= 0) == (a >= 0) ==> spec_floor_div(b, a) == qm,
        (b >= 0) != (a >= 0) ==> spec_floor_div(b, a) == (if rm == 0 {
            -qm
        } else {
            -(qm + 1)
        }),
{
    lemma_fundamental_div_mod(ub, ua);
    if b >= 0 && a > 0 {
        lemma_fundamental_div_mod_converse_div(b, a, qm, rm);
    } else if b < 0 && a < 0 {
        if rm == 0 {
            assert(b + (-a) - 1 == (-qm) * ua + (ua - 1)) by (nonlinear_arith)
                requires
                    b == -ub,
                    a == -ua,
                    ub == ua * qm + rm,
                    rm == 0,
                    ua >= 1,
            ;
            lemma_fundamental_div_mod_converse_div(b + (-a) - 1, -a, -qm, ua - 1);
        } else {
            assert(b + (-a) - 1 == (-qm) * ua + (ua - rm - 1)) by (nonlinear_arith)
                requires
                    b == -ub,
                    a == -ua,
                    ub == ua * qm + rm,
                    0 < rm < ua,
            ;
            lemma_fundamental_div_mod_converse_div(b + (-a) - 1, -a, -qm, ua - rm - 1);
        }
    } else if b >= 0 && a < 0 {
        if rm == 0 {
            assert(b + (-a) - 1 == qm * ua + (ua - 1)) by (nonlinear_arith)
                requires
                    b == ub,
                    a == -ua,
                    ub == ua * qm + rm,
                    rm == 0,
                    ua >= 1,
            ;
            lemma_fundamental_div_mod_converse_div(b + (-a) - 1, -a, qm, ua - 1);
        } else {
            assert(b + (-a) - 1 == (qm + 1) * ua + (rm - 1)) by (nonlinear_arith)
                requires
                    b == ub,
                    a == -ua,
                    ub == ua * qm + rm,
                    0 < rm < ua,
            ;
            lemma_fundamental_div_mod_converse_div(b + (-a) - 1, -a, qm + 1, rm - 1);
        }
    } else {
        // b < 0, a > 0
        if rm == 0 {
            assert(b == (-qm) * a + 0) by (nonlinear_arith)
                requires
                    b == -ub,
                    a == ua,
                    ub == ua * qm + rm,
                    rm == 0,
            ;
            lemma_fundamental_div_mod_converse_div(b, a, -qm, 0);
        } else {
            assert(b == (-qm - 1) * a + (ua - rm)) by (nonlinear_arith)
                requires
                    b == -ub,
                    a == ua,
                    ub == ua * qm + rm,
                    0 < rm < ua,
            ;
            lemma_fundamental_div_mod_converse_div(b, a, -qm - 1, ua - rm);
        }
    }
}

/// The floored remainder of two machine words via unsigned magnitudes.
fn floor_mod_exec(b: i64, a: i64) -> (r: i64)
    requires
        a != 0,
    ensures
        r as int == spec_floor_mod(b as int, a as int),
{
    let ub = abs_u64(b);
    let ua = abs_u64(a);
    let qm = ub / ua;
    let rm = ub % ua;
    proof {
        lemma_fundamental_div_mod(ub as int, ua as int);
        lemma_floor_div_cases(b as int, a as int, ub as int, ua as int, qm as int, rm as int);
        lemma_floor_mod_value(b as int, a as int, ub as int, ua as int, qm as int, rm as int);
    }
    if (b >= 0) == (a >= 0) {
        if b >= 0 {
            rm as i64
        } else {
            -(rm as i64)
        }
    } else {
        if rm == 0 {
            0
        } else {
            if a >= 0 {
                (ua - rm) as i64
            } else {
                -((ua - rm) as i64)
            }
        }
    }
}

/// The floored remainder by sign case, given the floored quotient.
proof fn lemma_floor_mod_value(b: int, a: int, ub: int, ua: int, qm: int, rm: int)
    requires
        a != 0,
        ub == spec_abs(b),
        ua == spec_abs(a),
        ub == ua * qm + rm,
        0 <= rm < ua,
        (b >= 0) == (a >= 0) ==> spec_floor_div(b, a) == qm,
        (b >= 0) != (a >= 0) ==> spec_floor_div(b, a) == (if rm == 0 {
            -qm
        } else {
            -(qm + 1)
        }),
    ensures
        b >= 0 && a > 0 ==> spec_floor_mod(b, a) == rm,
        b < 0 && a < 0 ==> spec_floor_mod(b, a) == -rm,
        b >= 0 && a < 0 ==> spec_floor_mod(b, a) == (if rm == 0 {
            0int
        } else {
            -(ua - rm)
        }),
        b < 0 && a > 0 ==> spec_floor_mod(b, a) == (if rm == 0 {
            0int
        } else {
            ua - rm
        }),
{
    if b >= 0 && a > 0 {
        assert(b - a * qm == rm) by (nonlinear_arith)
            requires
                b == ub,
                a == ua,
                ub == ua * qm + rm,
        ;
    } else if b < 0 && a < 0 {
        assert(b - a * qm == -rm) by (nonlinear_arith)
            requires
                b == -ub,
                a == -ua,
                ub == ua * qm + rm,
        ;
    } else if b >= 0 && a < 0 {
        if rm == 0 {
            assert(b - a * (-qm) == 0) by (nonlinear_arith)
                requires
                    b == ub,
                    a == -ua,
                    ub == ua * qm + rm,
                    rm == 0,
            ;
        } else {
            assert(b - a * (-(qm + 1)) == -(ua - rm)) by (nonlinear_arith)
                requires
                    b == ub,
                    a == -ua,
                    ub == ua * qm + rm,
            ;
        }
    } else {
        if rm == 0 {
            assert(b - a * (-qm) == 0) by (nonlinear_arith)
                requires
                    b == -ub,
                    a == ua,
                    ub == ua * qm + rm,
                    rm == 0,
            ;
        } else {
            assert(b - a * (-(qm + 1)) == ua - rm) by (nonlinear_arith)
                requires
                    b == -ub,
                    a == ua,
                    ub == ua * qm + rm,
            ;
        }
    }
}


/// Euclidean remainder of a signed value by a positive word, via unsigned
/// magnitudes.
fn mod_euclid_exec(n: i64, d: u64) -> (r: u64)
    requires
        d >= 1,
    ensures
        r as int == (n as int) % (d as int),
        r < d,
{
    if n >= 0 {
        (n as u64) % d
    } else {
        let un = (-(n as i128)) as u64;
        let m = un % d;
        proof {
            let q = (un as int) / (d as int);
            lemma_fundamental_div_mod(un as int, d as int);
            if m == 0 {
                assert((n as int) == (-q) * (d as int) + 0) by (nonlinear_arith)
                    requires
                        n as int == -(un as int),
                        un as int == (d as int) * q + (m as int),
                        m == 0,
                ;
                lemma_fundamental_div_mod_converse_mod(n as int, d as int, -q, 0);
            } else {
                assert((n as int) == (-q - 1) * (d as int) + ((d as int) - (m as int)))
                    by (nonlinear_arith)
                    requires
                        n as int == -(un as int),
                        un as int == (d as int) * q + (m as int),
                        0 < m < d,
                ;
                lemma_fundamental_div_mod_converse_mod(
                    n as int,
                    d as int,
                    -q - 1,
                    (d as int) - (m as int),
                );
            }
        }
        if m == 0 {
            0
        } else {
            d - m
        }
    }
}

/// `k` quarter turns clockwise.
pub open spec fn spec_cw_n(d: Direction, k: nat) -> Direction
    decreases k,
{
    if k == 0 {
        d
    } else {
        spec_cw_n(d, (k - 1) as nat).spec_clockwise()
    }
}

/// A pointer state identity with its direction component rotated `k`
/// quarter turns clockwise.
pub open spec fn spec_state_rotated(st: u64, k: nat) -> u64 {
    let b = (st as int) / 16;
    let parts = spec_index_parts((st as int) % 16);
    (b * 16 + spec_node_index(spec_cw_n(parts.0, k), parts.1, parts.2)) as u64
}

/// A pointer state identity with its chooser component toggled.
pub open spec fn spec_state_switched(st: u64) -> u64 {
    let b = (st as int) / 16;
    let parts = spec_index_parts((st as int) % 16);
    (b * 16 + spec_node_index(parts.0, parts.1.spec_flip(), parts.2)) as u64
}

/// The rank of a (direction, chooser, flipped) triple, as a machine word.
fn node_index_exec(d: Direction, c: Chooser, f: bool) -> (i: u64)
    ensures
        i as int == spec_node_index(d, c, f),
{
    match (d, c, f) {
        (Direction::Up, Chooser::Left, false) => 0,
        (Direction::Up, Chooser::Left, true) => 1,
        (Direction::Up, Chooser::Right, false) => 2,
        (Direction::Up, Chooser::Right, true) => 3,
        (Direction::Down, Chooser::Left, false) => 4,
        (Direction::Down, Chooser::Left, true) => 5,
        (Direction::Down, Chooser::Right, false) => 6,
        (Direction::Down, Chooser::Right, true) => 7,
        (Direction::Left, Chooser::Left, false) => 8,
        (Direction::Left, Chooser::Left, true) => 9,
        (Direction::Left, Chooser::Right, false) => 10,
        (Direction::Left, Chooser::Right, true) => 11,
        (Direction::Right, Chooser::Left, false) => 12,
        (Direction::Right, Chooser::Left, true) => 13,
        (Direction::Right, Chooser::Right, false) => 14,
        (Direction::Right, Chooser::Right, true) => 15,
    }
}

/// Decomposing a state identity never overflows when recomposed.
proof fn lemma_state_recompose(st: u64)
    ensures
        0 <= (st as int) / 16 * 16 + 15 <= u64::MAX,
        0 <= (st as int) % 16 < 16,
{
    lemma_fundamental_div_mod(st as int, 16);
    vstd::arithmetic::div_mod::lemma_div_is_ordered(st as int, u64::MAX as int, 16);
    assert(u64::MAX as int / 16 * 16 + 15 == u64::MAX);
}

fn rotate_state(st: u64, k: u64) -> (r: u64)
    requires
        k < 4,
    ensures
        r == spec_state_rotated(st, k as nat),
{
    proof {
        lemma_state_recompose(st);
    }
    let b = st / 16;
    let ri = (st % 16) as usize;
    let (d, c, f) = index_parts(ri);
    let dd = if k == 0 {
        d
    } else if k == 1 {
        d.clockwise()
    } else if k == 2 {
        d.clockwise().clockwise()
    } else {
        d.clockwise().clockwise().clockwise()
    };
    proof {
        reveal_with_fuel(spec_cw_n, 5);
        lemma_node_index_range(dd, c, f);
    }
    let idx = node_index_exec(dd, c, f);
    b * 16 + idx
}

fn switch_state(st: u64) -> (r: u64)
    ensures
        r == spec_state_switched(st),
{
    proof {
        lemma_state_recompose(st);
    }
    let b = st / 16;
    let ri = (st % 16) as usize;
    let (d, c, f) = index_parts(ri);
    let cc = c.flip();
    proof {
        lemma_node_index_range(d, cc, f);
    }
    let idx = node_index_exec(d, cc, f);
    b * 16 + idx
}

/// The cyclic rotation Roll performs on the top `depth` elements, once the
/// roll count and depth have been taken off the stack.
pub open spec fn spec_roll(s: Seq<i64>) -> Seq<i64> {
    if s.len() < 2 {
        s
    } else {
        let rolls = s[s.len() - 1];
        let depth = s[s.len() - 2];
        let rest = s.drop_last().drop_last();
        if depth <= 0 || depth > rest.len() {
            s
        } else {
            let d = depth as int;
            let r = (rolls as int) % d;
            let sub = rest.subrange(rest.len() - d, rest.len() as int);
            rest.take(rest.len() - d) + sub.subrange(d - r, d) + sub.subrange(0, d - r)
        }
    }
}

/// What an operation leaves on the stack. Operations that need more
/// operands than are present, Divide and Mod by zero, and Roll with an
/// unusable depth all leave the stack untouched. The input/output
/// operations and the error marker never reach this function's callers'
/// stack handling and also leave it untouched here.
pub open spec fn spec_apply_stack(op: Operation, s: Seq<i64>) -> Seq<i64> {
    match op {
        Operation::NoOp => s,
        Operation::Push(n) => s.push(n),
        Operation::Pop => if s.len() >= 1 {
            s.drop_last()
        } else {
            s
        },
        Operation::Add => if s.len() >= 2 {
            s.drop_last().drop_last().push(
                vstd::wrapping::i64_specs::wrapping_add(s[s.len() - 2], s[s.len() - 1]),
            )
        } else {
            s
        },
        Operation::Subtract => if s.len() >= 2 {
            s.drop_last().drop_last().push(
                vstd::wrapping::i64_specs::wrapping_sub(s[s.len() - 2], s[s.len() - 1]),
            )
        } else {
            s
        },
        Operation::Multiply => if s.len() >= 2 {
            s.drop_last().drop_last().push(
                vstd::wrapping::i64_specs::wrapping_mul(s[s.len() - 2], s[s.len() - 1]),
            )
        } else {
            s
        },
        Operation::Divide => if s.len() >= 2 && s[s.len() - 1] != 0 {
            s.drop_last().drop_last().push(spec_div_value(s[s.len() - 2], s[s.len() - 1]))
        } else {
            s
        },
        Operation::Mod => if s.len() >= 2 && s[s.len() - 1] != 0 {
            s.drop_last().drop_last().push(spec_mod_value(s[s.len() - 2], s[s.len() - 1]))
        } else {
            s
        },
        Operation::Not => if s.len() >= 1 {
            s.drop_last().push(
                if s.last() == 0 {
                    1i64
                } else {
                    0i64
                },
            )
        } else {
            s
        },
        Operation::Greater => if s.len() >= 2 {
            s.drop_last().drop_last().push(
                if s[s.len() - 2] > s[s.len() - 1] {
                    1i64
                } else {
                    0i64
                },
            )
        } else {
            s
        },
        Operation::Pointer => if s.len() >= 1 {
            s.drop_last()
        } else {
            s
        },
        Operation::Switch => if s.len() >= 1 {
            s.drop_last()
        } else {
            s
        },
        Operation::Duplicate => if s.len() >= 1 {
            s.push(s.last())
        } else {
            s
        },
        Operation::Roll => spec_roll(s),
        _ => s,
    }
}

/// What an operation does to the current state identity, applied after the
/// move to the transition's target: Pointer rotates the direction by the
/// popped count, Switch toggles the chooser on an odd popped value.
pub open spec fn spec_state_after(op: Operation, st: u64, s: Seq<i64>) -> u64 {
    match op {
        Operation::Pointer => if s.len() >= 1 {
            spec_state_rotated(st, ((s.last() as int) % 4) as nat)
        } else {
            st
        },
        Operation::Switch => if s.len() >= 1 {
            if (s.last() as int) % 2 == 1 {
                spec_state_switched(st)
            } else {
                st
            }
        } else {
            st
        },
        _ => st,
    }
}

/// Operations the machine applies directly to its stack and state, as
/// opposed to those that touch the input/output channels or abort.
pub open spec fn spec_is_direct(op: Operation) -> bool {
    !(op is InNum || op is InChar || op is OutNum || op is OutChar || op is Error)
}

/// What one execution step did, and what the caller owes the machine: on
/// NeedsNum or NeedsChar the caller reads the input channel and hands the
/// result to `provide`; on EmitNum or EmitChar it writes the value to the
/// output channel.
#[derive(Clone, Copy, Debug, PartialEq, Eq, Structural)]
pub enum StepOutcome {
    Stepped,
    NeedsNum,
    NeedsChar,
    EmitNum(i64),
    EmitChar(i64),
    Halted,
    Aborted(ErrorReason),
}

/// The stack machine: a current-state cursor, the operand stack, and the
/// compiled program it runs.
pub struct Machine {
    pub state: u64,
    pub stack: Vec<i64>,
    pub program: Program,
}

/// How one call of `step` relates the machine before and after, and its
/// outcome: a missing table entry halts; an error marker aborts; the
/// input/output operations surface their channel interaction; everything
/// else acts on the stack and state exactly as the operation tables say.
pub open spec fn spec_step_rel(pre: Machine, post: Machine, r: StepOutcome) -> bool {
    &&& post.program == pre.program
    &&& if !pre.program.transitions@.contains_key(pre.state) {
        r == StepOutcome::Halted && post == pre
    } else {
        let (nx, op) = pre.program.transitions@[pre.state];
        match op {
            Operation::Error(e) => r == StepOutcome::Aborted(e) && post == pre,
            Operation::InNum => r == StepOutcome::NeedsNum && post.state == nx && post.stack@
                == pre.stack@,
            Operation::InChar => r == StepOutcome::NeedsChar && post.state == nx && post.stack@
                == pre.stack@,
            Operation::OutNum => post.state == nx && if pre.stack@.len() >= 1 {
                r == StepOutcome::EmitNum(pre.stack@.last()) && post.stack@
                    == pre.stack@.drop_last()
            } else {
                r == StepOutcome::Stepped && post.stack@ == pre.stack@
            },
            Operation::OutChar => post.state == nx && if pre.stack@.len() >= 1 {
                r == StepOutcome::EmitChar(pre.stack@.last()) && post.stack@
                    == pre.stack@.drop_last()
            } else {
                r == StepOutcome::Stepped && post.stack@ == pre.stack@
            },
            _ => r == StepOutcome::Stepped && post.stack@ == spec_apply_stack(op, pre.stack@)
                && post.state == spec_state_after(op, nx, pre.stack@),
        }
    }
}

impl Machine {
    /// A machine at the program's root state with an empty stack.
    pub fn new(p: Program) -> (m: Machine)
        ensures
            m.state == p.initial_state,
            m.stack@.len() == 0,
            m.program == p,
    {
        let state = p.initial_state;
        Machine { state, stack: Vec::new(), program: p }
    }

    /// Applies one directly-executable operation to the stack (and, for
    /// Pointer and Switch, to the current state).
    pub fn execute_instruction(&mut self, op: Operation)
        requires
            spec_is_direct(op),
        ensures
            final(self).stack@ == spec_apply_stack(op, old(self).stack@),
            final(self).state == spec_state_after(op, old(self).state, old(self).stack@),
            final(self).program == old(self).program,
    {
        let ghost s0 = self.stack@;
        match op {
            Operation::NoOp => {},
            Operation::Push(n) => {
                self.stack.push(n);
            },
            Operation::Pop => {
                if self.stack.len() >= 1 {
                    self.stack.pop();
                    proof {
                        assert(self.stack@ == s0.drop_last());
                    }
                }
            },
            Operation::Add => {
                if self.stack.len() >= 2 {
                    let a = match self.stack.pop() {
                        Some(v) => v,
                        None => vstd::pervasive::unreached(),
                    };
                    let b = match self.stack.pop() {
                        Some(v) => v,
                        None => vstd::pervasive::unreached(),
                    };
                    self.stack.push(b.wrapping_add(a));
                    proof {
                        assert(self.stack@ == s0.drop_last().drop_last().push(
                            vstd::wrapping::i64_specs::wrapping_add(b, a),
                        ));
                    }
                }
            },
            Operation::Subtract => {
                if self.stack.len() >= 2 {
                    let a = match self.stack.pop() {
                        Some(v) => v,
                        None => vstd::pervasive::unreached(),
                    };
                    let b = match self.stack.pop() {
                        Some(v) => v,
                        None => vstd::pervasive::unreached(),
                    };
                    self.stack.push(b.wrapping_sub(a));
                }
            },
            Operation::Multiply => {
                if self.stack.len() >= 2 {
                    let a = match self.stack.pop() {
                        Some(v) => v,
                        None => vstd::pervasive::unreached(),
                    };
                    let b = match self.stack.pop() {
                        Some(v) => v,
                        None => vstd::pervasive::unreached(),
                    };
                    self.stack.push(b.wrapping_mul(a));
                }
            },
            Operation::Divide => {
                if self.stack.len() >= 2 {
                    let a = self.stack[self.stack.len() - 1];
                    if a != 0 {
                        self.stack.pop();
                        let b = match self.stack.pop() {
                            Some(v) => v,
                            None => vstd::pervasive::unreached(),
                        };
                        let q = if b == i64::MIN && a == -1 {
                            i64::MIN
                        } else {
                            floor_div_exec(b, a)
                        };
                        self.stack.push(q);
                    }
                }
            },
            Operation::Mod => {
                if self.stack.len() >= 2 {
                    let a = self.stack[self.stack.len() - 1];
                    if a != 0 {
                        self.stack.pop();
                        let b = match self.stack.pop() {
                            Some(v) => v,
                            None => vstd::pervasive::unreached(),
                        };
                        let m = floor_mod_exec(b, a);
                        proof {
                            assert(m as int == spec_floor_mod(b as int, a as int));
                            assert(m == spec_mod_value(b, a));
                        }
                        self.stack.push(m);
                    }
                }
            },
            Operation::Not => {
                if self.stack.len() >= 1 {
                    let a = match self.stack.pop() {
                        Some(v) => v,
                        None => vstd::pervasive::unreached(),
                    };
                    self.stack.push(
                        if a == 0 {
                            1
                        } else {
                            0
                        },
                    );
                }
            },
            Operation::Greater => {
                if self.stack.len() >= 2 {
                    let a = match self.stack.pop() {
                        Some(v) => v,
                        None => vstd::pervasive::unreached(),
                    };
                    let b = match self.stack.pop() {
                        Some(v) => v,
                        None => vstd::pervasive::unreached(),
                    };
                    self.stack.push(
                        if b > a {
                            1
                        } else {
                            0
                        },
                    );
                }
            },
            Operation::Pointer => {
                if self.stack.len() >= 1 {
                    let n = match self.stack.pop() {
                        Some(v) => v,
                        None => vstd::pervasive::unreached(),
                    };
                    let k = mod_euclid_exec(n, 4);
                    self.state = rotate_state(self.state, k);
                }
            },
            Operation::Switch => {
                if self.stack.len() >= 1 {
                    let n = match self.stack.pop() {
                        Some(v) => v,
                        None => vstd::pervasive::unreached(),
                    };
                    let k = mod_euclid_exec(n, 2);
                    if k == 1 {
                        self.state = switch_state(self.state);
                    }
                }
            },
            Operation::Duplicate => {
                if self.stack.len() >= 1 {
                    let a = self.stack[self.stack.len() - 1];
                    self.stack.push(a);
                }
            },
            Operation::Roll => {
                self.roll();
            },
            _ => vstd::pervasive::unreached(),
        }
    }

    /// Roll (4.8): pops the roll count and the depth, then cyclically
    /// rotates the top `depth` elements; an unusable depth leaves the
    /// whole stack untouched.
    fn roll(&mut self)
        ensures
            final(self).stack@ == spec_roll(old(self).stack@),
            final(self).state == old(self).state,
            final(self).program == old(self).program,
    {
        let ghost s0 = self.stack@;
        if self.stack.len() < 2 {
            return ;
        }
        let n = self.stack.len();
        let rolls = self.stack[n - 1];
        let depth = self.stack[n - 2];
        if depth <= 0 || (depth as u64) > ((n - 2) as u64) {
            proof {
                assert(spec_roll(s0) == s0);
            }
            return ;
        }
        let d = depth as usize;
        self.stack.pop();
        self.stack.pop();
        let ghost rest = s0.drop_last().drop_last();
        proof {
            assert(self.stack@ == rest);
        }
        let r = mod_euclid_exec(rolls, depth as u64) as usize;
        let cut = self.stack.len() - d;
        let mut sub: Vec<i64> = Vec::new();
        let mut k: usize = cut;
        while k < self.stack.len()
            invariant
                cut <= k <= self.stack@.len(),
                self.stack@ == rest,
                cut == rest.len() - d,
                d <= rest.len(),
                sub@ == rest.subrange(cut as int, k as int),
                self.state == old(self).state,
                self.program == old(self).program,
            decreases self.stack@.len() - k,
        {
            sub.push(self.stack[k]);
            proof {
                assert(rest.subrange(cut as int, k as int + 1) == rest.subrange(
                    cut as int,
                    k as int,
                ).push(rest[k as int]));
            }
            k += 1;
        }
        self.stack.truncate(cut);
        proof {
            assert(self.stack@ == rest.subrange(0, cut as int));
            assert(rest.subrange(0, cut as int) == rest.take(cut as int));
        }
        let mut k: usize = d - r;
        while k < d
            invariant
                d - r <= k <= d,
                d <= rest.len(),
                r < d,
                cut == rest.len() - d,
                sub@ == rest.subrange(cut as int, rest.len() as int),
                sub@.len() == d,
                self.stack@ == rest.take(cut as int) + sub@.subrange(d - r, k as int),
                self.state == old(self).state,
                self.program == old(self).program,
            decreases d - k,
        {
            self.stack.push(sub[k]);
            proof {
                assert(sub@.subrange(d - r, k as int + 1) == sub@.subrange(d - r, k as int).push(
                    sub@[k as int],
                ));
                assert(self.stack@ == (rest.take(cut as int) + sub@.subrange(d - r, k as int)).push(
                    sub@[k as int],
                ));
                assert((rest.take(cut as int) + sub@.subrange(d - r, k as int)).push(
                    sub@[k as int],
                ) == rest.take(cut as int) + sub@.subrange(d - r, k as int + 1));
            }
            k += 1;
        }
        let stop = d - r;
        let mut k: usize = 0;
        while k < stop
            invariant
                0 <= k <= stop,
                stop == d - r,
                r < d,
                d <= rest.len(),
                cut == rest.len() - d,
                sub@ == rest.subrange(cut as int, rest.len() as int),
                sub@.len() == d,
                self.stack@ == rest.take(cut as int) + sub@.subrange(d - r, d as int)
                    + sub@.subrange(0, k as int),
                self.state == old(self).state,
                self.program == old(self).program,
            decreases stop - k,
        {
            self.stack.push(sub[k]);
            proof {
                assert(sub@.subrange(0, k as int + 1) == sub@.subrange(0, k as int).push(
                    sub@[k as int],
                ));
                assert(self.stack@ == (rest.take(cut as int) + sub@.subrange(d - r, d as int)
                    + sub@.subrange(0, k as int)).push(sub@[k as int]));
                assert((rest.take(cut as int) + sub@.subrange(d - r, d as int) + sub@.subrange(
                    0,
                    k as int,
                )).push(sub@[k as int]) == rest.take(cut as int) + sub@.subrange(d - r, d as int)
                    + sub@.subrange(0, k as int + 1));
            }
            k += 1;
        }
        proof {
            assert((rolls as int) % (depth as int) == r as int);
            assert(self.stack@ == spec_roll(s0));
        }
    }

    /// One execution step: look the current state up in the table, halt on
    /// a miss, abort on an error marker, surface input/output requests,
    /// and apply every other operation before moving to the target state.
    pub fn step(&mut self) -> (r: StepOutcome)
        ensures
            spec_step_rel(*old(self), *final(self), r),
    {
        let lookup: Option<(u64, Operation)> = match self.program.transitions.get(&self.state) {
            None => None,
            Some(p) => Some(*p),
        };
        match lookup {
            None => StepOutcome::Halted,
            Some((nx, op)) => match op {
                Operation::Error(e) => StepOutcome::Aborted(e),
                Operation::InNum => {
                    self.state = nx;
                    StepOutcome::NeedsNum
                },
                Operation::InChar => {
                    self.state = nx;
                    StepOutcome::NeedsChar
                },
                Operation::OutNum => {
                    self.state = nx;
                    if self.stack.len() >= 1 {
                        let v = match self.stack.pop() {
                            Some(v) => v,
                            None => vstd::pervasive::unreached(),
                        };
                        StepOutcome::EmitNum(v)
                    } else {
                        StepOutcome::Stepped
                    }
                },
                Operation::OutChar => {
                    self.state = nx;
                    if self.stack.len() >= 1 {
                        let v = match self.stack.pop() {
                            Some(v) => v,
                            None => vstd::pervasive::unreached(),
                        };
                        StepOutcome::EmitChar(v)
                    } else {
                        StepOutcome::Stepped
                    }
                },
                _ => {
                    self.state = nx;
                    self.execute_instruction(op);
                    StepOutcome::Stepped
                },
            },
        }
    }

    /// Hands the machine the value a NeedsNum or NeedsChar request was
    /// answered with: the read integer or character code, or nothing on
    /// input exhaustion or a parse failure, which pushes nothing.
    pub fn provide(&mut self, v: Option<i64>)
        ensures
            final(self).state == old(self).state,
            final(self).program == old(self).program,
            final(self).stack@ == match v {
                Some(n) => old(self).stack@.push(n),
                None => old(self).stack@,
            },
    {
        match v {
            Some(n) => self.stack.push(n),
            None => {},
        }
    }
}

} // verus!
