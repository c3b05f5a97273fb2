use vstd::prelude::*;
use vstd::arithmetic::div_mod::{lemma_add_mod_noop, lemma_small_mod, lemma_sub_mod_noop};
use crate::token::{Op, Token};
use crate::tree::{branch_view, lemma_branch_view_from, Branch, Node, NodeV, Tree};

verus! {

/// A fatal runtime condition.  Execution stops at once; none of these is
/// recoverable.
#[derive(Debug, Clone, Copy, PartialEq, Eq, Structural)]
pub enum RunErr {
    /// The data pointer would move left of address 0.
    PointerUnderflow,
    /// The data pointer would move past the last addressable cell.
    PointerOverflow,
    /// The input operator is defined but deliberately not implemented.
    InputUnsupported,
    /// The caller's step budget ran out: every re-entry of a loop costs one
    /// step, so a program that loops forever exhausts any budget.
    StepLimit,
}

/// The state left behind by a (partial) run: the tape, the data pointer,
/// the remaining step budget, the output produced, and the fault if one
/// stopped the run.
pub struct RunRes {
    pub tape: Seq<u8>,
    pub ptr: nat,
    pub steps: nat,
    pub out: Seq<char>,
    pub err: Option<RunErr>,
}

/// The tape grown just enough to make index `i` addressable, new cells 0.
pub open spec fn grown(tape: Seq<u8>, i: int) -> Seq<u8> {
    if i < tape.len() {
        tape
    } else {
        tape + Seq::new((i + 1 - tape.len()) as nat, |j: int| 0u8)
    }
}

/// A cell bumped up by `c`, wrapping modulo 256.
pub open spec fn add8(v: u8, c: nat) -> u8 {
    ((v + c) % 256) as u8
}

/// A cell bumped down by `c`, wrapping modulo 256.
pub open spec fn sub8(v: u8, c: nat) -> u8 {
    ((v - c) % 256) as u8
}

/// One level of the tree interpreted from node `i` on, against tape `tape`,
/// data pointer `ptr`, and a budget of `steps` loop re-entries:
/// - an `Internal` node runs its branch from its start, then the level
///   continues with whatever the branch left behind;
/// - `Inc`/`Dec` apply a whole counted run as one wrapping step, growing
///   the tape to the pointer; `Right`/`Left` move the pointer, faulting on
///   an unaddressable cell; `Output` appends the current cell's byte,
///   reinterpreted as a character, `count` times; `Input` faults;
/// - `JumpZero` on a zero cell skips the following node (the loop body);
///   `JumpNonZero` on a nonzero cell restarts the current level from its
///   beginning, spending one step of the budget.
#[verifier::opaque]
pub open spec fn run_level(lvl: Seq<NodeV>, i: int, tape: Seq<u8>, ptr: nat, steps: nat) -> RunRes
    decreases steps, lvl, lvl.len() - i,
{
    if i < 0 || i >= lvl.len() {
        RunRes { tape, ptr, steps, out: Seq::empty(), err: None }
    } else {
        match lvl[i] {
            NodeV::Internal(b) => {
                let sub = run_level(b, 0, tape, ptr, steps);
                if sub.err is Some {
                    sub
                } else {
                    let s2 = if sub.steps > steps {
                        steps
                    } else {
                        sub.steps
                    };
                    let rest = run_level(lvl, i + 1, sub.tape, sub.ptr, s2);
                    RunRes {
                        tape: rest.tape,
                        ptr: rest.ptr,
                        steps: rest.steps,
                        out: sub.out + rest.out,
                        err: rest.err,
                    }
                }
            },
            NodeV::Leaf(op) => {
                let c = op.count as nat;
                if op.token is Inc {
                    let t = grown(tape, ptr as int);
                    run_level(lvl, i + 1, t.update(ptr as int, add8(t[ptr as int], c)), ptr, steps)
                } else if op.token is Dec {
                    let t = grown(tape, ptr as int);
                    run_level(lvl, i + 1, t.update(ptr as int, sub8(t[ptr as int], c)), ptr, steps)
                } else if op.token is Right {
                    if ptr + c > usize::MAX {
                        RunRes { tape, ptr, steps, out: Seq::empty(), err: Some(RunErr::PointerOverflow) }
                    } else {
                        run_level(lvl, i + 1, tape, (ptr + c) as nat, steps)
                    }
                } else if op.token is Left {
                    if c > ptr {
                        RunRes { tape, ptr, steps, out: Seq::empty(), err: Some(RunErr::PointerUnderflow) }
                    } else {
                        run_level(lvl, i + 1, tape, (ptr - c) as nat, steps)
                    }
                } else if op.token is Output {
                    let t = grown(tape, ptr as int);
                    let rest = run_level(lvl, i + 1, t, ptr, steps);
                    RunRes {
                        tape: rest.tape,
                        ptr: rest.ptr,
                        steps: rest.steps,
                        out: Seq::new(c, |j: int| t[ptr as int] as char) + rest.out,
                        err: rest.err,
                    }
                } else if op.token is Input {
                    RunRes { tape, ptr, steps, out: Seq::empty(), err: Some(RunErr::InputUnsupported) }
                } else if op.token is JumpZero {
                    let t = grown(tape, ptr as int);
                    let skip = if i + 2 <= lvl.len() {
                        i + 2
                    } else {
                        lvl.len() as int
                    };
                    if t[ptr as int] == 0 {
                        run_level(lvl, skip, t, ptr, steps)
                    } else {
                        run_level(lvl, i + 1, t, ptr, steps)
                    }
                } else {
                    let t = grown(tape, ptr as int);
                    if t[ptr as int] != 0 {
                        if steps == 0 {
                            RunRes { tape: t, ptr, steps, out: Seq::empty(), err: Some(RunErr::StepLimit) }
                        } else {
                            run_level(lvl, 0, t, ptr, (steps - 1) as nat)
                        }
                    } else {
                        run_level(lvl, i + 1, t, ptr, steps)
                    }
                }
            },
        }
    }
}

/// A run never gains budget.
pub proof fn lemma_run_steps_mono(lvl: Seq<NodeV>, i: int, tape: Seq<u8>, ptr: nat, steps: nat)
    ensures
        run_level(lvl, i, tape, ptr, steps).steps <= steps,
    decreases steps, lvl, lvl.len() - i,
{
    reveal_with_fuel(run_level, 1);
    if 0 <= i < lvl.len() {
        match lvl[i] {
            NodeV::Internal(b) => {
                lemma_run_steps_mono(b, 0, tape, ptr, steps);
                let sub = run_level(b, 0, tape, ptr, steps);
                if !(sub.err is Some) {
                    lemma_run_steps_mono(lvl, i + 1, sub.tape, sub.ptr, sub.steps);
                }
            },
            NodeV::Leaf(op) => {
                let c = op.count as nat;
                let t = grown(tape, ptr as int);
                if op.token is Inc {
                    lemma_run_steps_mono(
                        lvl,
                        i + 1,
                        t.update(ptr as int, add8(t[ptr as int], c)),
                        ptr,
                        steps,
                    );
                } else if op.token is Dec {
                    lemma_run_steps_mono(
                        lvl,
                        i + 1,
                        t.update(ptr as int, sub8(t[ptr as int], c)),
                        ptr,
                        steps,
                    );
                } else if op.token is Right {
                    if ptr + c <= usize::MAX {
                        lemma_run_steps_mono(lvl, i + 1, tape, (ptr + c) as nat, steps);
                    }
                } else if op.token is Left {
                    if c <= ptr {
                        lemma_run_steps_mono(lvl, i + 1, tape, (ptr - c) as nat, steps);
                    }
                } else if op.token is Output {
                    lemma_run_steps_mono(lvl, i + 1, t, ptr, steps);
                } else if op.token is Input {
                } else if op.token is JumpZero {
                    let skip = if i + 2 <= lvl.len() {
                        i + 2
                    } else {
                        lvl.len() as int
                    };
                    if t[ptr as int] == 0 {
                        lemma_run_steps_mono(lvl, skip, t, ptr, steps);
                    } else {
                        lemma_run_steps_mono(lvl, i + 1, t, ptr, steps);
                    }
                } else {
                    if t[ptr as int] != 0 {
                        if steps > 0 {
                            lemma_run_steps_mono(lvl, 0, t, ptr, (steps - 1) as nat);
                        }
                    } else {
                        lemma_run_steps_mono(lvl, i + 1, t, ptr, steps);
                    }
                }
            },
        }
    }
}

/// Past the end of a level nothing happens: the state passes through.
pub proof fn lemma_run_level_base(lvl: Seq<NodeV>, i: int, tape: Seq<u8>, ptr: nat, steps: nat)
    requires
        i < 0 || i >= lvl.len(),
    ensures
        run_level(lvl, i, tape, ptr, steps) == (RunRes {
            tape,
            ptr,
            steps,
            out: Seq::empty(),
            err: None,
        }),
{
    reveal_with_fuel(run_level, 1);
}

/// `u` spells out `c` operation by operation from the cursors on: each
/// counted repeatable leaf of `c` as that many unit leaves, each
/// loop-control leaf as itself, and each loop body as an expanded loop
/// body.  Locations are not compared: running a tree never reads them.
pub open spec fn exp_from(c: Seq<NodeV>, ci: int, u: Seq<NodeV>, ui: int) -> bool
    decreases c, c.len() - ci,
{
    if ci < 0 || ui < 0 {
        false
    } else if ci >= c.len() {
        ui >= u.len()
    } else {
        match c[ci] {
            NodeV::Leaf(op) => {
                if op.token.is_repeatable() {
                    &&& op.count >= 1
                    &&& ui + op.count <= u.len()
                    &&& forall|j: int|
                        ui <= j < ui + op.count ==> ((#[trigger] u[j]) matches NodeV::Leaf(x)
                            && x.token == op.token && x.count == 1)
                    &&& exp_from(c, ci + 1, u, ui + op.count as int)
                } else {
                    &&& op.count == 1
                    &&& ui < u.len()
                    &&& (u[ui] matches NodeV::Leaf(x) && x.token == op.token && x.count == 1)
                    &&& exp_from(c, ci + 1, u, ui + 1)
                }
            },
            NodeV::Internal(b) => {
                &&& ui < u.len()
                &&& (u[ui] matches NodeV::Internal(b2) && exp_from(b, 0, b2, 0))
                &&& exp_from(c, ci + 1, u, ui + 1)
            },
        }
    }
}

/// Every `JumpZero` leaf is followed by an `Internal` node holding its
/// body, or ends its level; recursively so in every loop body.  Trees
/// built by parsing have this shape.
pub open spec fn guarded_from(lvl: Seq<NodeV>, i: int) -> bool
    decreases lvl, lvl.len() - i,
{
    if i < 0 || i >= lvl.len() {
        true
    } else {
        (match lvl[i] {
            NodeV::Internal(b) => guarded_from(b, 0),
            NodeV::Leaf(op) => op.token is JumpZero ==> (i + 1 >= lvl.len() || lvl[i
                + 1] is Internal),
        }) && guarded_from(lvl, i + 1)
    }
}

/// Two run results that agree on everything observable: the tape, the
/// output, the budget and the fault; and on the pointer whenever the run
/// did not fault (at a fault the two runs may stop mid-move).
pub open spec fn res_sim(a: RunRes, b: RunRes) -> bool {
    &&& a.tape == b.tape
    &&& a.out == b.out
    &&& a.steps == b.steps
    &&& a.err == b.err
    &&& a.err is None ==> a.ptr == b.ptr
}

/// One whole counted repeatable operation applied to the state, the level
/// continuing at `after`.
pub open spec fn counted_run(
    lvl: Seq<NodeV>,
    after: int,
    tk: Token,
    n: nat,
    tape: Seq<u8>,
    ptr: nat,
    steps: nat,
) -> RunRes {
    let t = grown(tape, ptr as int);
    if tk is Inc {
        run_level(lvl, after, t.update(ptr as int, add8(t[ptr as int], n)), ptr, steps)
    } else if tk is Dec {
        run_level(lvl, after, t.update(ptr as int, sub8(t[ptr as int], n)), ptr, steps)
    } else if tk is Right {
        if ptr + n > usize::MAX {
            RunRes { tape, ptr, steps, out: Seq::empty(), err: Some(RunErr::PointerOverflow) }
        } else {
            run_level(lvl, after, tape, (ptr + n) as nat, steps)
        }
    } else if tk is Left {
        if n > ptr {
            RunRes { tape, ptr, steps, out: Seq::empty(), err: Some(RunErr::PointerUnderflow) }
        } else {
            run_level(lvl, after, tape, (ptr - n) as nat, steps)
        }
    } else if tk is Output {
        let rest = run_level(lvl, after, t, ptr, steps);
        RunRes {
            tape: rest.tape,
            ptr: rest.ptr,
            steps: rest.steps,
            out: Seq::new(n, |j: int| t[ptr as int] as char) + rest.out,
            err: rest.err,
        }
    } else {
        RunRes { tape, ptr, steps, out: Seq::empty(), err: Some(RunErr::InputUnsupported) }
    }
}

/// A repeatable leaf runs as one counted operation.
proof fn lemma_leaf_is_counted(lvl: Seq<NodeV>, i: int, tape: Seq<u8>, ptr: nat, steps: nat)
    requires
        0 <= i < lvl.len(),
        lvl[i] matches NodeV::Leaf(op) && op.token.is_repeatable(),
    ensures
        (lvl[i] matches NodeV::Leaf(op) && run_level(lvl, i, tape, ptr, steps) == counted_run(
            lvl,
            i + 1,
            op.token,
            op.count as nat,
            tape,
            ptr,
            steps,
        )),
{
    reveal_with_fuel(run_level, 1);
}

/// A grown tape is long enough, and growing it again changes nothing.
proof fn lemma_grown_grown(tape: Seq<u8>, i: int)
    requires
        0 <= i,
    ensures
        i < grown(tape, i).len(),
        grown(grown(tape, i), i) == grown(tape, i),
        i < tape.len() ==> grown(tape, i) == tape,
{
}

/// Splitting one unit off a wrapped addition.
proof fn lemma_add8_assoc(v: u8, n: nat)
    requires
        n >= 1,
    ensures
        add8(add8(v, 1), (n - 1) as nat) == add8(v, n),
{
    lemma_small_mod((v + 1) as nat % 256, 256);
    lemma_add_mod_noop(v + 1, n - 1, 256);
    lemma_add_mod_noop((v + 1) % 256, n - 1, 256);
    lemma_small_mod(((v + 1) % 256) as nat, 256);
}

/// Splitting one unit off a wrapped subtraction.
proof fn lemma_sub8_assoc(v: u8, n: nat)
    requires
        n >= 1,
    ensures
        sub8(sub8(v, 1), (n - 1) as nat) == sub8(v, n),
{
    lemma_sub_mod_noop(v - 1, n - 1, 256);
    lemma_sub_mod_noop((v - 1) % 256, n - 1, 256);
    lemma_small_mod((((v - 1) % 256)) as nat, 256);
}

/// A run of `n` unit leaves of one repeatable kind runs as one counted
/// operation of count `n`.
#[verifier::rlimit(100)]
proof fn lemma_unit_run(
    u: Seq<NodeV>,
    ui: int,
    n: nat,
    tk: Token,
    tape: Seq<u8>,
    ptr: nat,
    steps: nat,
)
    requires
        tk.is_repeatable(),
        n >= 1,
        0 <= ui,
        ui + n <= u.len(),
        forall|j: int|
            ui <= j < ui + n ==> ((#[trigger] u[j]) matches NodeV::Leaf(x) && x.token == tk
                && x.count == 1),
    ensures
        res_sim(run_level(u, ui, tape, ptr, steps), counted_run(u, ui + n, tk, n, tape, ptr, steps)),
    decreases n,
{
    reveal_with_fuel(run_level, 1);
    let t1 = grown(tape, ptr as int);
    lemma_grown_grown(tape, ptr as int);
    let v = t1[ptr as int];
    lemma_leaf_is_counted(u, ui, tape, ptr, steps);
    let one = counted_run(u, ui + 1, tk, 1, tape, ptr, steps);
    if n == 1 {
    } else {
        let m = (n - 1) as nat;
        if tk is Inc {
            let t2 = t1.update(ptr as int, add8(v, 1));
            lemma_unit_run(u, ui + 1, m, tk, t2, ptr, steps);
            lemma_grown_grown(t2, ptr as int);
            assert(grown(t2, ptr as int) == t2);
            lemma_add8_assoc(v, n);
            assert(t2.update(ptr as int, add8(t2[ptr as int], m)) =~= t1.update(
                ptr as int,
                add8(v, n),
            ));
        } else if tk is Dec {
            let t2 = t1.update(ptr as int, sub8(v, 1));
            lemma_unit_run(u, ui + 1, m, tk, t2, ptr, steps);
            lemma_grown_grown(t2, ptr as int);
            lemma_sub8_assoc(v, n);
            assert(t2.update(ptr as int, sub8(t2[ptr as int], m)) =~= t1.update(
                ptr as int,
                sub8(v, n),
            ));
        } else if tk is Right {
            if ptr + 1 > usize::MAX {
            } else {
                lemma_unit_run(u, ui + 1, m, tk, tape, (ptr + 1) as nat, steps);
            }
        } else if tk is Left {
            if 1 > ptr {
            } else {
                lemma_unit_run(u, ui + 1, m, tk, tape, (ptr - 1) as nat, steps);
            }
        } else if tk is Output {
            lemma_unit_run(u, ui + 1, m, tk, t1, ptr, steps);
            lemma_grown_grown(t1, ptr as int);
            let rest = run_level(u, ui + n, t1, ptr, steps);
            assert(Seq::new(1, |j: int| v as char) + (Seq::new(m, |j: int| v as char)
                + rest.out) =~= Seq::new(n, |j: int| v as char) + rest.out);
        } else {
        }
    }
}

/// A level and its spelled-out expansion run alike from aligned cursors:
/// same tape, output, budget and fault, and the same pointer wherever no
/// fault stopped the run.
#[verifier::rlimit(100)]
proof fn lemma_run_expansion(
    c: Seq<NodeV>,
    ci: int,
    u: Seq<NodeV>,
    ui: int,
    tape: Seq<u8>,
    ptr: nat,
    steps: nat,
)
    requires
        0 <= ci <= c.len(),
        0 <= ui <= u.len(),
        exp_from(c, 0, u, 0),
        guarded_from(c, 0),
        exp_from(c, ci, u, ui),
        guarded_from(c, ci),
    ensures
        res_sim(run_level(u, ui, tape, ptr, steps), run_level(c, ci, tape, ptr, steps)),
    decreases steps, c, c.len() - ci, 1int,
{
    reveal_with_fuel(run_level, 1);
    reveal_with_fuel(exp_from, 3);
    reveal_with_fuel(guarded_from, 3);
    if ci == c.len() {
        assert(ui == u.len());
    } else {
        match c[ci] {
            NodeV::Internal(b) => {
                let b2 = u[ui]->Internal_0;
                let sub_c = run_level(b, 0, tape, ptr, steps);
                let sub_u = run_level(b2, 0, tape, ptr, steps);
                lemma_run_expansion(b, 0, b2, 0, tape, ptr, steps);
                lemma_run_steps_mono(b, 0, tape, ptr, steps);
                if sub_c.err is Some {
                } else {
                    let s2 = if sub_c.steps > steps {
                        steps
                    } else {
                        sub_c.steps
                    };
                    lemma_run_expansion(c, ci + 1, u, ui + 1, sub_c.tape, sub_c.ptr, s2);
                }
            },
            NodeV::Leaf(op) => {
                if op.token.is_repeatable() {
                    lemma_run_expansion_repeatable(c, ci, u, ui, tape, ptr, steps);
                } else {
                    lemma_run_expansion_jump(c, ci, u, ui, tape, ptr, steps);
                }
            },
        }
    }
}

/// The loop-control cases of the expansion simulation.
#[verifier::rlimit(100)]
proof fn lemma_run_expansion_jump(
    c: Seq<NodeV>,
    ci: int,
    u: Seq<NodeV>,
    ui: int,
    tape: Seq<u8>,
    ptr: nat,
    steps: nat,
)
    requires
        0 <= ci < c.len(),
        0 <= ui <= u.len(),
        exp_from(c, 0, u, 0),
        guarded_from(c, 0),
        exp_from(c, ci, u, ui),
        guarded_from(c, ci),
        c[ci] matches NodeV::Leaf(op) && !op.token.is_repeatable(),
    ensures
        res_sim(run_level(u, ui, tape, ptr, steps), run_level(c, ci, tape, ptr, steps)),
    decreases steps, c, c.len() - ci, 0int,
{
    reveal_with_fuel(run_level, 2);
    reveal_with_fuel(exp_from, 3);
    reveal_with_fuel(guarded_from, 3);
    let op = c[ci]->Leaf_0;
    let t1 = grown(tape, ptr as int);
    if op.token is JumpZero {
        if t1[ptr as int] == 0 {
            if ci + 1 < c.len() {
                assert(c[ci + 1] is Internal);
                lemma_run_expansion(c, ci + 2, u, ui + 2, t1, ptr, steps);
            } else {
                assert(ui + 1 == u.len());
                lemma_run_level_base(c, c.len() as int, t1, ptr, steps);
                lemma_run_level_base(u, u.len() as int, t1, ptr, steps);
            }
        } else {
            lemma_run_expansion(c, ci + 1, u, ui + 1, t1, ptr, steps);
        }
    } else {
        if t1[ptr as int] != 0 {
            if steps == 0 {
            } else {
                lemma_run_expansion(c, 0, u, 0, t1, ptr, (steps - 1) as nat);
            }
        } else {
            lemma_run_expansion(c, ci + 1, u, ui + 1, t1, ptr, steps);
        }
    }
}

/// The repeatable-leaf case of the expansion simulation.
#[verifier::rlimit(100)]
proof fn lemma_run_expansion_repeatable(
    c: Seq<NodeV>,
    ci: int,
    u: Seq<NodeV>,
    ui: int,
    tape: Seq<u8>,
    ptr: nat,
    steps: nat,
)
    requires
        0 <= ci < c.len(),
        0 <= ui <= u.len(),
        exp_from(c, 0, u, 0),
        guarded_from(c, 0),
        exp_from(c, ci, u, ui),
        guarded_from(c, ci),
        c[ci] matches NodeV::Leaf(op) && op.token.is_repeatable(),
    ensures
        res_sim(run_level(u, ui, tape, ptr, steps), run_level(c, ci, tape, ptr, steps)),
    decreases steps, c, c.len() - ci, 0int,
{
    reveal_with_fuel(run_level, 1);
    let op = c[ci]->Leaf_0;
    let n = op.count as nat;
    lemma_leaf_is_counted(c, ci, tape, ptr, steps);
    lemma_unit_run(u, ui, n, op.token, tape, ptr, steps);
    let t1 = grown(tape, ptr as int);
    lemma_grown_grown(tape, ptr as int);
    let v = t1[ptr as int];
    if op.token is Inc {
        lemma_run_expansion(
            c,
            ci + 1,
            u,
            ui + n as int,
            t1.update(ptr as int, add8(v, n)),
            ptr,
            steps,
        );
    } else if op.token is Dec {
        lemma_run_expansion(
            c,
            ci + 1,
            u,
            ui + n as int,
            t1.update(ptr as int, sub8(v, n)),
            ptr,
            steps,
        );
    } else if op.token is Right {
        if ptr + n <= usize::MAX {
            lemma_run_expansion(c, ci + 1, u, ui + n as int, tape, (ptr + n) as nat, steps);
        }
    } else if op.token is Left {
        if n <= ptr {
            lemma_run_expansion(c, ci + 1, u, ui + n as int, tape, (ptr - n) as nat, steps);
        }
    } else if op.token is Output {
        lemma_run_expansion(c, ci + 1, u, ui + n as int, t1, ptr, steps);
    } else {
    }
}

/// A collapsed tree and a tree that spells it out one unit operation per
/// counted repetition interpret alike: the same output, the same final
/// tape, the same spent budget and the same fault if any, against any
/// starting tape, pointer and budget.  Loop-control leaves are never
/// merged, so the two trees take every loop decision in step.
pub proof fn lemma_expansion_runs_alike(
    c: Seq<NodeV>,
    u: Seq<NodeV>,
    tape: Seq<u8>,
    ptr: nat,
    steps: nat,
)
    requires
        exp_from(c, 0, u, 0),
        guarded_from(c, 0),
    ensures
        res_sim(run_level(u, 0, tape, ptr, steps), run_level(c, 0, tape, ptr, steps)),
{
    lemma_run_expansion(c, 0, u, 0, tape, ptr, steps);
}

/// Grows the tape so that index `i` is addressable, filling new cells with
/// 0, and returns the cell at `i`.
fn read_cell(mem: &mut Vec<u8>, i: usize) -> (v: u8)
    ensures
        final(mem)@ == grown(old(mem)@, i as int),
        i < final(mem)@.len(),
        v == final(mem)@[i as int],
{
    let ghost t0 = mem@;
    while mem.len() <= i
        invariant
            t0.len() <= mem@.len() <= i + 1 || mem@ == t0,
            t0.len() > i ==> mem@ == t0,
            mem@.len() > t0.len() ==> mem@ == t0 + Seq::new((mem@.len() - t0.len()) as nat, |j: int| 0u8),
            mem@.len() == t0.len() ==> mem@ == t0,
        decreases i + 1 - mem@.len(),
    {
        mem.push(0u8);
        proof {
            assert(mem@ =~= t0 + Seq::new((mem@.len() - t0.len()) as nat, |j: int| 0u8));
        }
    }
    proof {
        if t0.len() <= i {
            assert(mem@.len() == i + 1);
            assert(mem@ =~= grown(t0, i as int));
        }
    }
    mem[i]
}

/// Grows the tape so that index `i` is addressable and stores `v` there.
fn write_cell(mem: &mut Vec<u8>, i: usize, v: u8)
    ensures
        final(mem)@ == grown(old(mem)@, i as int).update(i as int, v),
{
    let _ = read_cell(mem, i);
    mem[i] = v;
}

/// Applies a whole `Inc` run: one wrapping addition of `count` to the cell
/// at `p`, growing the tape to it.
fn bump_add(mem: &mut Vec<u8>, p: usize, count: usize)
    ensures
        final(mem)@ == ({
            let t = grown(old(mem)@, p as int);
            t.update(p as int, add8(t[p as int], count as nat))
        }),
{
    let v = read_cell(mem, p);
    let nv = v.wrapping_add((count % 256) as u8);
    proof {
        lemma_wrap_add(v, count);
    }
    write_cell(mem, p, nv);
}

/// Applies a whole `Dec` run: one wrapping subtraction of `count` from the
/// cell at `p`, growing the tape to it.
fn bump_sub(mem: &mut Vec<u8>, p: usize, count: usize)
    ensures
        final(mem)@ == ({
            let t = grown(old(mem)@, p as int);
            t.update(p as int, sub8(t[p as int], count as nat))
        }),
{
    let v = read_cell(mem, p);
    let nv = v.wrapping_sub((count % 256) as u8);
    proof {
        lemma_wrap_sub(v, count);
    }
    write_cell(mem, p, nv);
}

/// Applies a whole `Output` run: appends the cell at `p`, reinterpreted as
/// a character, `count` times, growing the tape to the cell.
fn emit(mem: &mut Vec<u8>, p: usize, count: usize, output: &mut Vec<char>)
    ensures
        final(mem)@ == grown(old(mem)@, p as int),
        final(output)@ == old(output)@ + Seq::new(
            count as nat,
            |j: int| grown(old(mem)@, p as int)[p as int] as char,
        ),
{
    let ghost pre_out = output@;
    let v = read_cell(mem, p);
    let mut k: usize = 0;
    while k < count
        invariant
            k <= count,
            output@ == pre_out + Seq::new(k as nat, |j: int| v as char),
        decreases count - k,
    {
        output.push(v as char);
        proof {
            assert(output@ =~= pre_out + Seq::new((k + 1) as nat, |j: int| v as char));
        }
        k = k + 1;
    }
}

/// What a leaf operation decides about control flow at its level.
enum LeafNext {
    /// Fall through to the next node.
    Advance,
    /// Skip the next node: a `JumpZero` over its loop body.
    SkipBody,
    /// Restart the current level from its beginning: a taken `JumpNonZero`.
    Restart,
}

/// Executes one leaf operation against the tape, pointer, budget and
/// output, and reports where the level's traversal continues, exactly as
/// one unfolding of [`run_level`] at `lvl[i]` says.
fn leaf_step(
    op: &Op,
    mem: &mut Vec<u8>,
    ptr: &mut usize,
    steps: &mut usize,
    output: &mut Vec<char>,
    Ghost(lvl): Ghost<Seq<NodeV>>,
    Ghost(i): Ghost<int>,
) -> (r: Result<LeafNext, RunErr>)
    requires
        0 <= i < lvl.len(),
        lvl[i] == NodeV::Leaf(*op),
    ensures
        *final(steps) <= *old(steps),
        r == Ok::<LeafNext, RunErr>(LeafNext::Restart) ==> *final(steps) < *old(steps),
        ({
            let rest_here = run_level(lvl, i, old(mem)@, *old(ptr) as nat, *old(steps) as nat);
            match r {
                Ok(nx) => ({
                    let next = match nx {
                        LeafNext::Advance => i + 1,
                        LeafNext::SkipBody => if i + 2 <= lvl.len() {
                            i + 2
                        } else {
                            lvl.len() as int
                        },
                        LeafNext::Restart => 0,
                    };
                    let rest2 = run_level(lvl, next, final(mem)@, *final(ptr) as nat, *final(steps) as nat);
                    let e = final(output)@.skip(old(output)@.len() as int);
                    final(output)@ == old(output)@ + e && rest_here.tape == rest2.tape
                        && rest_here.ptr == rest2.ptr && rest_here.steps == rest2.steps
                        && rest_here.err == rest2.err && rest_here.out == e + rest2.out
                }),
                Err(ec) => rest_here.err == Some(ec) && final(mem)@ == rest_here.tape
                    && *final(ptr) as nat == rest_here.ptr
                    && *final(steps) as nat == rest_here.steps
                    && final(output)@ == old(output)@,
            }
        }),
{
    proof {
        reveal_with_fuel(run_level, 1);
    }
    let ghost e0 = Seq::<char>::empty();
    let count = op.count;
    match op.token {
        crate::token::Token::Inc => {
            bump_add(mem, *ptr, count);
            proof {
                assert(final(output)@.skip(old(output)@.len() as int) =~= e0);
                assert(old(output)@ + e0 =~= old(output)@);
            }
            Ok(LeafNext::Advance)
        },
        crate::token::Token::Dec => {
            bump_sub(mem, *ptr, count);
            proof {
                assert(final(output)@.skip(old(output)@.len() as int) =~= e0);
                assert(old(output)@ + e0 =~= old(output)@);
            }
            Ok(LeafNext::Advance)
        },
        crate::token::Token::Right => {
            match p_checked_add(*ptr, count) {
                Some(np) => {
                    *ptr = np;
                    proof {
                        assert(final(output)@.skip(old(output)@.len() as int) =~= e0);
                        assert(old(output)@ + e0 =~= old(output)@);
                    }
                    Ok(LeafNext::Advance)
                },
                None => Err(RunErr::PointerOverflow),
            }
        },
        crate::token::Token::Left => {
            match p_checked_sub(*ptr, count) {
                Some(np) => {
                    *ptr = np;
                    proof {
                        assert(final(output)@.skip(old(output)@.len() as int) =~= e0);
                        assert(old(output)@ + e0 =~= old(output)@);
                    }
                    Ok(LeafNext::Advance)
                },
                None => Err(RunErr::PointerUnderflow),
            }
        },
        crate::token::Token::Output => {
            emit(mem, *ptr, count, output);
            proof {
                let em = Seq::new(
                    count as nat,
                    |j: int| grown(old(mem)@, *old(ptr) as int)[*old(ptr) as int] as char,
                );
                assert(final(output)@.skip(old(output)@.len() as int) =~= em);
            }
            Ok(LeafNext::Advance)
        },
        crate::token::Token::Input => Err(RunErr::InputUnsupported),
        crate::token::Token::JumpZero => {
            let v = read_cell(mem, *ptr);
            proof {
                assert(final(output)@.skip(old(output)@.len() as int) =~= e0);
                assert(old(output)@ + e0 =~= old(output)@);
            }
            if v == 0 {
                Ok(LeafNext::SkipBody)
            } else {
                Ok(LeafNext::Advance)
            }
        },
        crate::token::Token::JumpNonZero => {
            let v = read_cell(mem, *ptr);
            if v != 0 {
                let f = *steps;
                if f == 0 {
                    return Err(RunErr::StepLimit);
                }
                *steps = f - 1;
                proof {
                    assert(final(output)@.skip(old(output)@.len() as int) =~= e0);
                    assert(old(output)@ + e0 =~= old(output)@);
                }
                Ok(LeafNext::Restart)
            } else {
                proof {
                    assert(final(output)@.skip(old(output)@.len() as int) =~= e0);
                    assert(old(output)@ + e0 =~= old(output)@);
                }
                Ok(LeafNext::Advance)
            }
        },
    }
}

/// Runs one `Internal` node: interprets its branch against the shared tape
/// and pointer, and splices the branch's output into this level's.
fn internal_step(
    branch: &Branch<Op>,
    mem: &mut Vec<u8>,
    ptr: &mut usize,
    steps: &mut usize,
    output: &mut Vec<char>,
    Ghost(lvl): Ghost<Seq<NodeV>>,
    Ghost(i): Ghost<int>,
) -> (r: Result<(), RunErr>)
    requires
        0 <= i < lvl.len(),
        lvl[i] == NodeV::Internal(branch_view(*branch)),
    ensures
        *final(steps) <= *old(steps),
        ({
            let rest_here = run_level(lvl, i, old(mem)@, *old(ptr) as nat, *old(steps) as nat);
            match r {
                Ok(_) => ({
                    let rest2 = run_level(
                        lvl,
                        i + 1,
                        final(mem)@,
                        *final(ptr) as nat,
                        *final(steps) as nat,
                    );
                    let e = final(output)@.skip(old(output)@.len() as int);
                    final(output)@ == old(output)@ + e && rest_here.tape == rest2.tape
                        && rest_here.ptr == rest2.ptr && rest_here.steps == rest2.steps
                        && rest_here.err == rest2.err && rest_here.out == e + rest2.out
                }),
                Err(ec) => rest_here.err == Some(ec) && final(mem)@ == rest_here.tape
                    && *final(ptr) as nat == rest_here.ptr
                    && *final(steps) as nat == rest_here.steps
                    && final(output)@ == old(output)@,
            }
        }),
    decreases *branch, 1int,
{
    proof {
        reveal_with_fuel(run_level, 1);
    }
    let ghost pre_mem = mem@;
    let ghost pre_ptr = *ptr as nat;
    let ghost pre_steps = *steps as nat;
    let ghost subr = run_level(branch_view(*branch), 0, pre_mem, pre_ptr, pre_steps);
    let sub = interpret(branch, mem, ptr, steps);
    proof {
        lemma_run_steps_mono(branch_view(*branch), 0, pre_mem, pre_ptr, pre_steps);
    }
    match sub {
        Ok(mut sub_out) => {
            output.append(&mut sub_out);
            proof {
                assert(final(output)@.skip(old(output)@.len() as int) =~= subr.out);
            }
            Ok(())
        },
        Err(e) => {
            proof {
                assert(run_level(lvl, i, pre_mem, pre_ptr, pre_steps) == subr);
            }
            Err(e)
        },
    }
}

/// Walks the tree against the tape `memlayout` and data pointer `ptr`,
/// producing the program's output, with `steps` bounding how many times a
/// loop may be re-entered.  On a fault the tape, pointer and remaining
/// budget still land exactly where [`run_level`] says; the output gathered
/// up to the fault is discarded.
#[verifier::rlimit(100)]
#[verifier::loop_isolation(false)]
pub fn interpret(
    ast: &Tree<Op>,
    memlayout: &mut Vec<u8>,
    ptr: &mut usize,
    steps: &mut usize,
) -> (r: Result<Vec<char>, RunErr>)
    ensures
        ({
            let res = run_level(
                branch_view(*ast),
                0,
                old(memlayout)@,
                *old(ptr) as nat,
                *old(steps) as nat,
            );
            final(memlayout)@ == res.tape && *final(ptr) == res.ptr && *final(steps) == res.steps
                && *final(steps) <= *old(steps) && (match r {
                Ok(out) => res.err is None && out@ == res.out,
                Err(e) => res.err == Some(e),
            })
        }),
    decreases *ast, 0int,
{
    let ghost lvl = branch_view(*ast);
    let ghost t0 = memlayout@;
    let ghost p0 = *ptr as nat;
    let ghost f0 = *steps as nat;
    proof {
        lemma_branch_view_from(*ast, 0);
    }
    let mut output: Vec<char> = Vec::new();
    let mut i: usize = 0;
    proof {
        let rest = run_level(lvl, 0, t0, p0, f0);
        assert(Seq::<char>::empty() + rest.out =~= rest.out);
    }
    while i < ast.len()
        invariant
            lvl == branch_view(*ast),
            lvl.len() == ast@.len(),
            i <= ast@.len(),
            ({
                let rest = run_level(lvl, i as int, memlayout@, *ptr as nat, *steps as nat);
                let full = run_level(lvl, 0, t0, p0, f0);
                full.tape == rest.tape && full.ptr == rest.ptr && full.steps == rest.steps
                    && full.err == rest.err && full.out == output@ + rest.out
            }),
            *steps <= f0,
            forall|j: int| 0 <= j < lvl.len() ==> lvl[j] == crate::tree::node_view(ast@[j]),
        decreases *steps, ast@.len() - i,
    {
        let ghost pre_out = output@;
        let ghost rest_here = run_level(lvl, i as int, memlayout@, *ptr as nat, *steps as nat);
        match &ast[i] {
            Node::Internal(branch) => {
                proof {
                    assert(lvl[i as int] == NodeV::Internal(branch_view(*branch)));
                }
                let res = internal_step(
                    branch,
                    memlayout,
                    ptr,
                    steps,
                    &mut output,
                    Ghost(lvl),
                    Ghost(i as int),
                );
                match res {
                    Ok(_) => {
                        i = i + 1;
                        proof {
                            let e = output@.skip(pre_out.len() as int);
                            let rest2 = run_level(
                                lvl,
                                i as int,
                                memlayout@,
                                *ptr as nat,
                                *steps as nat,
                            );
                            assert(rest_here.out == e + rest2.out);
                            assert(pre_out + (e + rest2.out) =~= (pre_out + e) + rest2.out);
                        }
                    },
                    Err(ec) => {
                        return Err(ec);
                    },
                }
            },
            Node::Leaf(op) => {
                let res = leaf_step(
                    op,
                    memlayout,
                    ptr,
                    steps,
                    &mut output,
                    Ghost(lvl),
                    Ghost(i as int),
                );
                match res {
                    Ok(nx) => {
                        match nx {
                            LeafNext::Advance => {
                                i = i + 1;
                            },
                            LeafNext::SkipBody => {
                                i = i + 1;
                                if i < ast.len() {
                                    i = i + 1;
                                }
                            },
                            LeafNext::Restart => {
                                i = 0;
                            },
                        }
                        proof {
                            let e = output@.skip(pre_out.len() as int);
                            let rest2 = run_level(
                                lvl,
                                i as int,
                                memlayout@,
                                *ptr as nat,
                                *steps as nat,
                            );
                            assert(rest_here.out == e + rest2.out);
                            assert(pre_out + (e + rest2.out) =~= (pre_out + e) + rest2.out);
                        }
                    },
                    Err(ec) => {
                        return Err(ec);
                    },
                }
            },
        }
    }
    proof {
        lemma_run_level_base(lvl, i as int, memlayout@, *ptr as nat, *steps as nat);
        assert(output@ + Seq::<char>::empty() =~= output@);
    }
    Ok(output)
}

/// `checked_add` on the data pointer.
fn p_checked_add(p: usize, c: usize) -> (r: Option<usize>)
    ensures
        p + c > usize::MAX ==> r is None,
        p + c <= usize::MAX ==> r == Some((p + c) as usize),
{
    p.checked_add(c)
}

/// `checked_sub` on the data pointer.
fn p_checked_sub(p: usize, c: usize) -> (r: Option<usize>)
    ensures
        c > p ==> r is None,
        c <= p ==> r == Some((p - c) as usize),
{
    p.checked_sub(c)
}

/// Wrapping a count into a byte first does not change the wrapped sum.
proof fn lemma_wrap_add(v: u8, count: usize)
    ensures
        vstd::wrapping::u8_specs::wrapping_add(v, (count % 256) as u8) == add8(v, count as nat),
{
    lemma_small_mod(v as nat, 256);
    lemma_add_mod_noop(v as int, count as int, 256);
}

/// Wrapping a count into a byte first does not change the wrapped difference.
proof fn lemma_wrap_sub(v: u8, count: usize)
    ensures
        vstd::wrapping::u8_specs::wrapping_sub(v, (count % 256) as u8) == sub8(v, count as nat),
{
    lemma_small_mod(v as nat, 256);
    lemma_sub_mod_noop(v as int, count as int, 256);
}

} // verus!
