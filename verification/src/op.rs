//! Instructions, and the nesting depth of a sequence of them.

use vstd::prelude::*;

verus! {

/// One instruction of a program.
///
/// `Loop(t)` opens a loop; `t` is the index just past the `Back` that closes
/// it. `Back(t)` closes a loop; `t` is the index of the `Loop` that opened it.
#[derive(Clone, Copy, Debug, PartialEq, Eq, Structural)]
pub enum Op {
    /// Move the data pointer one cell to the right.
    Next,
    /// Move the data pointer one cell to the left.
    Prev,
    /// Add one to the current cell, modulo 256.
    Incr,
    /// Subtract one from the current cell, modulo 256.
    Decr,
    /// Write the current cell to the output.
    Dump,
    /// Read one byte of input into the current cell.
    Eat,
    /// Skip the loop if the current cell is zero.
    Loop(usize),
    /// Repeat the loop if the current cell is not zero.
    Back(usize),
}

/// The instruction with its jump target forgotten.
pub open spec fn untargeted(op: Op) -> Op {
    match op {
        Op::Loop(_) => Op::Loop(0),
        Op::Back(_) => Op::Back(0),
        other => other,
    }
}

/// Two programs of the same length whose instructions differ in targets at most.
pub open spec fn same_shape(a: Seq<Op>, b: Seq<Op>) -> bool {
    &&& a.len() == b.len()
    &&& forall|k: int| 0 <= k < a.len() ==> untargeted(#[trigger] a[k]) == untargeted(b[k])
}

/// What an instruction adds to the nesting depth.
pub open spec fn delta(op: Op) -> int {
    match op {
        Op::Loop(_) => 1,
        Op::Back(_) => -1,
        _ => 0,
    }
}

/// Loops opened minus loops closed among the first `k` instructions.
pub open spec fn depth(ops: Seq<Op>, k: int) -> int
    recommends
        0 <= k <= ops.len(),
    decreases k,
{
    if k <= 0 {
        0
    } else {
        depth(ops, k - 1) + delta(ops[k - 1])
    }
}

/// Some `Back` closes a loop that was never opened.
pub open spec fn closes_too_many(ops: Seq<Op>) -> bool {
    exists|k: int| 0 <= k <= ops.len() && #[trigger] depth(ops, k) < 0
}

/// Every `Back` closes an open loop and no loop stays open.
pub open spec fn balanced(ops: Seq<Op>) -> bool {
    !closes_too_many(ops) && depth(ops, ops.len() as int) == 0
}

/// The `Loop` at `i` and the `Back` at `j` delimit one loop: the depth first
/// returns to its value before `i` right after `j`.
pub open spec fn paired(ops: Seq<Op>, i: int, j: int) -> bool {
    &&& 0 <= i < j < ops.len()
    &&& ops[i] is Loop
    &&& ops[j] is Back
    &&& depth(ops, j + 1) == depth(ops, i)
    &&& forall|k: int| i < k <= j ==> #[trigger] depth(ops, k) > depth(ops, i)
}

/// The instruction at `i` carries the target its partner dictates.
pub open spec fn resolved_at(ops: Seq<Op>, i: int) -> bool {
    match ops[i] {
        Op::Loop(t) => i < t <= ops.len() && ops[t - 1] == Op::Back(i as usize) && paired(
            ops,
            i,
            t - 1,
        ),
        Op::Back(t) => t < i && ops[t as int] == Op::Loop((i + 1) as usize) && paired(
            ops,
            t as int,
            i,
        ),
        _ => true,
    }
}

/// Every bracket of the program points at its partner.
pub open spec fn resolved(ops: Seq<Op>) -> bool {
    forall|i: int| 0 <= i < ops.len() ==> #[trigger] resolved_at(ops, i)
}

/// The depth up to `n` depends only on the kinds of the first `n` instructions.
pub proof fn lemma_depth_agrees(a: Seq<Op>, b: Seq<Op>, n: int)
    requires
        0 <= n <= a.len(),
        n <= b.len(),
        forall|j: int| 0 <= j < n ==> delta(#[trigger] a[j]) == delta(b[j]),
    ensures
        forall|k: int|
            #![trigger depth(a, k)]
            #![trigger depth(b, k)]
            0 <= k <= n ==> depth(a, k) == depth(b, k),
    decreases n,
{
    if n > 0 {
        lemma_depth_agrees(a, b, n - 1);
        assert(depth(a, n) == depth(a, n - 1) + delta(a[n - 1]));
        assert(depth(b, n) == depth(b, n - 1) + delta(b[n - 1]));
    }
}

} // verus!
