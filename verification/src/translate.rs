//! From source bytes to a program with resolved loop targets.

use crate::op::{balanced, closes_too_many, delta, depth, lemma_depth_agrees, paired, resolved, resolved_at, same_shape, untargeted, Op};
use vstd::prelude::*;

verus! {

/// Why a source text is not a program.
#[derive(Clone, Copy, Debug, PartialEq, Eq, Structural)]
pub enum SyntaxError {
    /// A `[` has no `]` after it.
    UnmatchedOpen,
    /// A `]` has no `[` before it.
    UnmatchedClose,
}

/// The instruction a source byte stands for, brackets with target zero;
/// `None` for a byte that is commentary.
pub open spec fn op_of_byte(b: u8) -> Option<Op> {
    if b == 62 {
        Some(Op::Next)
    } else if b == 60 {
        Some(Op::Prev)
    } else if b == 43 {
        Some(Op::Incr)
    } else if b == 45 {
        Some(Op::Decr)
    } else if b == 46 {
        Some(Op::Dump)
    } else if b == 44 {
        Some(Op::Eat)
    } else if b == 91 {
        Some(Op::Loop(0))
    } else if b == 93 {
        Some(Op::Back(0))
    } else {
        None
    }
}

/// The instructions of a source text in order, commentary dropped and every
/// target left at zero.
pub open spec fn shape(src: Seq<u8>) -> Seq<Op>
    decreases src.len(),
{
    if src.len() == 0 {
        Seq::empty()
    } else {
        let before = shape(src.drop_last());
        match op_of_byte(src.last()) {
            Some(op) => before.push(op),
            None => before,
        }
    }
}

/// `r` is the translation of `src`: the program with the shape of `src` and
/// every bracket pointing at its partner, or the error that names the first
/// thing wrong with the brackets.
pub open spec fn translates(src: Seq<u8>, r: Result<Seq<Op>, SyntaxError>) -> bool {
    let sh = shape(src);
    match r {
        Ok(ops) => balanced(sh) && same_shape(ops, sh) && resolved(ops),
        Err(SyntaxError::UnmatchedClose) => closes_too_many(sh),
        Err(SyntaxError::UnmatchedOpen) => !closes_too_many(sh) && depth(sh, sh.len() as int) > 0,
    }
}

/// The `Loop`s still open, innermost last: the one at `stack[k]` sits at
/// depth `k` and the depth has stayed above `k` ever since.
spec fn open_loops(ops: Seq<Op>, stack: Seq<usize>) -> bool {
    forall|k: int|
        0 <= k < stack.len() ==> {
            &&& (#[trigger] stack[k]) < ops.len()
            &&& ops[stack[k] as int] == Op::Loop(0)
            &&& depth(ops, stack[k] as int) == k
            &&& forall|p: int| stack[k] < p <= ops.len() ==> #[trigger] depth(ops, p) > k
        }
}

/// The instruction at `i` is a `Loop` waiting on the stack, or is resolved.
spec fn settled_at(ops: Seq<Op>, stack: Seq<usize>, i: int) -> bool {
    if ops[i] == Op::Loop(0) {
        0 <= depth(ops, i) < stack.len() && stack[depth(ops, i)] == i
    } else {
        resolved_at(ops, i)
    }
}

/// What holds of the instructions emitted so far and the stack of open loops.
spec fn partial(ops: Seq<Op>, stack: Seq<usize>) -> bool {
    &&& forall|k: int| 0 <= k <= ops.len() ==> #[trigger] depth(ops, k) >= 0
    &&& stack.len() == depth(ops, ops.len() as int)
    &&& open_loops(ops, stack)
    &&& forall|i: int| 0 <= i < ops.len() ==> #[trigger] settled_at(ops, stack, i)
}

/// Emitting an instruction that is no bracket keeps `partial`.
proof fn lemma_emit_plain(ops: Seq<Op>, stack: Seq<usize>, op: Op)
    requires
        partial(ops, stack),
        delta(op) == 0,
    ensures
        partial(ops.push(op), stack),
{
    let m = ops.len() as int;
    let ops2 = ops.push(op);
    lemma_depth_agrees(ops, ops2, m);
    assert(depth(ops2, m + 1) == depth(ops2, m) + delta(ops2[m]));
    assert forall|i: int| 0 <= i < ops2.len() implies #[trigger] settled_at(ops2, stack, i) by {
        if i < m {
            assert(settled_at(ops, stack, i));
        }
    }
}

/// Emitting a `Loop` and pushing its index keeps `partial`.
proof fn lemma_emit_open(ops: Seq<Op>, stack: Seq<usize>)
    requires
        partial(ops, stack),
        ops.len() <= usize::MAX,
    ensures
        partial(ops.push(Op::Loop(0)), stack.push(ops.len() as usize)),
{
    let m = ops.len() as int;
    let ops2 = ops.push(Op::Loop(0));
    let stack2 = stack.push(m as usize);
    lemma_depth_agrees(ops, ops2, m);
    assert(depth(ops2, m + 1) == depth(ops2, m) + delta(ops2[m]));
    assert forall|i: int| 0 <= i < ops2.len() implies #[trigger] settled_at(ops2, stack2, i) by {
        if i < m {
            assert(settled_at(ops, stack, i));
        }
    }
}

/// Popping the innermost open `Loop`, pointing it past the end and emitting
/// the `Back` that points at it keeps `partial`: the two are paired.
proof fn lemma_emit_close(ops: Seq<Op>, stack: Seq<usize>)
    requires
        partial(ops, stack),
        stack.len() > 0,
        ops.len() < usize::MAX,
    ensures
        partial(
            ops.update(stack.last() as int, Op::Loop((ops.len() + 1) as usize)).push(
                Op::Back(stack.last()),
            ),
            stack.drop_last(),
        ),
{
    let m = ops.len() as int;
    let j = stack.last() as int;
    let ops2 = ops.update(j, Op::Loop((m + 1) as usize)).push(Op::Back(j as usize));
    let stack2 = stack.drop_last();
    assert(stack[stack.len() - 1] == j);
    lemma_depth_agrees(ops, ops2, m);
    assert(depth(ops2, m + 1) == depth(ops2, m) + delta(ops2[m]));
    assert(open_loops(ops2, stack2)) by {
        assert forall|k: int| 0 <= k < stack2.len() implies {
            &&& (#[trigger] stack2[k]) < ops2.len()
            &&& ops2[stack2[k] as int] == Op::Loop(0)
            &&& depth(ops2, stack2[k] as int) == k
            &&& forall|p: int| stack2[k] < p <= ops2.len() ==> #[trigger] depth(ops2, p) > k
        } by {
            assert(stack2[k] == stack[k]);
            assert(depth(ops, stack[k] as int) == k);
        }
    }
    assert(paired(ops2, j, m));
    assert forall|i: int| 0 <= i < ops2.len() implies #[trigger] settled_at(ops2, stack2, i) by {
        if i < m && i != j {
            assert(settled_at(ops, stack, i));
            match ops[i] {
                Op::Loop(t) => {
                    if t != 0 {
                        assert(paired(ops, i, t - 1));
                        assert(paired(ops2, i, t - 1));
                    }
                },
                Op::Back(t) => {
                    assert(paired(ops, t as int, i));
                    assert(paired(ops2, t as int, i));
                },
                _ => {},
            }
        }
    }
}

/// Reading one more byte appends its instruction, if it has one.
proof fn lemma_shape_step(src: Seq<u8>, n: int)
    requires
        0 <= n < src.len(),
    ensures
        shape(src.take(n + 1)) == match op_of_byte(src[n]) {
            Some(op) => shape(src.take(n)).push(op),
            None => shape(src.take(n)),
        },
{
    assert(src.take(n + 1).drop_last() =~= src.take(n));
}

/// The shape of a prefix is a prefix of the shape.
proof fn lemma_shape_prefix(src: Seq<u8>, n: int)
    requires
        0 <= n <= src.len(),
    ensures
        shape(src.take(n)).len() <= shape(src).len(),
        forall|k: int| 0 <= k < shape(src.take(n)).len() ==> shape(src.take(n))[k] == shape(src)[k],
    decreases src.len(),
{
    if n == src.len() {
        assert(src.take(n) =~= src);
    } else {
        assert(src.drop_last().take(n) =~= src.take(n));
        lemma_shape_prefix(src.drop_last(), n);
    }
}

/// Programs of one shape have the same depth everywhere.
pub proof fn lemma_same_shape_depth(a: Seq<Op>, b: Seq<Op>)
    requires
        same_shape(a, b),
    ensures
        forall|k: int|
            #![trigger depth(a, k)]
            #![trigger depth(b, k)]
            0 <= k <= a.len() ==> depth(a, k) == depth(b, k),
{
    assert forall|j: int| 0 <= j < a.len() implies delta(#[trigger] a[j]) == delta(b[j]) by {
        assert(untargeted(a[j]) == untargeted(b[j]));
    }
    lemma_depth_agrees(a, b, a.len() as int);
}

/// The instruction that one source byte stands for.
fn decode(b: u8) -> (r: Option<Op>)
    ensures
        r == op_of_byte(b),
{
    match b {
        62 => Some(Op::Next),
        60 => Some(Op::Prev),
        43 => Some(Op::Incr),
        45 => Some(Op::Decr),
        46 => Some(Op::Dump),
        44 => Some(Op::Eat),
        91 => Some(Op::Loop(0)),
        93 => Some(Op::Back(0)),
        _ => None,
    }
}

/// Translates source text into a program.
///
/// The bytes `> < + - . , [ ]` each give one instruction; every other byte is
/// commentary. Succeeds exactly when the brackets are balanced, and then each
/// `Loop` holds the index just past its `Back` and each `Back` the index of
/// its `Loop`. A `]` with nothing to close gives `UnmatchedClose`; otherwise a
/// `[` left open gives `UnmatchedOpen`.
pub fn parse(src: &[u8]) -> (r: Result<Vec<Op>, SyntaxError>)
    ensures
        match r {
            Ok(ops) => translates(src@, Ok(ops@)),
            Err(e) => translates(src@, Err(e)),
        },
        r is Ok <==> balanced(shape(src@)),
        r == Err::<Vec<Op>, SyntaxError>(SyntaxError::UnmatchedClose) <==> closes_too_many(
            shape(src@),
        ),
        r == Err::<Vec<Op>, SyntaxError>(SyntaxError::UnmatchedOpen) <==> !closes_too_many(
            shape(src@),
        ) && depth(shape(src@), shape(src@).len() as int) > 0,
{
    let mut ops: Vec<Op> = Vec::new();
    let mut stack: Vec<usize> = Vec::new();
    let mut n: usize = 0;
    proof {
        assert(src@.take(0) =~= Seq::<u8>::empty());
    }
    while n < src.len()
        invariant
            n <= src.len(),
            ops.len() <= n,
            same_shape(ops@, shape(src@.take(n as int))),
            partial(ops@, stack@),
        decreases src.len() - n,
    {
        let ghost before = ops@;
        let ghost pending = stack@;
        proof {
            lemma_shape_step(src@, n as int);
        }
        match decode(src[n]) {
            None => {},
            Some(Op::Loop(_)) => {
                proof {
                    lemma_emit_open(before, pending);
                }
                stack.push(ops.len());
                ops.push(Op::Loop(0));
            },
            Some(Op::Back(_)) => {
                match stack.pop() {
                    None => {
                        proof {
                            let part = shape(src@.take(n + 1));
                            let whole = shape(src@);
                            let m = before.len() as int;
                            lemma_same_shape_depth(before, shape(src@.take(n as int)));
                            assert(depth(part, m + 1) == depth(part, m) + delta(part[m]));
                            lemma_depth_agrees(shape(src@.take(n as int)), part, m);
                            lemma_shape_prefix(src@, n + 1);
                            lemma_depth_agrees(part, whole, m + 1);
                            assert(depth(whole, m + 1) < 0);
                        }
                        return Err(SyntaxError::UnmatchedClose);
                    },
                    Some(j) => {
                        proof {
                            lemma_emit_close(before, pending);
                        }
                        let after = ops.len() + 1;
                        ops.set(j, Op::Loop(after));
                        ops.push(Op::Back(j));
                    },
                }
            },
            Some(op) => {
                proof {
                    lemma_emit_plain(before, pending, op);
                }
                ops.push(op);
            },
        }
        n = n + 1;
    }
    proof {
        assert(src@.take(n as int) =~= src@);
        lemma_same_shape_depth(ops@, shape(src@));
    }
    if stack.len() > 0 {
        return Err(SyntaxError::UnmatchedOpen);
    }
    proof {
        assert forall|i: int| 0 <= i < ops@.len() implies #[trigger] resolved_at(ops@, i) by {
            assert(settled_at(ops@, stack@, i));
        }
    }
    Ok(ops)
}

/// Commentary does not show in the shape: a byte that stands for no
/// instruction can be inserted anywhere.
pub proof fn lemma_comment_keeps_shape(src: Seq<u8>, at: int, c: u8)
    requires
        0 <= at <= src.len(),
        op_of_byte(c) is None,
    ensures
        shape(src.insert(at, c)) == shape(src),
    decreases src.len(),
{
    let longer = src.insert(at, c);
    if at == src.len() {
        assert(longer.drop_last() =~= src);
    } else {
        assert(longer.drop_last() =~= src.drop_last().insert(at, c));
        assert(longer.last() == src.last());
        lemma_comment_keeps_shape(src.drop_last(), at, c);
    }
}

/// The bytes of a source text that stand for an instruction, in order.
pub open spec fn operators(src: Seq<u8>) -> Seq<u8> {
    src.filter(|b: u8| op_of_byte(b) is Some)
}

/// The shape of a source text is the shape of its operator bytes.
pub proof fn lemma_shape_of_operators(src: Seq<u8>)
    ensures
        shape(operators(src)) == shape(src),
    decreases src.len(),
{
    reveal(Seq::filter);
    if src.len() > 0 {
        let kept = operators(src);
        let kept_before = operators(src.drop_last());
        lemma_shape_of_operators(src.drop_last());
        if op_of_byte(src.last()) is Some {
            assert(kept == kept_before.push(src.last()));
            assert(kept.drop_last() =~= kept_before);
        } else {
            assert(kept == kept_before);
        }
    }
}

/// A source text has exactly one translation: whatever translates it twice
/// gets the same program, target for target, or the same error.
pub proof fn translation_unique(
    src: Seq<u8>,
    first: Result<Seq<Op>, SyntaxError>,
    second: Result<Seq<Op>, SyntaxError>,
)
    requires
        translates(src, first),
        translates(src, second),
    ensures
        first == second,
{
    match (first, second) {
        (Ok(a), Ok(b)) => {
            lemma_same_shape_depth(a, shape(src));
            lemma_same_shape_depth(b, shape(src));
            assert forall|i: int| 0 <= i < a.len() implies a[i] == b[i] by {
                assert(resolved_at(a, i));
                assert(resolved_at(b, i));
                assert(untargeted(a[i]) == untargeted(shape(src)[i]));
                assert(untargeted(b[i]) == untargeted(shape(src)[i]));
            }
            assert(a =~= b);
        },
        _ => {},
    }
}

/// Inserting a commentary byte anywhere in a source text changes nothing:
/// the text with the byte and the text without it have the same translation.
pub proof fn comments_transparent(
    src: Seq<u8>,
    at: int,
    c: u8,
    r: Result<Seq<Op>, SyntaxError>,
)
    requires
        0 <= at <= src.len(),
        op_of_byte(c) is None,
    ensures
        translates(src.insert(at, c), r) == translates(src, r),
{
    lemma_comment_keeps_shape(src, at, c);
}

/// Only the operator bytes count: two source texts that differ in commentary
/// alone, however much of it and wherever it stands, have the same
/// translation.
pub proof fn commentary_ignored(a: Seq<u8>, b: Seq<u8>, r: Result<Seq<Op>, SyntaxError>)
    requires
        operators(a) == operators(b),
    ensures
        translates(a, r) == translates(b, r),
{
    lemma_shape_of_operators(a);
    lemma_shape_of_operators(b);
}

} // verus!
