//! The machine that runs a program: a tape of byte cells, two cursors, an
//! input that is read byte by byte and an output that is appended to.

use crate::op::Op;
use vstd::prelude::*;

verus! {

/// Number of cells on the tape.
pub const TAPE_LEN: usize = 30000;

/// Why a run stopped before the end of the program.
#[derive(Clone, Copy, Debug, PartialEq, Eq, Structural)]
pub enum RunError {
    /// An `Eat` found no input left.
    InputExhausted,
    /// A `Next` or `Prev` would have moved the data pointer off the tape.
    OffTape,
}

/// One run of a program. The tape has `TAPE_LEN` cells and the data pointer
/// never leaves it: a move that would is refused with `RunError::OffTape`.
pub struct State {
    /// Instruction pointer: index of the next instruction.
    pub i: usize,
    /// Data pointer: index of the current cell.
    pub p: usize,
    /// All the input of the run.
    pub input: Vec<u8>,
    /// How many bytes of `input` have been read.
    pub taken: usize,
    /// What has been written so far.
    pub output: Vec<u8>,
    /// The program.
    pub prog: Vec<Op>,
    /// The tape.
    pub mem: Vec<u8>,
}

/// The mathematical machine that a `State` stands for.
pub struct Machine {
    /// Index of the next instruction.
    pub ip: int,
    /// Index of the current cell.
    pub dp: int,
    /// The cells.
    pub tape: Seq<u8>,
    /// The input that no `Eat` has read yet.
    pub unread: Seq<u8>,
    /// The bytes written, oldest first.
    pub written: Seq<u8>,
    /// The program.
    pub prog: Seq<Op>,
}

impl View for State {
    type V = Machine;

    open spec fn view(&self) -> Machine {
        Machine {
            ip: self.i as int,
            dp: self.p as int,
            tape: self.mem@,
            unread: self.input@.skip(self.taken as int),
            written: self.output@,
            prog: self.prog@,
        }
    }
}

/// The machine before its first step: both cursors at zero, every cell zero,
/// nothing read, nothing written.
pub open spec fn initial(prog: Seq<Op>, input: Seq<u8>) -> Machine {
    Machine {
        ip: 0,
        dp: 0,
        tape: Seq::new(TAPE_LEN as nat, |k: int| 0u8),
        unread: input,
        written: Seq::empty(),
        prog,
    }
}

/// A cell plus one, modulo 256.
pub open spec fn incr(v: u8) -> u8 {
    if v == 255 {
        0
    } else {
        (v + 1) as u8
    }
}

/// A cell minus one, modulo 256.
pub open spec fn decr(v: u8) -> u8 {
    if v == 0 {
        255
    } else {
        (v - 1) as u8
    }
}

/// The instruction pointer has passed the end of the program.
pub open spec fn halted(m: Machine) -> bool {
    m.ip >= m.prog.len()
}

/// The error that the next instruction runs into, if any.
pub open spec fn fault(m: Machine) -> Option<RunError>
    recommends
        0 <= m.ip < m.prog.len(),
{
    match m.prog[m.ip] {
        Op::Next => if m.dp + 1 >= TAPE_LEN {
            Some(RunError::OffTape)
        } else {
            None
        },
        Op::Prev => if m.dp <= 0 {
            Some(RunError::OffTape)
        } else {
            None
        },
        Op::Eat => if m.unread.len() == 0 {
            Some(RunError::InputExhausted)
        } else {
            None
        },
        _ => None,
    }
}

/// The machine after the next instruction, where that instruction does not
/// fault. A jump sets the instruction pointer to the target itself; every
/// other instruction moves it on by one.
pub open spec fn next(m: Machine) -> Machine
    recommends
        0 <= m.ip < m.prog.len(),
        fault(m) is None,
{
    match m.prog[m.ip] {
        Op::Next => Machine { ip: m.ip + 1, dp: m.dp + 1, ..m },
        Op::Prev => Machine { ip: m.ip + 1, dp: m.dp - 1, ..m },
        Op::Incr => Machine { ip: m.ip + 1, tape: m.tape.update(m.dp, incr(m.tape[m.dp])), ..m },
        Op::Decr => Machine { ip: m.ip + 1, tape: m.tape.update(m.dp, decr(m.tape[m.dp])), ..m },
        Op::Dump => Machine { ip: m.ip + 1, written: m.written.push(m.tape[m.dp]), ..m },
        Op::Eat => Machine {
            ip: m.ip + 1,
            tape: m.tape.update(m.dp, m.unread[0]),
            unread: m.unread.skip(1),
            ..m
        },
        Op::Loop(t) => if m.tape[m.dp] == 0 {
            Machine { ip: t as int, ..m }
        } else {
            Machine { ip: m.ip + 1, ..m }
        },
        Op::Back(t) => if m.tape[m.dp] != 0 {
            Machine { ip: t as int, ..m }
        } else {
            Machine { ip: m.ip + 1, ..m }
        },
    }
}

/// The machine after running for at most `fuel` steps: it stops at the end of
/// the program, before an instruction that faults, or when the fuel is spent.
pub open spec fn run_for(m: Machine, fuel: nat) -> Machine
    decreases fuel,
{
    if halted(m) || fuel == 0 || fault(m) is Some {
        m
    } else {
        run_for(next(m), (fuel - 1) as nat)
    }
}

/// How running for at most `fuel` steps ends: `Ok(true)` at the end of the
/// program, `Ok(false)` when the fuel is spent first, the error when an
/// instruction faults first.
pub open spec fn outcome(m: Machine, fuel: nat) -> Result<bool, RunError>
    decreases fuel,
{
    if halted(m) {
        Ok(true)
    } else if fuel == 0 {
        Ok(false)
    } else {
        match fault(m) {
            Some(e) => Err(e),
            None => outcome(next(m), (fuel - 1) as nat),
        }
    }
}

impl State {
    /// The tape has its length, the data pointer is on it, and no more input
    /// was read than there is.
    pub open spec fn wf(&self) -> bool {
        &&& self.mem.len() == TAPE_LEN
        &&& self.p < TAPE_LEN
        &&& self.taken <= self.input.len()
    }

    /// A machine ready to run `prog` on `input`.
    pub fn new(prog: Vec<Op>, input: Vec<u8>) -> (st: State)
        ensures
            st.wf(),
            st@ == initial(prog@, input@),
    {
        let mem: Vec<u8> = vec![0u8; TAPE_LEN];
        let st = State { i: 0, p: 0, input, taken: 0, output: Vec::new(), prog, mem };
        proof {
            assert(st@.tape =~= initial(prog@, input@).tape);
            assert(st@.unread =~= input@);
            assert(st@.written =~= Seq::<u8>::empty());
        }
        st
    }

    /// Appends `more` to the input that is still to be read. A run that
    /// stopped with `RunError::InputExhausted` can go on after this.
    pub fn feed(&mut self, more: &[u8])
        requires
            old(self).wf(),
        ensures
            final(self).wf(),
            final(self)@ == (Machine { unread: old(self)@.unread + more@, ..old(self)@ }),
    {
        self.input.extend_from_slice(more);
        proof {
            assert(self@.unread =~= old(self)@.unread + more@);
        }
    }

    /// Hands out what has been written so far and starts the output afresh.
    pub fn take_output(&mut self) -> (out: Vec<u8>)
        requires
            old(self).wf(),
        ensures
            final(self).wf(),
            out@ == old(self)@.written,
            final(self)@ == (Machine { written: Seq::empty(), ..old(self)@ }),
    {
        let mut out: Vec<u8> = Vec::new();
        core::mem::swap(&mut self.output, &mut out);
        out
    }
}

/// Executes the instruction under the instruction pointer.
///
/// On a fault the machine is left as it was.
pub fn step(st: &mut State) -> (r: Result<(), RunError>)
    requires
        old(st).wf(),
        !halted(old(st)@),
    ensures
        final(st).wf(),
        match r {
            Ok(()) => fault(old(st)@) is None && final(st)@ == next(old(st)@),
            Err(e) => fault(old(st)@) == Some(e) && *final(st) == *old(st),
        },
{
    let ghost before = st@;
    assert(st.i < st.prog.len());
    let op = st.prog[st.i];
    match op {
        Op::Next => {
            if st.p + 1 >= TAPE_LEN {
                return Err(RunError::OffTape);
            }
            st.p = st.p + 1;
        },
        Op::Prev => {
            if st.p == 0 {
                return Err(RunError::OffTape);
            }
            st.p = st.p - 1;
        },
        Op::Incr => {
            let v: u8 = st.mem[st.p];
            st.mem.set(st.p, v.wrapping_add(1));
        },
        Op::Decr => {
            let v: u8 = st.mem[st.p];
            st.mem.set(st.p, v.wrapping_sub(1));
        },
        Op::Dump => {
            let v: u8 = st.mem[st.p];
            st.output.push(v);
        },
        Op::Eat => {
            if st.taken >= st.input.len() {
                return Err(RunError::InputExhausted);
            }
            let b: u8 = st.input[st.taken];
            st.mem.set(st.p, b);
            st.taken = st.taken + 1;
            proof {
                assert(st@.unread =~= before.unread.skip(1));
            }
        },
        Op::Loop(t) => {
            if st.mem[st.p] == 0 {
                st.i = t;
                return Ok(());
            }
        },
        Op::Back(t) => {
            if st.mem[st.p] != 0 {
                st.i = t;
                return Ok(());
            }
        },
    }
    st.i = st.i + 1;
    Ok(())
}

/// Runs the program from where the machine stands, for at most `max_steps`
/// instructions. A program need not halt, so each call has a budget; the next
/// call goes on where this one stopped.
///
/// Returns `Ok(true)` when the instruction pointer has passed the end of the
/// program, `Ok(false)` when `max_steps` instructions were executed and the
/// program goes on, and the error when an instruction faulted; the machine is
/// then left before that instruction.
pub fn run(st: &mut State, max_steps: u64) -> (r: Result<bool, RunError>)
    requires
        old(st).wf(),
    ensures
        final(st).wf(),
        final(st)@ == run_for(old(st)@, max_steps as nat),
        r == outcome(old(st)@, max_steps as nat),
{
    let mut fuel: u64 = max_steps;
    while fuel > 0 && st.i < st.prog.len()
        invariant
            st.wf(),
            run_for(old(st)@, max_steps as nat) == run_for(st@, fuel as nat),
            outcome(old(st)@, max_steps as nat) == outcome(st@, fuel as nat),
        decreases fuel,
    {
        match step(st) {
            Ok(()) => {},
            Err(e) => {
                return Err(e);
            },
        }
        fuel = fuel - 1;
    }
    Ok(st.i >= st.prog.len())
}

/// `n` increments of a cell, one after the other.
pub open spec fn incr_times(v: u8, n: nat) -> u8
    decreases n,
{
    if n == 0 {
        v
    } else {
        incr(incr_times(v, (n - 1) as nat))
    }
}

/// `n` increments add `n` modulo 256.
pub proof fn lemma_incr_times(v: u8, n: nat)
    ensures
        incr_times(v, n) == (v + n) % 256,
    decreases n,
{
    if n > 0 {
        lemma_incr_times(v, (n - 1) as nat);
    }
}

/// Incrementing and decrementing a cell undo each other.
pub proof fn incr_decr_inverse(v: u8)
    ensures
        decr(incr(v)) == v,
        incr(decr(v)) == v,
{
}

/// Incrementing a cell 256 times gives back the value it had.
pub proof fn incr_full_circle(v: u8)
    ensures
        incr_times(v, 256) == v,
{
    lemma_incr_times(v, 256);
}

/// Running in two instalments is running once with the fuel of both: the
/// machine ends in the same place.
pub proof fn run_for_in_instalments(m: Machine, a: nat, b: nat)
    ensures
        run_for(run_for(m, a), b) == run_for(m, a + b),
    decreases a,
{
    if halted(m) || fault(m) is Some {
        assert(run_for(m, a) == m);
        assert(run_for(m, b) == m);
        assert(run_for(m, a + b) == m);
    } else if a > 0 {
        run_for_in_instalments(next(m), (a - 1) as nat, b);
    }
}

/// Running in two instalments is running once with the fuel of both: a run
/// that ended within the first instalment ends the same way with more fuel,
/// and one that did not ends as the second instalment does.
pub proof fn outcome_in_instalments(m: Machine, a: nat, b: nat)
    ensures
        outcome(m, a + b) == if outcome(m, a) == Ok::<bool, RunError>(false) {
            outcome(run_for(m, a), b)
        } else {
            outcome(m, a)
        },
    decreases a,
{
    if !halted(m) && a > 0 && fault(m) is None {
        outcome_in_instalments(next(m), (a - 1) as nat, b);
    }
}

} // verus!
