//! Executing programs on a fixed-size byte tape, with input and output held
//! in memory.
use vstd::prelude::*;
use crate::syntax::{Op, Operation, Program, ops_view, op_view, lemma_ops_view_index};

verus! {

/// The number of cells on the tape.
pub const TAPE_LEN: usize = 1024;

/// Why an execution stopped before its end.
#[derive(Debug, Clone, Copy, PartialEq, Eq, Structural)]
pub enum Fault {
    /// A cell was accessed while the pointer was not below `TAPE_LEN`.
    PointerOutOfRange,
    /// A byte was to be read after the input was used up.
    EndOfInput,
    /// A loop was to start another pass with no fuel left.
    OutOfFuel,
}

/// The model of a running execution: the tape, the pointer, the input not
/// yet read, and the output written so far.
pub struct State {
    pub tape: Seq<u8>,
    pub pointer: usize,
    pub input: Seq<u8>,
    pub output: Seq<u8>,
}

/// The state an execution starts in: all cells zero, pointer at cell 0.
pub open spec fn initial_state(input: Seq<u8>) -> State {
    State { tape: Seq::new(TAPE_LEN as nat, |i: int| 0u8), pointer: 0, input, output: Seq::empty() }
}

/// One more, wrapping at the width of `usize`.
pub open spec fn pointer_inc(p: usize) -> usize {
    if p == usize::MAX {
        0
    } else {
        (p + 1) as usize
    }
}

/// One less, wrapping at the width of `usize`.
pub open spec fn pointer_dec(p: usize) -> usize {
    if p == 0 {
        usize::MAX
    } else {
        (p - 1) as usize
    }
}

/// One more, modulo 256.
pub open spec fn byte_inc(v: u8) -> u8 {
    ((v + 1) % 256) as u8
}

/// One less, modulo 256.
pub open spec fn byte_dec(v: u8) -> u8 {
    ((v + 255) % 256) as u8
}

/// The effect of one leaf operation. Moving the pointer never faults; the
/// other operations fault if the pointer is off the tape, and reading faults
/// once the input is used up.
pub open spec fn step(op: Op, s: State) -> Result<State, Fault> {
    let p = s.pointer as int;
    match op {
        Op::MoveRight => Ok(State { pointer: pointer_inc(s.pointer), ..s }),
        Op::MoveLeft => Ok(State { pointer: pointer_dec(s.pointer), ..s }),
        _ => {
            if p >= s.tape.len() {
                Err(Fault::PointerOutOfRange)
            } else {
                match op {
                    Op::IncrementCell => Ok(State { tape: s.tape.update(p, byte_inc(s.tape[p])), ..s }),
                    Op::DecrementCell => Ok(State { tape: s.tape.update(p, byte_dec(s.tape[p])), ..s }),
                    Op::WriteByte => Ok(State { output: s.output.push(s.tape[p]), ..s }),
                    Op::ReadByte => {
                        if s.input.len() == 0 {
                            Err(Fault::EndOfInput)
                        } else {
                            Ok(State { tape: s.tape.update(p, s.input[0]), input: s.input.drop_first(), ..s })
                        }
                    },
                    _ => Ok(s),
                }
            }
        },
    }
}

/// Runs `ops` in order from `s`. A loop entered with `fuel` may pass through
/// its body at most `fuel` times; its `k`-th pass, and the rest of the loop
/// after it, run with `fuel - k`.
pub open spec fn run_seq(ops: Seq<Op>, s: State, fuel: nat) -> Result<State, Fault>
    decreases fuel, ops, 1nat,
{
    if ops.len() == 0 {
        Ok(s)
    } else {
        let first = match ops[0] {
            Op::Loop(body) => run_loop(body, s, fuel),
            _ => step(ops[0], s),
        };
        match first {
            Ok(s1) => run_seq(ops.drop_first(), s1, fuel),
            Err(e) => Err(e),
        }
    }
}

/// Runs a loop over `body` from `s`: the current cell is tested before every
/// pass, and the loop ends when it is zero.
pub open spec fn run_loop(body: Seq<Op>, s: State, fuel: nat) -> Result<State, Fault>
    decreases fuel, body, 0nat,
{
    if s.pointer >= s.tape.len() {
        Err(Fault::PointerOutOfRange)
    } else if s.tape[s.pointer as int] == 0 {
        Ok(s)
    } else if fuel == 0 {
        Err(Fault::OutOfFuel)
    } else {
        match run_seq(body, s, (fuel - 1) as nat) {
            Ok(s1) => run_loop(body, s1, (fuel - 1) as nat),
            Err(e) => Err(e),
        }
    }
}

/// Runs a whole program on fresh state with the given input.
pub open spec fn run_program(ops: Seq<Op>, input: Seq<u8>, fuel: nat) -> Result<State, Fault> {
    run_seq(ops, initial_state(input), fuel)
}

/// A tape of `TAPE_LEN` cells and its pointer, bound to an input and an
/// output held in memory.
pub struct Machine {
    cells: Vec<u8>,
    pointer: usize,
    input: Vec<u8>,
    next_input: usize,
    output: Vec<u8>,
}

impl View for Machine {
    type V = State;

    closed spec fn view(&self) -> State {
        State {
            tape: self.cells@,
            pointer: self.pointer,
            input: self.input@.skip(self.next_input as int),
            output: self.output@,
        }
    }
}

impl Machine {
    /// The tape has `TAPE_LEN` cells and the read position is within the input.
    pub closed spec fn wf(&self) -> bool {
        &&& self.cells@.len() == TAPE_LEN
        &&& self.next_input <= self.input@.len()
    }

    /// A fresh machine: all cells zero, pointer at cell 0, nothing written.
    pub fn new(input: Vec<u8>) -> (m: Machine)
        ensures
            m.wf(),
            m@ == initial_state(input@),
    {
        let cells = vec![0u8; TAPE_LEN];
        let m = Machine { cells, pointer: 0, input, next_input: 0, output: Vec::new() };
        assert(m@.tape =~= initial_state(input@).tape);
        assert(m@.input =~= input@);
        m
    }

    /// The cells of the tape.
    pub fn cells(&self) -> (r: &Vec<u8>)
        ensures
            r@ == self@.tape,
    {
        &self.cells
    }

    /// The pointer.
    pub fn pointer(&self) -> (r: usize)
        ensures
            r == self@.pointer,
    {
        self.pointer
    }

    /// The bytes written so far.
    pub fn output(&self) -> (r: &Vec<u8>)
        ensures
            r@ == self@.output,
    {
        &self.output
    }

    /// Runs one leaf operation.
    fn step_leaf(&mut self, op: &Operation) -> (r: Result<(), Fault>)
        requires
            old(self).wf(),
            !(op is Loop),
        ensures
            final(self).wf(),
            r is Ok ==> step(op_view(*op), old(self)@) == Ok::<State, Fault>(final(self)@),
            r matches Err(e) ==> step(op_view(*op), old(self)@) == Err::<State, Fault>(e),
    {
        match op {
            Operation::MoveRight => {
                self.pointer = self.pointer.wrapping_add(1);
                return Ok(());
            },
            Operation::MoveLeft => {
                self.pointer = self.pointer.wrapping_sub(1);
                return Ok(());
            },
            _ => {},
        }
        let p = self.pointer;
        if p >= self.cells.len() {
            return Err(Fault::PointerOutOfRange);
        }
        match op {
            Operation::IncrementCell => {
                self.cells[p] = self.cells[p].wrapping_add(1);
            },
            Operation::DecrementCell => {
                self.cells[p] = self.cells[p].wrapping_sub(1);
            },
            Operation::WriteByte => {
                self.output.push(self.cells[p]);
            },
            Operation::ReadByte => {
                if self.next_input >= self.input.len() {
                    return Err(Fault::EndOfInput);
                }
                self.cells[p] = self.input[self.next_input];
                self.next_input = self.next_input + 1;
                assert(self.input@.skip(self.next_input as int) =~= old(self)@.input.drop_first());
            },
            _ => {},
        }
        assert(self@.tape =~= step(op_view(*op), old(self)@)->Ok_0.tape);
        Ok(())
    }

    /// Runs `ops` in order, with `fuel` as in `run_seq`.
    pub fn execute(&mut self, ops: &Vec<Operation>, fuel: u64) -> (r: Result<(), Fault>)
        requires
            old(self).wf(),
        ensures
            final(self).wf(),
            r is Ok ==> run_seq(ops_view(ops@), old(self)@, fuel as nat) == Ok::<State, Fault>(
                final(self)@,
            ),
            r matches Err(e) ==> run_seq(ops_view(ops@), old(self)@, fuel as nat) == Err::<
                State,
                Fault,
            >(e),
        decreases fuel,
    {
        let ghost all = ops_view(ops@);
        proof {
            lemma_ops_view_index(ops@);
        }
        let mut k: usize = 0;
        assert(all.skip(0) =~= all);
        while k < ops.len()
            invariant
                self.wf(),
                k <= ops@.len(),
                all == ops_view(ops@),
                all.len() == ops@.len(),
                forall|j: int| 0 <= j < ops@.len() ==> #[trigger] all[j] == op_view(ops@[j]),
                run_seq(all, old(self)@, fuel as nat) == run_seq(all.skip(k as int), self@, fuel as nat),
            decreases ops@.len() - k,
        {
            let ghost rest = all.skip(k as int);
            assert(rest[0] == all[k as int]);
            assert(rest.drop_first() =~= all.skip(k + 1));
            match &ops[k] {
                Operation::Loop(body) => {
                    let ghost b = ops_view(body@);
                    let ghost entry = self@;
                    let mut f: u64 = fuel;
                    loop
                        invariant
                            self.wf(),
                            f <= fuel,
                            run_loop(b, entry, fuel as nat) == run_loop(b, self@, f as nat),
                            b == ops_view(body@),
                            all == ops_view(ops@),
                            rest.len() > 0,
                            rest[0] == Op::Loop(b),
                            run_seq(all, old(self)@, fuel as nat) == run_seq(rest, entry, fuel as nat),
                        ensures
                            self.wf(),
                            run_loop(b, entry, fuel as nat) == Ok::<State, Fault>(self@),
                        decreases f,
                    {
                        if self.pointer >= self.cells.len() {
                            return Err(Fault::PointerOutOfRange);
                        }
                        if self.cells[self.pointer] == 0 {
                            assert(run_loop(b, self@, f as nat) == Ok::<State, Fault>(self@));
                            break;
                        }
                        if f == 0 {
                            return Err(Fault::OutOfFuel);
                        }
                        f = f - 1;
                        let res = self.execute(body, f);
                        if let Err(e) = res {
                            return Err(e);
                        }
                    }
                    assert(run_seq(rest, entry, fuel as nat) == run_seq(rest.drop_first(), self@, fuel as nat));
                },
                _ => {
                    let ghost before = self@;
                    let res = self.step_leaf(&ops[k]);
                    if let Err(e) = res {
                        return Err(e);
                    }
                    assert(run_seq(rest, before, fuel as nat) == run_seq(rest.drop_first(), self@, fuel as nat));
                },
            }
            k = k + 1;
        }
        assert(all.skip(k as int) =~= Seq::<Op>::empty());
        Ok(())
    }
}

impl Program {
    /// Runs this program on a fresh machine whose input is `input`, and
    /// returns the machine as it stands at the end.
    pub fn run(&self, input: Vec<u8>, fuel: u64) -> (r: Result<Machine, Fault>)
        ensures
            r matches Ok(m) ==> run_program(self@, input@, fuel as nat) == Ok::<State, Fault>(m@),
            r matches Err(e) ==> run_program(self@, input@, fuel as nat) == Err::<State, Fault>(e),
    {
        let mut m = Machine::new(input);
        match m.execute(&self.ops, fuel) {
            Ok(()) => Ok(m),
            Err(e) => Err(e),
        }
    }
}

/// A loop reached while the current cell holds 0 runs its body zero times:
/// the state is unchanged, and execution goes on with the next operation.
pub proof fn lemma_loop_skipped_on_zero(body: Seq<Op>, rest: Seq<Op>, s: State, fuel: nat)
    requires
        s.pointer < s.tape.len(),
        s.tape[s.pointer as int] == 0,
    ensures
        run_loop(body, s, fuel) == Ok::<State, Fault>(s),
        run_seq(seq![Op::Loop(body)] + rest, s, fuel) == run_seq(rest, s, fuel),
{
    let ops = seq![Op::Loop(body)] + rest;
    assert(ops[0] == Op::Loop(body));
    assert(ops.drop_first() =~= rest);
}

/// Cell values wrap modulo 256: incrementing 255 gives 0, and decrementing
/// 0 gives 255.
pub proof fn lemma_cell_wraps(s: State)
    requires
        s.pointer < s.tape.len(),
    ensures
        s.tape[s.pointer as int] == 255 ==> step(Op::IncrementCell, s) == Ok::<State, Fault>(
            State { tape: s.tape.update(s.pointer as int, 0), ..s },
        ),
        s.tape[s.pointer as int] == 0 ==> step(Op::DecrementCell, s) == Ok::<State, Fault>(
            State { tape: s.tape.update(s.pointer as int, 255), ..s },
        ),
{
}

/// `n` increments in a row add `n` to the current cell, modulo 256.
pub proof fn lemma_increments_add(n: nat, s: State, fuel: nat)
    requires
        s.pointer < s.tape.len(),
    ensures
        run_seq(Seq::new(n, |i: int| Op::IncrementCell), s, fuel) == Ok::<State, Fault>(
            State {
                tape: s.tape.update(s.pointer as int, ((s.tape[s.pointer as int] + n) % 256) as u8),
                ..s
            },
        ),
    decreases n,
{
    let p = s.pointer as int;
    let ops = Seq::new(n, |i: int| Op::IncrementCell);
    if n == 0 {
        assert(s.tape.update(p, ((s.tape[p] + n) % 256) as u8) =~= s.tape);
    } else {
        let s1 = State { tape: s.tape.update(p, byte_inc(s.tape[p])), ..s };
        assert(ops[0] == Op::IncrementCell);
        assert(step(Op::IncrementCell, s) == Ok::<State, Fault>(s1));
        assert(ops.drop_first() =~= Seq::new((n - 1) as nat, |i: int| Op::IncrementCell));
        lemma_increments_add((n - 1) as nat, s1, fuel);
        let v = s.tape[p] as int;
        assert(((v + 1) % 256 + (n - 1)) % 256 == (v + n) % 256);
        assert(s1.tape.update(p, ((s1.tape[p] + (n - 1)) % 256) as u8) =~= s.tape.update(
            p,
            ((s.tape[p] + n) % 256) as u8,
        ));
    }
}

/// Exactly 256 increments leave the state unchanged.
pub proof fn lemma_256_increments_identity(s: State, fuel: nat)
    requires
        s.pointer < s.tape.len(),
    ensures
        run_seq(Seq::new(256, |i: int| Op::IncrementCell), s, fuel) == Ok::<State, Fault>(s),
{
    lemma_increments_add(256, s, fuel);
    let p = s.pointer as int;
    assert(s.tape.update(p, ((s.tape[p] + 256) % 256) as u8) =~= s.tape);
}

} // verus!
