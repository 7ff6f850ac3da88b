//! Generating Rust source text that behaves as a program does: a block that
//! runs the operations on a tape of 1024 cells, reading standard input and
//! writing standard output.
use vstd::prelude::*;
use vstd::string::StringExecFns;
use crate::syntax::{Op, Operation, Program, ops_view, op_view};

verus! {

/// The statements that open the generated block and set up its state.
pub const PRELUDE: &'static str = "{\nlet mut pointer: usize = 0;\nlet mut buf = vec![0_u8; 1024];\nlet mut stdin = ::std::io::stdin();\nlet mut stdout = ::std::io::stdout();\n";

/// The statements that close the generated block.
pub const EPILOGUE: &'static str = "::std::io::Write::flush(&mut stdout).expect(\"failed to write\");\n}\n";

pub const MOVE_RIGHT_RS: &'static str = "pointer = pointer.wrapping_add(1);\n";

pub const MOVE_LEFT_RS: &'static str = "pointer = pointer.wrapping_sub(1);\n";

pub const INCREMENT_RS: &'static str = "buf[pointer] = buf[pointer].wrapping_add(1);\n";

pub const DECREMENT_RS: &'static str = "buf[pointer] = buf[pointer].wrapping_sub(1);\n";

/// Writing a byte; a failed write stops the program.
pub const WRITE_RS: &'static str = "::std::io::Write::write_all(&mut stdout, ::std::slice::from_ref(&buf[pointer])).expect(\"failed to write\");\n";

/// Reading a byte; a failed read, the end of input included, stops the program.
pub const READ_RS: &'static str = "::std::io::Read::read_exact(&mut stdin, ::std::slice::from_mut(&mut buf[pointer])).expect(\"failed to read\");\n";

pub const LOOP_OPEN_RS: &'static str = "while buf[pointer] != 0 {\n";

pub const LOOP_CLOSE_RS: &'static str = "}\n";

/// The generated statements for a sequence of operations.
pub open spec fn rust_of_ops(ops: Seq<Op>) -> Seq<char>
    decreases ops,
{
    if ops.len() == 0 {
        Seq::empty()
    } else {
        rust_of_ops(ops.drop_last()) + rust_of_op(ops.last())
    }
}

/// The generated statements for one operation.
pub open spec fn rust_of_op(op: Op) -> Seq<char>
    decreases op,
{
    match op {
        Op::MoveRight => MOVE_RIGHT_RS@,
        Op::MoveLeft => MOVE_LEFT_RS@,
        Op::IncrementCell => INCREMENT_RS@,
        Op::DecrementCell => DECREMENT_RS@,
        Op::WriteByte => WRITE_RS@,
        Op::ReadByte => READ_RS@,
        Op::Loop(body) => LOOP_OPEN_RS@ + rust_of_ops(body) + LOOP_CLOSE_RS@,
    }
}

/// The generated block for a whole program.
pub open spec fn rust_of_program(ops: Seq<Op>) -> Seq<char> {
    PRELUDE@ + rust_of_ops(ops) + EPILOGUE@
}

/// Appends the generated statements for `ops` to `out`.
fn write_rust(ops: &Vec<Operation>, out: &mut String)
    ensures
        final(out)@ == old(out)@ + rust_of_ops(ops_view(ops@)),
    decreases ops,
{
    let ghost start = out@;
    let mut k: usize = 0;
    while k < ops.len()
        invariant
            k <= ops@.len(),
            out@ == start + rust_of_ops(ops_view(ops@.take(k as int))),
        decreases ops@.len() - k,
    {
        proof {
            assert(ops@.take(k + 1).drop_last() =~= ops@.take(k as int));
        }
        match &ops[k] {
            Operation::MoveRight => out.append(MOVE_RIGHT_RS),
            Operation::MoveLeft => out.append(MOVE_LEFT_RS),
            Operation::IncrementCell => out.append(INCREMENT_RS),
            Operation::DecrementCell => out.append(DECREMENT_RS),
            Operation::WriteByte => out.append(WRITE_RS),
            Operation::ReadByte => out.append(READ_RS),
            Operation::Loop(body) => {
                out.append(LOOP_OPEN_RS);
                write_rust(body, out);
                out.append(LOOP_CLOSE_RS);
            },
        }
        proof {
            let prev = ops_view(ops@.take(k as int));
            let next = ops_view(ops@.take(k + 1));
            assert(next == prev.push(op_view(ops@[k as int])));
            assert(next.drop_last() =~= prev);
            assert(rust_of_ops(next) == rust_of_ops(prev) + rust_of_op(op_view(ops@[k as int])));
        }
        assert(out@ =~= start + rust_of_ops(ops_view(ops@.take(k + 1))));
        k = k + 1;
    }
    assert(ops@.take(k as int) =~= ops@);
}

impl Program {
    /// Rust source text of a block that, run as a statement, behaves as this
    /// program: it works on a tape of 1024 cells, reads standard input and
    /// writes standard output.
    pub fn to_rust(&self) -> (r: String)
        ensures
            r@ == rust_of_program(self@),
    {
        let mut out = String::from_str(PRELUDE);
        write_rust(&self.ops, &mut out);
        out.append(EPILOGUE);
        out
    }
}

} // verus!
