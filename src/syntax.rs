//! Operations of a program, their mathematical model, and their textual form.
use vstd::prelude::*;
use vstd::string::StringExecFns;

verus! {

/// One parsed instruction: six leaf kinds plus a loop over a nested body.
#[derive(Debug, PartialEq, Eq)]
pub enum Operation {
    MoveRight,
    MoveLeft,
    IncrementCell,
    DecrementCell,
    WriteByte,
    ReadByte,
    Loop(Vec<Operation>),
}

/// The mathematical model of an `Operation`: the same tree, with sequences
/// in place of vectors.
pub enum Op {
    MoveRight,
    MoveLeft,
    IncrementCell,
    DecrementCell,
    WriteByte,
    ReadByte,
    Loop(Seq<Op>),
}

/// The model of a sequence of operations, element by element.
pub open spec fn ops_view(s: Seq<Operation>) -> Seq<Op>
    decreases s,
{
    if s.len() == 0 {
        Seq::empty()
    } else {
        ops_view(s.drop_last()).push(op_view(s.last()))
    }
}

/// The model of one operation.
pub open spec fn op_view(o: Operation) -> Op
    decreases o,
{
    match o {
        Operation::MoveRight => Op::MoveRight,
        Operation::MoveLeft => Op::MoveLeft,
        Operation::IncrementCell => Op::IncrementCell,
        Operation::DecrementCell => Op::DecrementCell,
        Operation::WriteByte => Op::WriteByte,
        Operation::ReadByte => Op::ReadByte,
        Operation::Loop(body) => Op::Loop(ops_view(body@)),
    }
}

impl View for Operation {
    type V = Op;

    open spec fn view(&self) -> Op {
        op_view(*self)
    }
}

/// `ops_view` keeps the length and maps each element to its model.
pub proof fn lemma_ops_view_index(s: Seq<Operation>)
    ensures
        ops_view(s).len() == s.len(),
        forall|k: int| 0 <= k < s.len() ==> #[trigger] ops_view(s)[k] == op_view(s[k]),
    decreases s.len(),
{
    if s.len() > 0 {
        lemma_ops_view_index(s.drop_last());
    }
}

/// The instruction character of a leaf operation.
pub open spec fn leaf_char(op: Op) -> char {
    match op {
        Op::MoveRight => '>',
        Op::MoveLeft => '<',
        Op::IncrementCell => '+',
        Op::DecrementCell => '-',
        Op::WriteByte => '.',
        Op::ReadByte => ',',
        Op::Loop(_) => '[',
    }
}

/// The leaf operation that an instruction character stands for, if any.
pub open spec fn leaf_of_char(c: char) -> Option<Op> {
    if c == '>' {
        Some(Op::MoveRight)
    } else if c == '<' {
        Some(Op::MoveLeft)
    } else if c == '+' {
        Some(Op::IncrementCell)
    } else if c == '-' {
        Some(Op::DecrementCell)
    } else if c == '.' {
        Some(Op::WriteByte)
    } else if c == ',' {
        Some(Op::ReadByte)
    } else {
        None
    }
}

/// The source text of a sequence of operations.
pub open spec fn text_of(ops: Seq<Op>) -> Seq<char>
    decreases ops,
{
    if ops.len() == 0 {
        Seq::empty()
    } else {
        text_of(ops.drop_last()) + op_text(ops.last())
    }
}

/// The source text of one operation: its character, or a bracketed body.
pub open spec fn op_text(op: Op) -> Seq<char>
    decreases op,
{
    match op {
        Op::Loop(body) => seq!['['] + text_of(body) + seq![']'],
        _ => seq![leaf_char(op)],
    }
}

/// A parsed program: the top-level sequence of operations.
#[derive(Debug, PartialEq, Eq)]
pub struct Program {
    pub ops: Vec<Operation>,
}

impl View for Program {
    type V = Seq<Op>;

    open spec fn view(&self) -> Seq<Op> {
        ops_view(self.ops@)
    }
}

impl Program {
    /// Wraps a sequence of operations as a program.
    pub fn new(ops: Vec<Operation>) -> (p: Program)
        ensures
            p@ == ops_view(ops@),
    {
        Program { ops }
    }

    /// The top-level operations.
    pub fn ops(&self) -> (r: &Vec<Operation>)
        ensures
            ops_view(r@) == self@,
    {
        &self.ops
    }

    /// The source text of this program, from which `parse` gives it back.
    pub fn to_source(&self) -> (r: String)
        ensures
            r@ == text_of(self@),
    {
        let mut out = String::new();
        write_ops(&self.ops, &mut out);
        out
    }
}

/// Appends the source text of `ops` to `out`.
fn write_ops(ops: &Vec<Operation>, out: &mut String)
    ensures
        final(out)@ == old(out)@ + text_of(ops_view(ops@)),
    decreases ops,
{
    let ghost start = out@;
    let mut k: usize = 0;
    while k < ops.len()
        invariant
            k <= ops@.len(),
            out@ == start + text_of(ops_view(ops@.take(k as int))),
        decreases ops@.len() - k,
    {
        proof {
            reveal_strlit(">");
            reveal_strlit("<");
            reveal_strlit("+");
            reveal_strlit("-");
            reveal_strlit(".");
            reveal_strlit(",");
            reveal_strlit("[");
            reveal_strlit("]");
            assert(ops@.take(k + 1).drop_last() =~= ops@.take(k as int));
        }
        match &ops[k] {
            Operation::MoveRight => out.append(">"),
            Operation::MoveLeft => out.append("<"),
            Operation::IncrementCell => out.append("+"),
            Operation::DecrementCell => out.append("-"),
            Operation::WriteByte => out.append("."),
            Operation::ReadByte => out.append(","),
            Operation::Loop(body) => {
                out.append("[");
                write_ops(body, out);
                out.append("]");
            },
        }
        proof {
            let prev = ops_view(ops@.take(k as int));
            let next = ops_view(ops@.take(k + 1));
            assert(next == prev.push(op_view(ops@[k as int])));
            assert(next.drop_last() =~= prev);
            assert(text_of(next) == text_of(prev) + op_text(op_view(ops@[k as int])));
        }
        assert(out@ =~= start + text_of(ops_view(ops@.take(k + 1))));
        k = k + 1;
    }
    assert(ops@.take(k as int) =~= ops@);
}

} // verus!
