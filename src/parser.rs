//! Parsing source text into a program, with explicit bracket matching.
use vstd::prelude::*;
use vstd::std_specs::iter::IteratorSpec;
use vstd::string::{axiom_spec_iter, next_postcondition};
use crate::syntax::{Op, Operation, Program, leaf_char, leaf_of_char, ops_view, op_view, text_of, op_text};

verus! {

/// Why a source text is not a program.
#[derive(Debug, Clone, Copy, PartialEq, Eq, Structural)]
pub enum SyntaxError {
    /// A character that is neither an instruction nor a bracket.
    InvalidCharacter { position: usize, found: char },
    /// A `]` with no open `[` before it.
    UnmatchedClose { position: usize },
    /// The text ends while `missing` loops are still open.
    UnclosedLoop { missing: usize },
}

/// The outcome of reading `s` from index `i` on, with `depth` loops open:
/// the first problem met from left to right, or `Ok` if there is none.
pub open spec fn scan(s: Seq<char>, i: int, depth: nat) -> Result<(), SyntaxError>
    decreases s.len() - i,
{
    if i >= s.len() {
        if depth == 0 {
            Ok(())
        } else {
            Err(SyntaxError::UnclosedLoop { missing: depth as usize })
        }
    } else if s[i] == '[' {
        scan(s, i + 1, depth + 1)
    } else if s[i] == ']' {
        if depth == 0 {
            Err(SyntaxError::UnmatchedClose { position: i as usize })
        } else {
            scan(s, i + 1, (depth - 1) as nat)
        }
    } else if leaf_of_char(s[i]) is Some {
        scan(s, i + 1, depth)
    } else {
        Err(SyntaxError::InvalidCharacter { position: i as usize, found: s[i] })
    }
}

/// The leaf operation for an instruction character.
fn leaf_of(c: char) -> (r: Option<Operation>)
    ensures
        r is Some <==> leaf_of_char(c) is Some,
        r matches Some(o) ==> leaf_of_char(c) == Some(op_view(o)) && !(o is Loop),
{
    if c == '>' {
        Some(Operation::MoveRight)
    } else if c == '<' {
        Some(Operation::MoveLeft)
    } else if c == '+' {
        Some(Operation::IncrementCell)
    } else if c == '-' {
        Some(Operation::DecrementCell)
    } else if c == '.' {
        Some(Operation::WriteByte)
    } else if c == ',' {
        Some(Operation::ReadByte)
    } else {
        None
    }
}

/// The characters of `source`, in order.
fn chars_of(source: &str) -> (r: Vec<char>)
    ensures
        r@ == source@,
{
    let mut r: Vec<char> = Vec::new();
    let mut it = source.chars();
    proof {
        axiom_spec_iter(source);
    }
    loop
        invariant
            r@ + IteratorSpec::remaining(&it) == source@,
            it.obeys_prophetic_iter_laws(),
            IteratorSpec::decrease(&it) is Some,
        ensures
            r@ == source@,
        decreases IteratorSpec::decrease(&it)->0,
    {
        let ghost before = it;
        match it.next() {
            Some(c) => {
                proof {
                    next_postcondition(&before, &it, Some(c));
                }
                r.push(c);
                assert(r@ + IteratorSpec::remaining(&it) =~= source@);
            },
            None => {
                proof {
                    next_postcondition(&before, &it, None);
                }
                assert(r@ =~= source@);
                break;
            },
        }
    }
    r
}

/// Reads `s` from left to right and reports its first problem, if any.
fn check(s: &Vec<char>) -> (r: Result<(), SyntaxError>)
    ensures
        r == scan(s@, 0, 0),
{
    let mut k: usize = 0;
    let mut depth: usize = 0;
    while k < s.len()
        invariant
            k <= s@.len(),
            depth <= k,
            scan(s@, 0, 0) == scan(s@, k as int, depth as nat),
        decreases s@.len() - k,
    {
        let c = s[k];
        if c == '[' {
            depth = depth + 1;
        } else if c == ']' {
            if depth == 0 {
                return Err(SyntaxError::UnmatchedClose { position: k });
            }
            depth = depth - 1;
        } else if leaf_of(c).is_none() {
            return Err(SyntaxError::InvalidCharacter { position: k, found: c });
        }
        k = k + 1;
    }
    if depth == 0 {
        Ok(())
    } else {
        Err(SyntaxError::UnclosedLoop { missing: depth })
    }
}

/// Builds the operations of `s` from `start` up to the `]` that closes the
/// current loop, or to the end at top level. `s` is known to have no problem
/// from `start` on with `depth` loops open.
fn build(s: &Vec<char>, start: usize, Ghost(depth): Ghost<nat>) -> (r: (Vec<Operation>, usize))
    requires
        start <= s@.len(),
        scan(s@, start as int, depth) is Ok,
    ensures
        start <= r.1 <= s@.len(),
        text_of(ops_view(r.0@)) == s@.subrange(start as int, r.1 as int),
        scan(s@, r.1 as int, depth) is Ok,
        (r.1 == s@.len() && depth == 0) || (r.1 < s@.len() && s@[r.1 as int] == ']' && depth > 0),
    decreases s@.len() - start,
{
    let mut ops: Vec<Operation> = Vec::new();
    let mut k: usize = start;
    while k < s.len()
        invariant
            start <= k <= s@.len(),
            scan(s@, k as int, depth) is Ok,
            text_of(ops_view(ops@)) == s@.subrange(start as int, k as int),
        decreases s@.len() - k,
    {
        let c = s[k];
        if c == ']' {
            return (ops, k);
        }
        let ghost before = ops@;
        if c == '[' {
            let (body, end) = build(s, k + 1, Ghost(depth + 1));
            proof {
                assert(text_of(ops_view(body@)) == s@.subrange(k + 1, end as int));
            }
            ops.push(Operation::Loop(body));
            proof {
                assert(op_text(op_view(ops@.last())) =~= s@.subrange(k as int, end + 1));
            }
            k = end + 1;
        } else {
            match leaf_of(c) {
                Some(o) => {
                    ops.push(o);
                    proof {
                        assert(op_text(op_view(ops@.last())) =~= s@.subrange(k as int, k + 1));
                    }
                },
                None => {
                    proof {
                        assert(false);
                    }
                },
            }
            k = k + 1;
        }
        proof {
            assert(ops@.drop_last() =~= before);
            let prev = ops_view(before);
            let next = ops_view(ops@);
            assert(next == prev.push(op_view(ops@.last())));
            assert(next.drop_last() =~= prev);
            assert(text_of(next) == text_of(prev) + op_text(op_view(ops@.last())));
            assert(s@.subrange(start as int, k as int) =~= s@.subrange(
                start as int,
                k - op_text(op_view(ops@.last())).len(),
            ) + op_text(op_view(ops@.last())));
        }
    }
    (ops, k)
}

impl Program {
    /// Parses source text. Every character must be one of `><+-.,` or a
    /// bracket, and brackets must match; otherwise the first problem from
    /// the left is reported and no program is produced.
    pub fn parse(source: &str) -> (r: Result<Program, SyntaxError>)
        ensures
            r is Ok <==> scan(source@, 0, 0) is Ok,
            r matches Ok(p) ==> text_of(p@) == source@,
            r matches Err(e) ==> scan(source@, 0, 0) == Err::<(), SyntaxError>(e),
    {
        let chars = chars_of(source);
        match check(&chars) {
            Err(e) => Err(e),
            Ok(()) => {
                let (ops, end) = build(&chars, 0, Ghost(0));
                assert(chars@.subrange(0, end as int) =~= chars@);
                Ok(Program { ops })
            },
        }
    }
}

/// The text of a concatenation is the concatenation of the texts.
proof fn lemma_text_concat(a: Seq<Op>, b: Seq<Op>)
    ensures
        text_of(a + b) == text_of(a) + text_of(b),
    decreases b.len(),
{
    if b.len() == 0 {
        assert(a + b =~= a);
        assert(text_of(a) + text_of(b) =~= text_of(a));
    } else {
        lemma_text_concat(a, b.drop_last());
        assert((a + b).drop_last() =~= a + b.drop_last());
        assert((a + b).last() == b.last());
        assert(text_of(a + b) =~= text_of(a) + text_of(b));
    }
}

/// The text of a nonempty sequence starts with the text of its first element.
proof fn lemma_text_cons(ops: Seq<Op>)
    requires
        ops.len() > 0,
    ensures
        text_of(ops) == op_text(ops[0]) + text_of(ops.drop_first()),
        text_of(ops).len() > 0,
        text_of(ops)[0] == leaf_char(ops[0]),
{
    let head = seq![ops[0]];
    lemma_text_concat(head, ops.drop_first());
    assert(head + ops.drop_first() =~= ops);
    assert(head.drop_last() =~= Seq::<Op>::empty());
    assert(text_of(head.drop_last()) == Seq::<char>::empty());
    assert(text_of(head) == text_of(head.drop_last()) + op_text(head.last()));
    assert(text_of(head) =~= op_text(ops[0]));
}

/// Reading the text of `ops`, wherever it stands in `s`, leaves the depth as
/// it was and meets no problem.
proof fn lemma_scan_over_text(s: Seq<char>, i: int, depth: nat, ops: Seq<Op>)
    requires
        0 <= i,
        i + text_of(ops).len() <= s.len(),
        s.subrange(i, i + text_of(ops).len()) == text_of(ops),
    ensures
        scan(s, i, depth) == scan(s, i + text_of(ops).len(), depth),
    decreases ops,
{
    if ops.len() > 0 {
        let whole = text_of(ops);
        let init = ops.drop_last();
        let last = ops.last();
        let ti = text_of(init);
        let t = op_text(last);
        let m = i + ti.len();
        assert(whole == ti + t);
        assert forall|k: int| 0 <= k < ti.len() implies s.subrange(i, m)[k] == ti[k] by {
            assert(s.subrange(i, i + whole.len())[k] == whole[k]);
        }
        assert(s.subrange(i, m) =~= ti);
        lemma_scan_over_text(s, i, depth, init);
        assert forall|k: int| 0 <= k < t.len() implies s[m + k] == t[k] by {
            assert(s.subrange(i, i + whole.len())[ti.len() + k] == whole[ti.len() + k]);
        }
        assert(s[m] == t[0]);
        match last {
            Op::Loop(body) => {
                let tb = text_of(body);
                let e = m + 1 + tb.len();
                assert(t == seq!['['] + tb + seq![']']);
                assert forall|k: int| 0 <= k < tb.len() implies s.subrange(m + 1, e)[k] == tb[k] by {
                    assert(s[m + 1 + k] == t[1 + k]);
                }
                assert(s.subrange(m + 1, e) =~= tb);
                lemma_scan_over_text(s, m + 1, depth + 1, body);
                assert(s[e] == t[t.len() - 1]);
            },
            _ => {},
        }
    }
}

/// Equal concatenations with equally long first parts have equal parts.
proof fn lemma_split_eq(p1: Seq<char>, q1: Seq<char>, p2: Seq<char>, q2: Seq<char>)
    requires
        p1 + q1 == p2 + q2,
        p1.len() == p2.len(),
    ensures
        p1 == p2,
        q1 == q2,
{
    assert(p1 =~= (p1 + q1).subrange(0, p1.len() as int));
    assert(p2 =~= (p2 + q2).subrange(0, p2.len() as int));
    assert(q1 =~= (p1 + q1).subrange(p1.len() as int, (p1 + q1).len() as int));
    assert(q2 =~= (p2 + q2).subrange(p2.len() as int, (p2 + q2).len() as int));
}

/// Sequences with the same first element and the same rest are equal.
proof fn lemma_cons_eq(a: Seq<Op>, b: Seq<Op>)
    requires
        a.len() > 0,
        b.len() > 0,
        a[0] == b[0],
        a.drop_first() == b.drop_first(),
    ensures
        a == b,
{
    assert(a.drop_first().len() == a.len() - 1);
    assert(b.drop_first().len() == b.len() - 1);
    assert(a.len() == b.len());
    assert forall|k: int| 0 <= k < a.len() implies a[k] == b[k] by {
        if k > 0 {
            assert(a[k] == a.drop_first()[k - 1]);
            assert(b[k] == b.drop_first()[k - 1]);
        }
    }
    assert(a =~= b);
}

/// Where the texts of two nonempty sequences, each followed by more
/// characters, agree, their first operations are of the same kind, and what
/// follows the first character agrees too.
proof fn lemma_first_op(a: Seq<Op>, b: Seq<Op>, r1: Seq<char>, r2: Seq<char>)
    requires
        a.len() > 0,
        b.len() > 0,
        text_of(a) + r1 == text_of(b) + r2,
    ensures
        (a[0] is Loop) == (b[0] is Loop),
        !(a[0] is Loop) ==> a[0] == b[0] && text_of(a.drop_first()) + r1 == text_of(
            b.drop_first(),
        ) + r2,
        a[0] is Loop ==> text_of(a[0]->Loop_0) + (seq![']'] + (text_of(a.drop_first()) + r1))
            == text_of(b[0]->Loop_0) + (seq![']'] + (text_of(b.drop_first()) + r2)),
{
    lemma_text_cons(a);
    lemma_text_cons(b);
    let ta = text_of(a.drop_first());
    let tb = text_of(b.drop_first());
    let ha = op_text(a[0]);
    let hb = op_text(b[0]);
    assert(text_of(a) + r1 =~= ha + (ta + r1));
    assert(text_of(b) + r2 =~= hb + (tb + r2));
    assert((ha + (ta + r1))[0] == ha[0]);
    assert((hb + (tb + r2))[0] == hb[0]);
    match a[0] {
        Op::Loop(x) => {
            let y = b[0]->Loop_0;
            let rest1 = seq![']'] + (ta + r1);
            let rest2 = seq![']'] + (tb + r2);
            assert(ha + (ta + r1) =~= seq!['['] + (text_of(x) + rest1));
            assert(hb + (tb + r2) =~= seq!['['] + (text_of(y) + rest2));
            lemma_split_eq(seq!['['], text_of(x) + rest1, seq!['['], text_of(y) + rest2);
        },
        _ => {
            assert(ha == seq![leaf_char(a[0])]);
            assert(hb == seq![leaf_char(b[0])]);
            lemma_split_eq(ha, ta + r1, hb, tb + r2);
        },
    }
}

/// Two sequences of operations whose texts, each followed by nothing or by
/// a `]`, spell the same characters are the same sequence.
proof fn lemma_text_unique(a: Seq<Op>, b: Seq<Op>, r1: Seq<char>, r2: Seq<char>)
    requires
        text_of(a) + r1 == text_of(b) + r2,
        r1.len() == 0 || r1[0] == ']',
        r2.len() == 0 || r2[0] == ']',
    ensures
        a == b,
        r1 == r2,
    decreases a,
{
    if a.len() == 0 && b.len() == 0 {
        assert(text_of(a) + r1 =~= r1);
        assert(text_of(b) + r2 =~= r2);
        assert(a =~= b);
    } else if a.len() == 0 {
        lemma_text_cons(b);
        assert(text_of(a) + r1 =~= r1);
        assert((text_of(b) + r2)[0] == text_of(b)[0]);
    } else if b.len() == 0 {
        lemma_text_cons(a);
        assert(text_of(b) + r2 =~= r2);
        assert((text_of(a) + r1)[0] == text_of(a)[0]);
    } else {
        lemma_first_op(a, b, r1, r2);
        let ta = text_of(a.drop_first());
        let tb = text_of(b.drop_first());
        if a[0] is Loop {
            let x = a[0]->Loop_0;
            let y = b[0]->Loop_0;
            lemma_text_unique(x, y, seq![']'] + (ta + r1), seq![']'] + (tb + r2));
            lemma_split_eq(seq![']'], ta + r1, seq![']'], tb + r2);
        }
        lemma_text_unique(a.drop_first(), b.drop_first(), r1, r2);
        lemma_cons_eq(a, b);
    }
}

/// Round trip: the text of any program parses without problem, and the only
/// program with that text is the program itself. With the contract of
/// `Program::parse`, parsing the output of `Program::to_source` gives back a
/// structurally identical program.
pub proof fn lemma_round_trip(ops: Seq<Op>)
    ensures
        scan(text_of(ops), 0, 0) is Ok,
        forall|other: Seq<Op>| #[trigger] text_of(other) == text_of(ops) ==> other == ops,
{
    let t = text_of(ops);
    assert(t.subrange(0, t.len() as int) =~= t);
    lemma_scan_over_text(t, 0, 0, ops);
    assert forall|other: Seq<Op>| #[trigger] text_of(other) == text_of(ops) implies other == ops by {
        let e = Seq::<char>::empty();
        assert(text_of(other) + e =~= text_of(ops) + e);
        lemma_text_unique(other, ops, e, e);
    }
}

/// From index `j` on, a foreign character at `i >= j` is always reported
/// (or an earlier problem is).
proof fn lemma_scan_meets_foreign(s: Seq<char>, i: int, j: int, depth: nat)
    requires
        0 <= j <= i < s.len(),
        leaf_of_char(s[i]) is None,
        s[i] != '[',
        s[i] != ']',
    ensures
        scan(s, j, depth) is Err,
    decreases i - j,
{
    if j < i {
        if s[j] == '[' {
            lemma_scan_meets_foreign(s, i, j + 1, depth + 1);
        } else if s[j] == ']' {
            if depth > 0 {
                lemma_scan_meets_foreign(s, i, j + 1, (depth - 1) as nat);
            }
        } else {
            lemma_scan_meets_foreign(s, i, j + 1, depth);
        }
    }
}

/// A source text holding any character outside `><+-.,[]` is rejected:
/// `Program::parse` returns an error for it and no program.
pub proof fn lemma_foreign_character_rejected(s: Seq<char>, i: int)
    requires
        0 <= i < s.len(),
        leaf_of_char(s[i]) is None,
        s[i] != '[',
        s[i] != ']',
    ensures
        scan(s, 0, 0) is Err,
{
    lemma_scan_meets_foreign(s, i, 0, 0);
}

} // verus!
