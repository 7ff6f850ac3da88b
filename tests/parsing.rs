use brainfuck::parser::SyntaxError;
use brainfuck::syntax::{Operation, Program};

fn parsed(source: &str) -> Vec<Operation> {
    Program::parse(source).expect("source should parse").ops
}

#[test]
fn parse_read_increment_write() {
    assert_eq!(
        parsed(",+."),
        vec![Operation::ReadByte, Operation::IncrementCell, Operation::WriteByte]
    );
}

#[test]
fn parse_clear_loop() {
    assert_eq!(parsed("[-]"), vec![Operation::Loop(vec![Operation::DecrementCell])]);
}

#[test]
fn parse_all_instructions() {
    assert_eq!(
        parsed("><+-.,"),
        vec![
            Operation::MoveRight,
            Operation::MoveLeft,
            Operation::IncrementCell,
            Operation::DecrementCell,
            Operation::WriteByte,
            Operation::ReadByte,
        ]
    );
}

#[test]
fn parse_nested_loops() {
    assert_eq!(
        parsed("+[>[-]<-]."),
        vec![
            Operation::IncrementCell,
            Operation::Loop(vec![
                Operation::MoveRight,
                Operation::Loop(vec![Operation::DecrementCell]),
                Operation::MoveLeft,
                Operation::DecrementCell,
            ]),
            Operation::WriteByte,
        ]
    );
}

#[test]
fn parse_empty_source() {
    assert_eq!(parsed(""), Vec::new());
}

#[test]
fn parse_rejects_whitespace() {
    assert_eq!(
        Program::parse("+ +"),
        Err(SyntaxError::InvalidCharacter { position: 1, found: ' ' })
    );
}

#[test]
fn parse_rejects_letters_and_comments() {
    assert_eq!(
        Program::parse("+[-]x"),
        Err(SyntaxError::InvalidCharacter { position: 4, found: 'x' })
    );
    assert!(Program::parse("comment").is_err());
    assert!(Program::parse("[é]").is_err());
}

#[test]
fn parse_rejects_stray_close() {
    assert_eq!(Program::parse("]"), Err(SyntaxError::UnmatchedClose { position: 0 }));
    assert_eq!(Program::parse("+[]]"), Err(SyntaxError::UnmatchedClose { position: 3 }));
}

#[test]
fn parse_rejects_unclosed_loop() {
    assert_eq!(Program::parse("[[+]"), Err(SyntaxError::UnclosedLoop { missing: 1 }));
    assert_eq!(Program::parse("[["), Err(SyntaxError::UnclosedLoop { missing: 2 }));
}

#[test]
fn parse_reports_first_problem() {
    assert_eq!(
        Program::parse("]a"),
        Err(SyntaxError::UnmatchedClose { position: 0 })
    );
    assert_eq!(
        Program::parse("[a"),
        Err(SyntaxError::InvalidCharacter { position: 1, found: 'a' })
    );
}

#[test]
fn source_round_trip() {
    let source = "+[>[-]<-],.<>";
    let program = Program::parse(source).unwrap();
    assert_eq!(program.to_source(), source);
    let again = Program::parse(&program.to_source()).unwrap();
    assert_eq!(again, program);
}

#[test]
fn source_of_built_program() {
    let program = Program::new(vec![
        Operation::Loop(vec![Operation::Loop(vec![]), Operation::ReadByte]),
        Operation::WriteByte,
    ]);
    assert_eq!(program.to_source(), "[[],].");
    assert_eq!(Program::parse("[[],].").unwrap(), program);
}
