use brainfuck::syntax::Program;

#[test]
fn generated_block_for_clear_loop() {
    let program = Program::parse("+[-].").unwrap();
    let expected = [
        "{\n",
        "let mut pointer: usize = 0;\n",
        "let mut buf = vec![0_u8; 1024];\n",
        "let mut stdin = ::std::io::stdin();\n",
        "let mut stdout = ::std::io::stdout();\n",
        "buf[pointer] = buf[pointer].wrapping_add(1);\n",
        "while buf[pointer] != 0 {\n",
        "buf[pointer] = buf[pointer].wrapping_sub(1);\n",
        "}\n",
        "::std::io::Write::write_all(&mut stdout, ::std::slice::from_ref(&buf[pointer])).expect(\"failed to write\");\n",
        "::std::io::Write::flush(&mut stdout).expect(\"failed to write\");\n",
        "}\n",
    ]
    .concat();
    assert_eq!(program.to_rust(), expected);
}

#[test]
fn generated_statements_for_moves_and_read() {
    let text = Program::parse("><,").unwrap().to_rust();
    let moves = "pointer = pointer.wrapping_add(1);\npointer = pointer.wrapping_sub(1);\n";
    let read = "::std::io::Read::read_exact(&mut stdin, ::std::slice::from_mut(&mut buf[pointer])).expect(\"failed to read\");\n";
    assert!(text.contains(&format!("{}{}", moves, read)));
}
