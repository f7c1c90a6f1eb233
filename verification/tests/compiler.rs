use baffi::compiler::{compile_bf, Error};
use baffi::eval::Inst;

#[test]
fn compile_simple_instructions() {
    let code = compile_bf("+-><,.".as_bytes()).unwrap();
    assert_eq!(
        vec![Inst::Add, Inst::Sub, Inst::Right, Inst::Left, Inst::Input, Inst::Output],
        code
    );
}

#[test]
fn compile_empty_loop() {
    let code = compile_bf("[]".as_bytes()).unwrap();
    assert_eq!(vec![Inst::JumpIfZero(0x02), Inst::JumpUnlessZero(0x01)], code);
}

#[test]
fn compile_clear_loop() {
    let code = compile_bf("[-]".as_bytes()).unwrap();
    assert_eq!(
        vec![Inst::JumpIfZero(0x03), Inst::Sub, Inst::JumpUnlessZero(0x01)],
        code
    );
}

#[test]
fn unmatched_right_bracket() {
    let error = compile_bf("[]]".as_bytes()).unwrap_err();
    assert_eq!(Error::unmatched_bracket(), error);
}

#[test]
fn unmatched_left_bracket() {
    let error = compile_bf("[][".as_bytes()).unwrap_err();
    assert_eq!(Error::unmatched_bracket(), error);
}

#[test]
fn initial_non_command_characters_doesnt_panic_the_compiler() {
    let code = compile_bf("a+".as_bytes()).unwrap();
    assert_eq!(vec![Inst::Add], code);
}

#[test]
fn lone_opening_bracket_is_unmatched() {
    let error = compile_bf("[".as_bytes()).unwrap_err();
    assert_eq!(Error::unmatched_bracket(), error);
}

#[test]
fn lone_closing_bracket_is_unmatched() {
    let error = compile_bf("]".as_bytes()).unwrap_err();
    assert_eq!(Error::unmatched_bracket(), error);
}

#[test]
fn comments_only_compile_to_the_empty_program() {
    let code = compile_bf("hello world!\nno commands here".as_bytes()).unwrap();
    assert_eq!(Vec::<Inst>::new(), code);
}

#[test]
fn nested_loops_resolve_to_matching_targets() {
    let code = compile_bf("[[]]".as_bytes()).unwrap();
    assert_eq!(
        vec![
            Inst::JumpIfZero(4),
            Inst::JumpIfZero(3),
            Inst::JumpUnlessZero(2),
            Inst::JumpUnlessZero(1),
        ],
        code
    );
}
