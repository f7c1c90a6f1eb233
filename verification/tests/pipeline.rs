use baffi::compiler::compile_bf;
use baffi::eval::{Inst, Vm};

#[test]
fn simple_program() {
    let mut vm = Vm::new(9999, vec![], vec![]);
    let code = compile_bf("+.".as_bytes()).unwrap();
    vm.eval(&code).unwrap();

    let (_, output) = vm.into_inner();
    assert_eq!(vec![1], output);
}

#[test]
fn comments_only_source_is_a_no_op() {
    let mut vm = Vm::new(3, vec![5], vec![]);
    let code = compile_bf("plain prose; none of it executes".as_bytes()).unwrap();
    vm.eval(&code).unwrap();

    assert_eq!(Vec::<Inst>::new(), code);
    assert_eq!(vec![0, 0, 0], vm.memory().clone());
    let (input, output) = vm.into_inner();
    assert_eq!(vec![5], input);
    assert_eq!(Vec::<u8>::new(), output);
}

#[test]
fn copy_program_copies_one_byte_verbatim() {
    let code = compile_bf(",.".as_bytes()).unwrap();
    assert_eq!(vec![Inst::Input, Inst::Output], code);

    let mut vm = Vm::new(1, vec![0xab], vec![]);
    vm.eval(&code).unwrap();
    let (_, output) = vm.into_inner();
    assert_eq!(vec![0xab], output);
}

#[test]
fn copy_program_on_exhausted_input_writes_the_cell() {
    let code = compile_bf(",.".as_bytes()).unwrap();

    let mut vm = Vm::new(1, vec![], vec![]);
    vm.eval(&code).unwrap();
    let (_, output) = vm.into_inner();
    assert_eq!(vec![0], output);
}

#[test]
fn compiled_clear_loop_clears_the_cell() {
    let clear = compile_bf("[-]".as_bytes()).unwrap();
    for v in 0..256usize {
        let mut raise = Vec::new();
        for _ in 0..v {
            raise.push(Inst::Add);
        }
        let mut vm = Vm::new(1, vec![], vec![]);
        vm.eval(&raise).unwrap();
        vm.eval(&clear).unwrap();
        assert_eq!(vec![0], vm.memory().clone());
    }
}

#[test]
fn compiled_empty_loop_halts_on_zero_cell() {
    let code = compile_bf("[]".as_bytes()).unwrap();
    let mut vm = Vm::new(2, vec![1, 2], vec![]);
    vm.eval(&code).unwrap();

    assert_eq!(vec![0, 0], vm.memory().clone());
    let (input, output) = vm.into_inner();
    assert_eq!(vec![1, 2], input);
    assert_eq!(Vec::<u8>::new(), output);
}
