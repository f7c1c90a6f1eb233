use baffi::vm::{Inst, Vm};

#[test]
fn vm_test_inc_and_dec() {
    let mut vm = Vm::new(1, vec![], vec![]).unwrap();

    vm.eval(&vec![Inst::Inc, Inst::Inc, Inst::Dec]);
    assert_eq!(vec![1], vm.memory().clone());
}

#[test]
fn vm_test_next_and_prev() {
    let mut vm = Vm::new(2, vec![], vec![]).unwrap();

    vm.eval(&vec![Inst::Next, Inst::Inc, Inst::Prev, Inst::Inc]);
    assert_eq!(vec![1, 1], vm.memory().clone());
}

#[test]
fn vm_cant_move_beyond_end_of_memory() {
    let mut vm = Vm::new(1, vec![], vec![]).unwrap();
    let code = vec![Inst::Next, Inst::Inc];

    vm.eval(&code);
    assert_eq!(vec![1], vm.memory().clone());
}

#[test]
fn vm_test_input() {
    let mut vm = Vm::new(2, "\u{01}\u{10}".as_bytes().to_vec(), vec![]).unwrap();

    vm.eval(&vec![Inst::Input, Inst::Next, Inst::Input]);
    assert_eq!(vec![0x1, 0x10], vm.memory().clone());
}

#[test]
fn vm_read_end_of_input_set_cell_to_zero() {
    let mut vm = Vm::new(1, "\u{01}".as_bytes().to_vec(), vec![]).unwrap();
    let code = vec![Inst::Input, Inst::Input];

    vm.eval(&code);
    assert_eq!(vec![0], vm.memory().clone());
}

#[test]
fn vm_test_output() {
    let mut vm = Vm::new(1, vec![], vec![]).unwrap();
    let code = vec![Inst::Inc, Inst::Output, Inst::Inc, Inst::Output];
    vm.eval(&code);

    assert_eq!(vec![1, 2], vm.output().clone());
}

#[test]
fn null_bytes_arent_sent_to_output() {
    let mut vm = Vm::new(1, vec![], vec![]).unwrap();
    let code = vec![Inst::Output, Inst::Inc, Inst::Output];
    vm.eval(&code);

    assert_eq!(vec![0, 1], vm.output().clone());
}

#[test]
fn vm_an_empty_loop_doesnt_do_anything() {
    let mut vm = Vm::new(1, vec![], vec![]).unwrap();
    let code = vec![Inst::JumpIfZero(2), Inst::JumpUnlessZero(1)];

    vm.eval(&code);
    assert_eq!(vec![0], vm.memory().clone());
}

#[test]
fn loop_is_working_properly() {
    let mut vm = Vm::new(1, vec![], vec![]).unwrap();
    let code = vec![Inst::Inc, Inst::JumpIfZero(4), Inst::Dec, Inst::JumpUnlessZero(2)];

    vm.eval(&code);
    assert_eq!(vec![0], vm.memory().clone());
}

#[test]
fn vm_an_empty_memory_is_refused_by_the_constructor() {
    assert!(Vm::new(0, vec![], vec![]).is_none());
}
