use baffi::{read_and_strip_bf_code, Inst, Vm};

#[test]
fn i_can_use_a_string_as_input() {
    let code = read_and_strip_bf_code("+".as_bytes());
    assert_eq!(vec![Inst::Inc], code);
}

#[test]
fn lib_test_inc_and_dec() {
    let mut vm = Vm::new(1, vec![], vec![]).unwrap();

    vm.eval(&vec![Inst::Inc, Inst::Inc, Inst::Dec]);
    assert_eq!(vec![1], vm.memory().clone());
}

#[test]
fn lib_test_next_and_prev() {
    let mut vm = Vm::new(2, vec![], vec![]).unwrap();

    vm.eval(&vec![Inst::Next, Inst::Inc, Inst::Prev, Inst::Inc]);
    assert_eq!(vec![1, 1], vm.memory().clone());
}

#[test]
fn lib_cant_move_beyond_end_of_memory() {
    let mut vm = Vm::new(1, vec![], vec![]).unwrap();
    let code = vec![Inst::Next, Inst::Inc];

    vm.eval(&code);
    assert_eq!(vec![1], vm.memory().clone());
}

#[test]
fn lib_test_input() {
    let mut vm = Vm::new(2, "\u{01}\u{10}".as_bytes().to_vec(), vec![]).unwrap();

    vm.eval(&vec![Inst::Input, Inst::Next, Inst::Input]);
    assert_eq!(vec![0x1, 0x10], vm.memory().clone());
}

#[test]
fn lib_read_end_of_input_set_cell_to_zero() {
    let mut vm = Vm::new(1, "\u{01}".as_bytes().to_vec(), vec![]).unwrap();
    let code = vec![Inst::Input, Inst::Input];

    vm.eval(&code);
    assert_eq!(vec![0], vm.memory().clone());
}

#[test]
fn lib_test_output() {
    let mut vm = Vm::new(1, vec![], vec![]).unwrap();
    let code = vec![Inst::Output, Inst::Inc, Inst::Output];
    vm.eval(&code);

    assert_eq!(vec![0, 1], vm.output().clone());
}

#[test]
fn integer_arithmetic_wraps_around() {
    let mut code = vec![];
    for _ in 0..256 {
        code.push(Inst::Inc);
    }
    let mut vm = Vm::new(1, vec![], vec![]).unwrap();

    vm.eval(&code);
    assert_eq!(0, vm.memory()[0]);
}

#[test]
fn an_empty_memory_is_refused_by_the_constructor() {
    assert!(Vm::new(0, vec![], vec![]).is_none());
}

#[test]
fn high_input_bytes_land_as_negative_cells() {
    let mut vm = Vm::new(1, vec![0xff], vec![]).unwrap();

    vm.eval(&vec![Inst::Input, Inst::Output]);
    assert_eq!(vec![-1], vm.memory().clone());
    assert_eq!(vec![0xff], vm.output().clone());
}

#[test]
fn brackets_are_comment_text_for_the_straight_line_machine() {
    let code = read_and_strip_bf_code("[+]".as_bytes());
    assert_eq!(vec![Inst::Inc], code);
}
