use baffi::eval::{Inst, RuntimeError, Vm};

#[test]
fn add_and_sub() {
    let mut vm = Vm::new(1, vec![], vec![]);

    vm.eval(&vec![Inst::Add, Inst::Add, Inst::Sub]).unwrap();
    assert_eq!(vec![1], vm.memory().clone());
}

#[test]
fn add_wraps_around() {
    let mut vm = Vm::new(1, vec![], vec![]);
    let mut code = vec![];
    for _ in 0..256 {
        code.push(Inst::Add);
    }

    vm.eval(&code).unwrap();
    assert_eq!(vec![0], vm.memory().clone());
}

#[test]
fn sub_wraps_around() {
    let mut vm = Vm::new(1, vec![], vec![]);
    let mut code = vec![];
    for _ in 0..256 {
        code.push(Inst::Sub);
    }

    vm.eval(&code).unwrap();
    assert_eq!(vec![0], vm.memory().clone());
}

#[test]
fn right_and_left() {
    let mut vm = Vm::new(2, vec![], vec![]);

    vm.eval(&vec![Inst::Right, Inst::Add, Inst::Left, Inst::Add]).unwrap();
    assert_eq!(vec![1, 1], vm.memory().clone());
}

#[test]
fn move_beyond_end_of_memory_is_an_error() {
    let mut vm = Vm::new(1, vec![], vec![]);
    let code = vec![Inst::Right, Inst::Add];

    let error = vm.eval(&code).unwrap_err();
    assert_eq!(RuntimeError::pointer_out_of_bounds(), error);
}

#[test]
fn move_below_begin_of_memory_is_an_error() {
    let mut vm = Vm::new(1, vec![], vec![]);
    let code = vec![Inst::Left];

    let error = vm.eval(&code).unwrap_err();
    assert_eq!(RuntimeError::pointer_out_of_bounds(), error);
}

#[test]
fn failing_move_leaves_tape_and_pointer_untouched() {
    let mut vm = Vm::new(2, vec![], vec![]);
    let code = vec![Inst::Add, Inst::Right, Inst::Right, Inst::Add];

    let error = vm.eval(&code).unwrap_err();
    assert_eq!(RuntimeError::pointer_out_of_bounds(), error);
    assert_eq!(vec![1, 0], vm.memory().clone());
}

#[test]
fn input_bytes() {
    let mut vm = Vm::new(2, "\u{01}\u{10}".as_bytes().to_vec(), vec![]);

    vm.eval(&vec![Inst::Input, Inst::Right, Inst::Input]).unwrap();
    assert_eq!(vec![0x1, 0x10], vm.memory().clone());
}

#[test]
fn read_end_of_input_leave_current_cell_as_is() {
    let mut vm = Vm::new(1, vec![], vec![]);
    let code = vec![Inst::Add, Inst::Input];

    vm.eval(&code).unwrap();
    assert_eq!(vec![1], vm.memory().clone());
}

#[test]
fn output_cells() {
    let mut vm = Vm::new(2, vec![], vec![]);
    let code = vec![Inst::Add, Inst::Output, Inst::Right, Inst::Add, Inst::Output];
    vm.eval(&code).unwrap();

    let (_, output) = vm.into_inner();
    assert_eq!(vec![1, 1], output);
}

#[test]
fn eval_an_empty_loop_doesnt_do_anything() {
    let mut vm = Vm::new(1, vec![], vec![]);
    let code = vec![Inst::JumpIfZero(0x02), Inst::JumpUnlessZero(0x01)];

    vm.eval(&code).unwrap();
    assert_eq!(vec![0], vm.memory().clone());
}

#[test]
fn clear_loop_sets_a_cell_to_zero() {
    let mut vm = Vm::new(1, vec![], vec![]);
    let code = vec![
        Inst::Add,
        Inst::Add,
        Inst::JumpIfZero(0x04),
        Inst::Sub,
        Inst::JumpUnlessZero(0x02),
    ];

    vm.eval(&code).unwrap();
    assert_eq!(vec![0], vm.memory().clone());
}

#[test]
fn clear_loop_clears_every_starting_value() {
    for v in 0..256usize {
        let mut vm = Vm::new(1, vec![], vec![]);
        let mut code = vec![];
        for _ in 0..v {
            code.push(Inst::Add);
        }
        code.push(Inst::JumpIfZero(v + 3));
        code.push(Inst::Sub);
        code.push(Inst::JumpUnlessZero(v + 1));

        vm.eval(&code).unwrap();
        assert_eq!(vec![0], vm.memory().clone());
    }
}

#[test]
fn stepping_one_instruction_at_a_time_matches_eval() {
    let code = vec![Inst::Add, Inst::Add, Inst::Output];
    let mut stepped = Vm::new(1, vec![], vec![]);
    let mut pc = 0;
    while pc < code.len() {
        pc = stepped.step(&code, pc).unwrap();
    }

    let mut evaluated = Vm::new(1, vec![], vec![]);
    evaluated.eval(&code).unwrap();

    assert_eq!(evaluated.memory().clone(), stepped.memory().clone());
    let (_, stepped_out) = stepped.into_inner();
    let (_, evaluated_out) = evaluated.into_inner();
    assert_eq!(vec![2], stepped_out);
    assert_eq!(stepped_out, evaluated_out);
}

#[test]
fn into_inner_returns_input_and_output() {
    let mut vm = Vm::new(1, vec![7, 8], vec![9]);
    vm.eval(&vec![Inst::Input, Inst::Output]).unwrap();

    let (input, output) = vm.into_inner();
    assert_eq!(vec![7, 8], input);
    assert_eq!(vec![9, 7], output);
}

#[test]
fn public_moves_fail_at_the_tape_edges() {
    let mut vm = Vm::new(2, vec![], vec![]);
    assert_eq!(Err(RuntimeError::pointer_out_of_bounds()), vm.move_left());
    assert_eq!(Ok(()), vm.move_right());
    assert_eq!(Err(RuntimeError::pointer_out_of_bounds()), vm.move_right());
    assert_eq!(Ok(()), vm.move_left());
    assert_eq!(vec![0, 0], vm.memory().clone());
}
