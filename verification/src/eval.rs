//! The virtual machine: executes a compiled program against a bounded byte
//! tape, reading from an in-memory input stream and appending to an in-memory
//! output stream.

use vstd::arithmetic::div_mod::lemma_add_mod_noop_right;
use vstd::arithmetic::div_mod::lemma_sub_mod_noop_right;
use vstd::prelude::*;

verus! {

/// One instruction of a compiled program.
///
/// `JumpIfZero` and `JumpUnlessZero` carry absolute targets into the program.
/// `Placeholder` is emitted by the compiler at an opening bracket before its
/// target is known; it never survives in a successfully compiled program.
#[derive(Clone, Copy, Debug, PartialEq, Eq, Structural)]
pub enum Inst {
    Add,
    Sub,
    Right,
    Left,
    Input,
    Output,
    JumpIfZero(usize),
    JumpUnlessZero(usize),
    Placeholder,
}

/// The ways a run can fail.
#[derive(Clone, Copy, Debug, PartialEq, Eq, Structural)]
pub enum RuntimeErrorKind {
    PointerOutOfBounds,
    IoError,
}

/// An error aborting an evaluation at the offending instruction.
#[derive(Clone, Copy, Debug, PartialEq, Eq, Structural)]
pub struct RuntimeError {
    pub kind: RuntimeErrorKind,
}

impl RuntimeError {
    pub fn pointer_out_of_bounds() -> (r: RuntimeError)
        ensures
            r.kind == RuntimeErrorKind::PointerOutOfBounds,
    {
        RuntimeError { kind: RuntimeErrorKind::PointerOutOfBounds }
    }

    pub fn io_error() -> (r: RuntimeError)
        ensures
            r.kind == RuntimeErrorKind::IoError,
    {
        RuntimeError { kind: RuntimeErrorKind::IoError }
    }
}

/// The machine: a fixed-size byte tape, a pointer into it, an input stream
/// consumed one byte per `Input` instruction, and an output stream grown one
/// byte per `Output` instruction.
pub struct Vm {
    memory: Vec<u8>,
    pointer: usize,
    input: Vec<u8>,
    cursor: usize,
    output: Vec<u8>,
}

/// The mathematical value of a [`Vm`]: tape contents, pointer, the whole
/// input stream with a cursor marking how much of it was consumed, and the
/// output written so far.
pub ghost struct VmView {
    pub memory: Seq<u8>,
    pub pointer: int,
    pub input: Seq<u8>,
    pub cursor: int,
    pub output: Seq<u8>,
}

impl View for Vm {
    type V = VmView;

    closed spec fn view(&self) -> VmView {
        VmView {
            memory: self.memory@,
            pointer: self.pointer as int,
            input: self.input@,
            cursor: self.cursor as int,
            output: self.output@,
        }
    }
}

impl VmView {
    /// The tape is non-empty, the pointer addresses a cell, and the cursor
    /// stays within the input.
    pub open spec fn wf(self) -> bool {
        &&& 0 < self.memory.len()
        &&& 0 <= self.pointer < self.memory.len()
        &&& 0 <= self.cursor <= self.input.len()
    }

    /// The byte at the pointer.
    pub open spec fn cell(self) -> u8 {
        self.memory[self.pointer]
    }
}

impl Vm {
    pub open spec fn wf(&self) -> bool {
        self@.wf()
    }

    /// Builds a machine with `size` zeroed cells, the pointer on the first
    /// one, and the given streams.
    pub fn new(size: usize, input: Vec<u8>, output: Vec<u8>) -> (vm: Vm)
        requires
            size > 0,
        ensures
            vm.wf(),
            vm@.memory.len() == size,
            forall|i: int| 0 <= i < size ==> vm@.memory[i] == 0u8,
            vm@.pointer == 0,
            vm@.input == input@,
            vm@.cursor == 0,
            vm@.output == output@,
    {
        let mut memory: Vec<u8> = Vec::new();
        while memory.len() < size
            invariant
                memory@.len() <= size,
                forall|i: int| 0 <= i < memory@.len() ==> memory@[i] == 0u8,
            decreases size - memory.len(),
        {
            memory.push(0);
        }
        Vm { memory, pointer: 0, input, cursor: 0, output }
    }

    /// Hands the streams back: the input as given at construction, and
    /// everything written to the output.
    pub fn into_inner(self) -> (r: (Vec<u8>, Vec<u8>))
        ensures
            r.0@ == self@.input,
            r.1@ == self@.output,
    {
        (self.input, self.output)
    }

    /// The tape, for inspection after a run.
    pub fn memory(&self) -> (r: &Vec<u8>)
        ensures
            r@ == self@.memory,
    {
        &self.memory
    }

    fn add_cell(&mut self)
        requires
            old(self).wf(),
        ensures
            final(self).wf(),
            final(self)@ == (VmView {
                memory: old(self)@.memory.update(old(self)@.pointer, old(self)@.cell().wrapping_add(1)),
                ..old(self)@
            }),
    {
        let v = self.memory[self.pointer];
        self.memory[self.pointer] = v.wrapping_add(1);
    }

    fn sub_cell(&mut self)
        requires
            old(self).wf(),
        ensures
            final(self).wf(),
            final(self)@ == (VmView {
                memory: old(self)@.memory.update(old(self)@.pointer, old(self)@.cell().wrapping_sub(1)),
                ..old(self)@
            }),
    {
        let v = self.memory[self.pointer];
        self.memory[self.pointer] = v.wrapping_sub(1);
    }

    /// Moves the pointer one cell to the right. At the tape's last cell this
    /// fails with `PointerOutOfBounds`, and the failing move leaves tape,
    /// pointer and streams exactly as they were.
    pub fn move_right(&mut self) -> (r: Result<(), RuntimeError>)
        requires
            old(self).wf(),
        ensures
            final(self).wf(),
            match r {
                Ok(()) => old(self)@.pointer < old(self)@.memory.len() - 1
                    && final(self)@ == (VmView { pointer: old(self)@.pointer + 1, ..old(self)@ }),
                Err(e) => old(self)@.pointer == old(self)@.memory.len() - 1
                    && final(self)@ == old(self)@
                    && e.kind == RuntimeErrorKind::PointerOutOfBounds,
            },
    {
        if self.pointer < self.memory.len() - 1 {
            self.pointer = self.pointer + 1;
            Ok(())
        } else {
            Err(RuntimeError::pointer_out_of_bounds())
        }
    }

    /// Moves the pointer one cell to the left. At the tape's first cell this
    /// fails with `PointerOutOfBounds`, and the failing move leaves tape,
    /// pointer and streams exactly as they were.
    pub fn move_left(&mut self) -> (r: Result<(), RuntimeError>)
        requires
            old(self).wf(),
        ensures
            final(self).wf(),
            match r {
                Ok(()) => old(self)@.pointer > 0
                    && final(self)@ == (VmView { pointer: old(self)@.pointer - 1, ..old(self)@ }),
                Err(e) => old(self)@.pointer == 0
                    && final(self)@ == old(self)@
                    && e.kind == RuntimeErrorKind::PointerOutOfBounds,
            },
    {
        if self.pointer > 0 {
            self.pointer = self.pointer - 1;
            Ok(())
        } else {
            Err(RuntimeError::pointer_out_of_bounds())
        }
    }

    /// Reads one byte from the input into the cell at the pointer; at the end
    /// of the stream the cell keeps its value. With in-memory streams no
    /// failure is possible, so the result is always `Ok`.
    fn read_cell(&mut self) -> (r: Result<(), RuntimeError>)
        requires
            old(self).wf(),
        ensures
            final(self).wf(),
            r is Ok,
            final(self)@ == (if old(self)@.cursor < old(self)@.input.len() {
                VmView {
                    memory: old(self)@.memory.update(
                        old(self)@.pointer,
                        old(self)@.input[old(self)@.cursor],
                    ),
                    cursor: old(self)@.cursor + 1,
                    ..old(self)@
                }
            } else {
                old(self)@
            }),
    {
        if self.cursor < self.input.len() {
            let b = self.input[self.cursor];
            self.memory[self.pointer] = b;
            self.cursor = self.cursor + 1;
        }
        Ok(())
    }

    /// Writes the cell at the pointer to the output stream. With an in-memory
    /// stream no failure is possible, so the result is always `Ok`.
    fn write_cell(&mut self) -> (r: Result<(), RuntimeError>)
        requires
            old(self).wf(),
        ensures
            final(self).wf(),
            r is Ok,
            final(self)@ == (VmView { output: old(self)@.output.push(old(self)@.cell()), ..old(self)@ }),
    {
        let b = self.memory[self.pointer];
        self.output.push(b);
        Ok(())
    }

    fn curr_cell_value(&self) -> (r: u8)
        requires
            self.wf(),
        ensures
            r == self@.cell(),
    {
        self.memory[self.pointer]
    }
}

/// A point of an execution: the machine plus the program counter.
pub ghost struct ExecState {
    pub vm: VmView,
    pub pc: int,
}

/// The outcome of running with a bounded budget of steps: the run halted
/// normally, aborted with an error at the given state, or used the whole
/// budget without halting.
pub ghost enum RunOutcome {
    Done(ExecState),
    Fail { at: ExecState, kind: RuntimeErrorKind },
    Pending(ExecState),
}

/// What one instruction does at state `s`: the next state, or the error that
/// aborts the run there. A `Placeholder` stutters: it never appears in a
/// compiled program, and an execution that meets one makes no progress.
pub open spec fn next_state(code: Seq<Inst>, s: ExecState) -> Result<ExecState, RuntimeErrorKind>
    recommends
        0 <= s.pc < code.len(),
        s.vm.wf(),
{
    match code[s.pc] {
        Inst::Add => Ok(ExecState {
            vm: VmView {
                memory: s.vm.memory.update(s.vm.pointer, s.vm.cell().wrapping_add(1)),
                ..s.vm
            },
            pc: s.pc + 1,
        }),
        Inst::Sub => Ok(ExecState {
            vm: VmView {
                memory: s.vm.memory.update(s.vm.pointer, s.vm.cell().wrapping_sub(1)),
                ..s.vm
            },
            pc: s.pc + 1,
        }),
        Inst::Right => if s.vm.pointer < s.vm.memory.len() - 1 {
            Ok(ExecState { vm: VmView { pointer: s.vm.pointer + 1, ..s.vm }, pc: s.pc + 1 })
        } else {
            Err(RuntimeErrorKind::PointerOutOfBounds)
        },
        Inst::Left => if s.vm.pointer > 0 {
            Ok(ExecState { vm: VmView { pointer: s.vm.pointer - 1, ..s.vm }, pc: s.pc + 1 })
        } else {
            Err(RuntimeErrorKind::PointerOutOfBounds)
        },
        Inst::Input => Ok(ExecState {
            vm: if s.vm.cursor < s.vm.input.len() {
                VmView {
                    memory: s.vm.memory.update(s.vm.pointer, s.vm.input[s.vm.cursor]),
                    cursor: s.vm.cursor + 1,
                    ..s.vm
                }
            } else {
                s.vm
            },
            pc: s.pc + 1,
        }),
        Inst::Output => Ok(ExecState {
            vm: VmView { output: s.vm.output.push(s.vm.cell()), ..s.vm },
            pc: s.pc + 1,
        }),
        Inst::JumpIfZero(t) => Ok(ExecState {
            vm: s.vm,
            pc: if s.vm.cell() == 0 { t as int } else { s.pc + 1 },
        }),
        Inst::JumpUnlessZero(t) => Ok(ExecState {
            vm: s.vm,
            pc: if s.vm.cell() != 0 { t as int } else { s.pc + 1 },
        }),
        Inst::Placeholder => Ok(s),
    }
}

/// Runs at most `fuel` instructions from `s`. The run is `Done` as soon as
/// the program counter leaves the program (there is no halt instruction),
/// `Fail` at the state from which an instruction aborts, and `Pending` if the
/// budget is used up first.
pub open spec fn run(code: Seq<Inst>, s: ExecState, fuel: nat) -> RunOutcome
    decreases fuel,
{
    if !(0 <= s.pc < code.len()) {
        RunOutcome::Done(s)
    } else if fuel == 0 {
        RunOutcome::Pending(s)
    } else {
        match next_state(code, s) {
            Ok(t) => run(code, t, (fuel - 1) as nat),
            Err(k) => RunOutcome::Fail { at: s, kind: k },
        }
    }
}

/// The state a fresh evaluation of `vm` begins in.
pub open spec fn start_state(vm: VmView) -> ExecState {
    ExecState { vm: vm, pc: 0 }
}

/// The evaluation of `code` on `vm` halts, normally or with an error.
pub open spec fn halts(code: Seq<Inst>, vm: VmView) -> bool {
    exists|fuel: nat| !(run(code, start_state(vm), fuel) is Pending)
}

/// Some budget makes the evaluation of `code` on `from` halt normally
/// rather than abort.
pub open spec fn halts_normally(code: Seq<Inst>, from: VmView) -> bool {
    exists|fuel: nat| (#[trigger] run(code, start_state(from), fuel)) is Done
}

/// Evaluating `code` from machine `from` halts normally with machine `to`.
pub open spec fn reaches_done(code: Seq<Inst>, from: VmView, to: VmView) -> bool {
    exists|fuel: nat|
        ((#[trigger] run(code, start_state(from), fuel)) matches RunOutcome::Done(e) && e.vm
            == to)
}

/// Evaluating `code` from machine `from` aborts with error `k`, the machine
/// standing at `to`, untouched by the failing instruction.
pub open spec fn reaches_failure(
    code: Seq<Inst>,
    from: VmView,
    to: VmView,
    k: RuntimeErrorKind,
) -> bool {
    exists|fuel: nat|
        ((#[trigger] run(code, start_state(from), fuel)) matches RunOutcome::Fail { at, kind }
            && at.vm == to && kind == k)
}

/// No placeholder instruction is left in the program; true of every
/// successfully compiled program.
pub open spec fn no_placeholders(code: Seq<Inst>) -> bool {
    forall|i: int| 0 <= i < code.len() ==> code[i] != Inst::Placeholder
}

impl Vm {
    /// Executes the single instruction `code[pc]` and returns the next
    /// program counter, or the error that aborts the run, leaving the machine
    /// untouched. One call performs one step of [`run`].
    pub fn step(&mut self, code: &Vec<Inst>, pc: usize) -> (r: Result<usize, RuntimeError>)
        requires
            old(self).wf(),
            pc < code@.len(),
            code@[pc as int] != Inst::Placeholder,
        ensures
            final(self).wf(),
            final(self)@.memory.len() == old(self)@.memory.len(),
            final(self)@.input == old(self)@.input,
            match r {
                Ok(pc2) => next_state(code@, (ExecState { vm: old(self)@, pc: pc as int }))
                    == Ok::<ExecState, RuntimeErrorKind>(
                    (ExecState { vm: final(self)@, pc: pc2 as int }),
                ),
                Err(e) => next_state(code@, (ExecState { vm: old(self)@, pc: pc as int }))
                    == Err::<ExecState, RuntimeErrorKind>(e.kind) && final(self)@ == old(self)@,
            },
    {
        let n = code.len();
        proof {
            assert(pc < n);  // so pc + 1 cannot overflow
        }
        let inst = code[pc];
        match inst {
            Inst::Add => {
                self.add_cell();
                Ok(pc + 1)
            },
            Inst::Sub => {
                self.sub_cell();
                Ok(pc + 1)
            },
            Inst::Right => {
                match self.move_right() {
                    Ok(_) => Ok(pc + 1),
                    Err(e) => Err(e),
                }
            },
            Inst::Left => {
                match self.move_left() {
                    Ok(_) => Ok(pc + 1),
                    Err(e) => Err(e),
                }
            },
            Inst::Input => {
                match self.read_cell() {
                    Ok(_) => Ok(pc + 1),
                    Err(e) => Err(e),
                }
            },
            Inst::Output => {
                match self.write_cell() {
                    Ok(_) => Ok(pc + 1),
                    Err(e) => Err(e),
                }
            },
            Inst::JumpIfZero(t) => {
                if self.curr_cell_value() == 0 {
                    Ok(t)
                } else {
                    Ok(pc + 1)
                }
            },
            Inst::JumpUnlessZero(t) => {
                if self.curr_cell_value() != 0 {
                    Ok(t)
                } else {
                    Ok(pc + 1)
                }
            },
            Inst::Placeholder => {
                proof {
                    assert(false);  // excluded by the precondition
                }
                unreached()
            },
        }
    }

    /// Runs the whole program: a fetch-decode-execute loop from program
    /// counter 0 until the counter leaves the program (`Ok`) or an
    /// instruction aborts the run (`Err`, the machine standing where the
    /// failing instruction left it -- that is, untouched by it).
    ///
    /// An evaluation that never halts cannot be admitted here, since every
    /// verified loop needs a bound; `halts` asks the caller for that bound in
    /// ghost form only. A caller that cannot supply it can drive [`Vm::step`]
    /// itself, one instruction at a time, without any such promise.
    pub fn eval(&mut self, code: &Vec<Inst>) -> (r: Result<(), RuntimeError>)
        requires
            old(self).wf(),
            no_placeholders(code@),
            halts(code@, old(self)@),
        ensures
            final(self).wf(),
            final(self)@.memory.len() == old(self)@.memory.len(),
            final(self)@.input == old(self)@.input,
            r is Ok <==> halts_normally(code@, old(self)@),
            match r {
                Ok(_) => reaches_done(code@, old(self)@, final(self)@),
                Err(e) => reaches_failure(code@, old(self)@, final(self)@, e.kind) && e.kind
                    == RuntimeErrorKind::PointerOutOfBounds,
            },
    {
        let ghost start = start_state(self@);
        let ghost fuel: nat = choose|n: nat| !(run(code@, start, n) is Pending);
        proof {
            assert(!(run(code@, start, fuel) is Pending));
        }
        let mut pc: usize = 0;
        let ghost mut steps: nat = 0;

        while pc < code.len()
            invariant
                self.wf(),
                self@.memory.len() == old(self)@.memory.len(),
                self@.input == old(self)@.input,
                no_placeholders(code@),
                start == start_state(old(self)@),
                !(run(code@, start, fuel) is Pending),
                steps <= fuel,
                forall|extra: nat|
                    run(code@, start, steps + extra) == run(
                        code@,
                        (ExecState { vm: self@, pc: pc as int }),
                        extra,
                    ),
            decreases fuel - steps,
        {
            let ghost pre = ExecState { vm: self@, pc: pc as int };
            proof {
                assert(run(code@, start, steps + 0) == run(code@, pre, 0));
                if steps == fuel {
                    assert(run(code@, start, fuel) is Pending);
                }
            }
            match self.step(code, pc) {
                Ok(pc2) => {
                    proof {
                        let post = ExecState { vm: self@, pc: pc2 as int };
                        assert forall|extra: nat|
                            run(code@, start, (steps + 1) + extra) == run(
                                code@,
                                post,
                                extra,
                            ) by {
                            assert(run(code@, start, steps + (1 + extra)) == run(
                                code@,
                                pre,
                                1 + extra,
                            ));
                        }
                        steps = steps + 1;
                    }
                    pc = pc2;
                },
                Err(e) => {
                    proof {
                        assert(run(code@, start, steps + 1) == run(code@, pre, 1));
                        assert(run(code@, pre, 1) == (RunOutcome::Fail {
                            at: pre,
                            kind: e.kind,
                        }));
                        assert forall|f: nat| !((#[trigger] run(code@, start, f)) is Done) by {
                            if !(run(code@, start, f) is Pending) {
                                lemma_run_deterministic(code@, start, f, steps + 1);
                            }
                        }
                    }
                    return Err(e);
                },
            }
        }
        proof {
            let end = ExecState { vm: self@, pc: pc as int };
            assert(run(code@, start, steps + 0) == run(code@, end, 0));
            assert(run(code@, end, 0) == RunOutcome::Done(end));
        }
        Ok(())
    }
}

/// Once a run has halted, handing it more fuel changes nothing.
pub proof fn lemma_run_more_fuel(code: Seq<Inst>, s: ExecState, n: nat, m: nat)
    requires
        !(run(code, s, n) is Pending),
        n <= m,
    ensures
        run(code, s, m) == run(code, s, n),
    decreases n,
{
    if 0 <= s.pc < code.len() {
        match next_state(code, s) {
            Ok(t) => lemma_run_more_fuel(code, t, (n - 1) as nat, (m - 1) as nat),
            Err(_) => {},
        }
    }
}

/// The semantics is deterministic: any two halting outcomes of the same
/// program on the same start state agree, whatever fuel found them.
pub proof fn lemma_run_deterministic(code: Seq<Inst>, s: ExecState, n1: nat, n2: nat)
    requires
        !(run(code, s, n1) is Pending),
        !(run(code, s, n2) is Pending),
    ensures
        run(code, s, n1) == run(code, s, n2),
{
    if n1 <= n2 {
        lemma_run_more_fuel(code, s, n1, n2);
    } else {
        lemma_run_more_fuel(code, s, n2, n1);
    }
}

/// A normal halt leads to exactly one machine: two `reaches_done` claims for
/// the same program and start agree.
pub proof fn lemma_reaches_done_unique(code: Seq<Inst>, from: VmView, to1: VmView, to2: VmView)
    requires
        reaches_done(code, from, to1),
        reaches_done(code, from, to2),
    ensures
        to1 == to2,
{
    let f1 = choose|fuel: nat|
        ((#[trigger] run(code, start_state(from), fuel)) matches RunOutcome::Done(e) && e.vm
            == to1);
    let f2 = choose|fuel: nat|
        ((#[trigger] run(code, start_state(from), fuel)) matches RunOutcome::Done(e) && e.vm
            == to2);
    lemma_run_deterministic(code, start_state(from), f1, f2);
}

/// An abort leads to exactly one machine and one error: two
/// `reaches_failure` claims for the same program and start agree.
pub proof fn lemma_reaches_failure_unique(
    code: Seq<Inst>,
    from: VmView,
    to1: VmView,
    k1: RuntimeErrorKind,
    to2: VmView,
    k2: RuntimeErrorKind,
)
    requires
        reaches_failure(code, from, to1, k1),
        reaches_failure(code, from, to2, k2),
    ensures
        to1 == to2,
        k1 == k2,
{
    let f1 = choose|fuel: nat|
        ((#[trigger] run(code, start_state(from), fuel)) matches RunOutcome::Fail { at, kind }
            && at.vm == to1 && kind == k1);
    let f2 = choose|fuel: nat|
        ((#[trigger] run(code, start_state(from), fuel)) matches RunOutcome::Fail { at, kind }
            && at.vm == to2 && kind == k2);
    lemma_run_deterministic(code, start_state(from), f1, f2);
}

/// An empty program halts at once and is a no-op: tape, pointer and streams
/// are untouched.
pub proof fn lemma_empty_program_is_noop(vm: VmView, fuel: nat)
    ensures
        run(Seq::<Inst>::empty(), start_state(vm), fuel) == RunOutcome::Done(start_state(vm)),
        reaches_done(Seq::<Inst>::empty(), vm, vm),
{
}

/// The compiled form of an empty loop: jump past the loop if the cell is
/// zero, else test again at the matching closer.
pub open spec fn empty_loop_program() -> Seq<Inst> {
    seq![Inst::JumpIfZero(2), Inst::JumpUnlessZero(1)]
}

/// On a machine whose current cell is zero, the empty loop halts after its
/// very first instruction, the machine unchanged.
pub proof fn lemma_empty_loop_on_zero_is_noop(vm: VmView)
    requires
        vm.wf(),
        vm.cell() == 0,
    ensures
        run(empty_loop_program(), start_state(vm), 1) == RunOutcome::Done(
            ExecState { vm: vm, pc: 2 },
        ),
        reaches_done(empty_loop_program(), vm, vm),
{
    assert(next_state(empty_loop_program(), start_state(vm)) == Ok::<
        ExecState,
        RuntimeErrorKind,
    >(ExecState { vm: vm, pc: 2 }));
    assert(run(empty_loop_program(), ExecState { vm: vm, pc: 2 }, 0) == RunOutcome::Done(
        ExecState { vm: vm, pc: 2 },
    ));
    assert(run(empty_loop_program(), start_state(vm), 1) == run(
        empty_loop_program(),
        ExecState { vm: vm, pc: 2 },
        0,
    ));
}

/// The compiled form of the cell-clearing loop: test, decrement, repeat.
pub open spec fn clear_loop_program() -> Seq<Inst> {
    seq![Inst::JumpIfZero(3), Inst::Sub, Inst::JumpUnlessZero(1)]
}

/// `vm` with its current cell set to zero.
pub open spec fn with_cleared_cell(vm: VmView) -> VmView {
    VmView { memory: vm.memory.update(vm.pointer, 0u8), ..vm }
}

/// From the decrement at index 1 with the cell at `v >= 1`, the loop needs
/// exactly `2 * v` further steps to halt -- two per iteration, so exactly `v`
/// decrements -- and ends with the cell cleared and nothing else changed.
proof fn lemma_clear_loop_iterations(vm: VmView)
    requires
        vm.wf(),
        vm.cell() >= 1,
    ensures
        run(clear_loop_program(), ExecState { vm: vm, pc: 1 }, 2 * (vm.cell() as nat))
            == RunOutcome::Done(ExecState { vm: with_cleared_cell(vm), pc: 3 }),
        run(
            clear_loop_program(),
            ExecState { vm: vm, pc: 1 },
            (2 * (vm.cell() as nat) - 1) as nat,
        ) is Pending,
    decreases vm.cell(),
{
    let code = clear_loop_program();
    let v = vm.cell();
    let vm2 = VmView { memory: vm.memory.update(vm.pointer, (v - 1) as u8), ..vm };
    assert(next_state(code, ExecState { vm: vm, pc: 1 }) == Ok::<ExecState, RuntimeErrorKind>(
        ExecState { vm: vm2, pc: 2 },
    ));
    assert(vm2.cell() == v - 1);
    if v == 1 {
        assert(next_state(code, ExecState { vm: vm2, pc: 2 }) == Ok::<
            ExecState,
            RuntimeErrorKind,
        >(ExecState { vm: vm2, pc: 3 }));
        assert(vm2 == with_cleared_cell(vm));
        assert(run(code, ExecState { vm: vm, pc: 1 }, 2) == run(
            code,
            ExecState { vm: vm2, pc: 2 },
            1,
        ));
        assert(run(code, ExecState { vm: vm2, pc: 2 }, 1) == run(
            code,
            ExecState { vm: vm2, pc: 3 },
            0,
        ));
        assert(run(code, ExecState { vm: vm2, pc: 3 }, 0) == RunOutcome::Done(
            ExecState { vm: vm2, pc: 3 },
        ));
        assert(run(code, ExecState { vm: vm, pc: 1 }, 1) == run(
            code,
            ExecState { vm: vm2, pc: 2 },
            0,
        ));
        assert(run(code, ExecState { vm: vm2, pc: 2 }, 0) is Pending);
    } else {
        assert(next_state(code, ExecState { vm: vm2, pc: 2 }) == Ok::<
            ExecState,
            RuntimeErrorKind,
        >(ExecState { vm: vm2, pc: 1 }));
        lemma_clear_loop_iterations(vm2);
        assert(with_cleared_cell(vm2).memory =~= with_cleared_cell(vm).memory);
        assert(run(code, ExecState { vm: vm, pc: 1 }, 2 * (v as nat)) == run(
            code,
            ExecState { vm: vm2, pc: 2 },
            (2 * (v as nat) - 1) as nat,
        ));
        assert(run(code, ExecState { vm: vm2, pc: 2 }, (2 * (v as nat) - 1) as nat) == run(
            code,
            ExecState { vm: vm2, pc: 1 },
            (2 * (v as nat) - 2) as nat,
        ));
        assert((2 * (v as nat) - 2) as nat == 2 * (vm2.cell() as nat));
        assert(run(code, ExecState { vm: vm, pc: 1 }, (2 * (v as nat) - 1) as nat) == run(
            code,
            ExecState { vm: vm2, pc: 2 },
            (2 * (v as nat) - 2) as nat,
        ));
        assert(run(code, ExecState { vm: vm2, pc: 2 }, (2 * (v as nat) - 2) as nat) == run(
            code,
            ExecState { vm: vm2, pc: 1 },
            (2 * (v as nat) - 3) as nat,
        ));
        assert((2 * (v as nat) - 3) as nat == (2 * (vm2.cell() as nat) - 1) as nat);
        assert(with_cleared_cell(vm2) == with_cleared_cell(vm));
    }
}

/// The clearing loop leaves the current cell at exactly zero, whatever value
/// `v` it started from, and touches nothing else. It halts in exactly
/// `2 * v + 1` steps -- the opening bracket test plus two steps per
/// iteration, so exactly `v` decrements are executed: with one step less the
/// run is still pending.
pub proof fn lemma_clear_loop_clears(vm: VmView)
    requires
        vm.wf(),
    ensures
        run(clear_loop_program(), start_state(vm), 2 * (vm.cell() as nat) + 1)
            == RunOutcome::Done(ExecState { vm: with_cleared_cell(vm), pc: 3 }),
        run(clear_loop_program(), start_state(vm), 2 * (vm.cell() as nat)) is Pending,
        reaches_done(clear_loop_program(), vm, with_cleared_cell(vm)),
{
    let code = clear_loop_program();
    let v = vm.cell();
    if v == 0 {
        assert(next_state(code, start_state(vm)) == Ok::<ExecState, RuntimeErrorKind>(
            ExecState { vm: vm, pc: 3 },
        ));
        assert(vm.memory.update(vm.pointer, 0u8) =~= vm.memory);
        assert(with_cleared_cell(vm) == vm);
        assert(run(code, start_state(vm), 1) == run(code, ExecState { vm: vm, pc: 3 }, 0));
        assert(run(code, ExecState { vm: vm, pc: 3 }, 0) == RunOutcome::Done(
            ExecState { vm: vm, pc: 3 },
        ));
        assert(run(code, start_state(vm), 0) is Pending);
    } else {
        assert(next_state(code, start_state(vm)) == Ok::<ExecState, RuntimeErrorKind>(
            ExecState { vm: vm, pc: 1 },
        ));
        lemma_clear_loop_iterations(vm);
        assert(run(code, start_state(vm), 2 * (v as nat) + 1) == run(
            code,
            ExecState { vm: vm, pc: 1 },
            2 * (v as nat),
        ));
        assert(run(code, start_state(vm), 2 * (v as nat)) == run(
            code,
            ExecState { vm: vm, pc: 1 },
            (2 * (v as nat) - 1) as nat,
        ));
    }
}

/// The current cell after `n` increments: addition modulo 256.
pub open spec fn byte_add(v: u8, n: nat) -> u8 {
    (((v as int) + n) % 256) as u8
}

/// The current cell after `n` decrements: subtraction modulo 256.
pub open spec fn byte_sub(v: u8, n: nat) -> u8 {
    (((v as int) - n) % 256) as u8
}

proof fn lemma_adds_from(code: Seq<Inst>, vm: VmView, pc: int)
    requires
        vm.wf(),
        0 <= pc <= code.len(),
        forall|i: int| 0 <= i < code.len() ==> code[i] == Inst::Add,
    ensures
        run(code, ExecState { vm: vm, pc: pc }, (code.len() - pc) as nat) == RunOutcome::Done(
            ExecState {
                vm: VmView {
                    memory: vm.memory.update(
                        vm.pointer,
                        byte_add(vm.cell(), (code.len() - pc) as nat),
                    ),
                    ..vm
                },
                pc: code.len() as int,
            },
        ),
    decreases code.len() - pc,
{
    let c = vm.cell();
    if pc == code.len() {
        assert(byte_add(c, 0) == c);
        assert(vm.memory.update(vm.pointer, c) =~= vm.memory);
    } else {
        let vm2 = VmView { memory: vm.memory.update(vm.pointer, c.wrapping_add(1)), ..vm };
        assert(next_state(code, ExecState { vm: vm, pc: pc }) == Ok::<
            ExecState,
            RuntimeErrorKind,
        >(ExecState { vm: vm2, pc: pc + 1 }));
        lemma_adds_from(code, vm2, pc + 1);
        let k = (code.len() - pc - 1) as nat;
        assert(vm2.cell() == (((c as int) + 1) % 256) as u8);
        lemma_add_mod_noop_right(k as int, (c as int) + 1, 256);
        assert(byte_add(vm2.cell(), k) == byte_add(c, (k + 1) as nat));
        assert(vm2.memory.update(vm2.pointer, byte_add(vm2.cell(), k)) =~= vm.memory.update(
            vm.pointer,
            byte_add(c, (k + 1) as nat),
        ));
    }
}

proof fn lemma_subs_from(code: Seq<Inst>, vm: VmView, pc: int)
    requires
        vm.wf(),
        0 <= pc <= code.len(),
        forall|i: int| 0 <= i < code.len() ==> code[i] == Inst::Sub,
    ensures
        run(code, ExecState { vm: vm, pc: pc }, (code.len() - pc) as nat) == RunOutcome::Done(
            ExecState {
                vm: VmView {
                    memory: vm.memory.update(
                        vm.pointer,
                        byte_sub(vm.cell(), (code.len() - pc) as nat),
                    ),
                    ..vm
                },
                pc: code.len() as int,
            },
        ),
    decreases code.len() - pc,
{
    let c = vm.cell();
    if pc == code.len() {
        assert(byte_sub(c, 0) == c);
        assert(vm.memory.update(vm.pointer, c) =~= vm.memory);
    } else {
        let vm2 = VmView { memory: vm.memory.update(vm.pointer, c.wrapping_sub(1)), ..vm };
        assert(next_state(code, ExecState { vm: vm, pc: pc }) == Ok::<
            ExecState,
            RuntimeErrorKind,
        >(ExecState { vm: vm2, pc: pc + 1 }));
        lemma_subs_from(code, vm2, pc + 1);
        let k = (code.len() - pc - 1) as nat;
        assert(vm2.cell() == (((c as int) - 1) % 256) as u8);
        lemma_sub_mod_noop_right(0 - (k as int), 0 - ((c as int) - 1), 256);
        assert(byte_sub(vm2.cell(), k) == byte_sub(c, (k + 1) as nat));
        assert(vm2.memory.update(vm2.pointer, byte_sub(vm2.cell(), k)) =~= vm.memory.update(
            vm.pointer,
            byte_sub(c, (k + 1) as nat),
        ));
    }
}

/// A program of nothing but `Add` halts after one step per instruction and
/// changes only the current cell, incremented once per instruction with
/// eight-bit wraparound; in particular 256 of them return the cell to the
/// value it began with.
pub proof fn lemma_all_adds_wrap_around(code: Seq<Inst>, vm: VmView)
    requires
        vm.wf(),
        forall|i: int| 0 <= i < code.len() ==> code[i] == Inst::Add,
    ensures
        run(code, start_state(vm), code.len()) == RunOutcome::Done(
            ExecState {
                vm: VmView {
                    memory: vm.memory.update(vm.pointer, byte_add(vm.cell(), code.len())),
                    ..vm
                },
                pc: code.len() as int,
            },
        ),
        code.len() == 256 ==> byte_add(vm.cell(), code.len()) == vm.cell(),
{
    lemma_adds_from(code, vm, 0);
}

/// The mirror image for `Sub`: one decrement per instruction, modulo 256,
/// and 256 of them return the cell to the value it began with.
pub proof fn lemma_all_subs_wrap_around(code: Seq<Inst>, vm: VmView)
    requires
        vm.wf(),
        forall|i: int| 0 <= i < code.len() ==> code[i] == Inst::Sub,
    ensures
        run(code, start_state(vm), code.len()) == RunOutcome::Done(
            ExecState {
                vm: VmView {
                    memory: vm.memory.update(vm.pointer, byte_sub(vm.cell(), code.len())),
                    ..vm
                },
                pc: code.len() as int,
            },
        ),
        code.len() == 256 ==> byte_sub(vm.cell(), code.len()) == vm.cell(),
{
    lemma_subs_from(code, vm, 0);
}

/// A move off either edge of the tape -- `Left` with the pointer on the
/// first cell, or `Right` with it on the last -- aborts the run with
/// `PointerOutOfBounds`, and the failing step leaves tape, pointer and
/// streams exactly as they were.
pub proof fn lemma_move_at_edge_fails(code: Seq<Inst>, s: ExecState, fuel: nat)
    requires
        s.vm.wf(),
        0 <= s.pc < code.len(),
        (code[s.pc] == Inst::Left && s.vm.pointer == 0) || (code[s.pc] == Inst::Right
            && s.vm.pointer == s.vm.memory.len() - 1),
        fuel >= 1,
    ensures
        run(code, s, fuel) == (RunOutcome::Fail {
            at: s,
            kind: RuntimeErrorKind::PointerOutOfBounds,
        }),
{
}

/// The same, stated of a whole evaluation that begins on such an
/// instruction.
pub proof fn lemma_move_at_edge_fails_from_start(code: Seq<Inst>, vm: VmView)
    requires
        vm.wf(),
        code.len() > 0,
        (code[0] == Inst::Left && vm.pointer == 0) || (code[0] == Inst::Right && vm.pointer
            == vm.memory.len() - 1),
    ensures
        reaches_failure(code, vm, vm, RuntimeErrorKind::PointerOutOfBounds),
{
    lemma_move_at_edge_fails(code, start_state(vm), 1);
}

/// The compiled form of `",."`: read one byte, write one byte.
pub open spec fn copy_byte_program() -> Seq<Inst> {
    seq![Inst::Input, Inst::Output]
}

/// The copy program moves exactly one byte from the input stream to the
/// output stream: the next unread input byte if one is left, otherwise the
/// cell's prior value (its end-of-stream fallback).
pub proof fn lemma_copy_program_copies_one_byte(vm: VmView)
    requires
        vm.wf(),
    ensures
        ({
            let b = if vm.cursor < vm.input.len() {
                vm.input[vm.cursor]
            } else {
                vm.cell()
            };
            let end = VmView {
                memory: vm.memory.update(vm.pointer, b),
                cursor: if vm.cursor < vm.input.len() {
                    vm.cursor + 1
                } else {
                    vm.cursor
                },
                output: vm.output.push(b),
                ..vm
            };
            run(copy_byte_program(), start_state(vm), 2) == RunOutcome::Done(
                ExecState { vm: end, pc: 2 },
            ) && reaches_done(copy_byte_program(), vm, end)
        }),
{
    let code = copy_byte_program();
    if vm.cursor < vm.input.len() {
        let vm2 = VmView {
            memory: vm.memory.update(vm.pointer, vm.input[vm.cursor]),
            cursor: vm.cursor + 1,
            ..vm
        };
        assert(next_state(code, start_state(vm)) == Ok::<ExecState, RuntimeErrorKind>(
            ExecState { vm: vm2, pc: 1 },
        ));
        assert(vm2.cell() == vm.input[vm.cursor]);
        let end = VmView { output: vm.output.push(vm2.cell()), ..vm2 };
        assert(next_state(code, ExecState { vm: vm2, pc: 1 }) == Ok::<
            ExecState,
            RuntimeErrorKind,
        >(ExecState { vm: end, pc: 2 }));
        assert(run(code, start_state(vm), 2) == run(code, ExecState { vm: vm2, pc: 1 }, 1));
        assert(run(code, ExecState { vm: vm2, pc: 1 }, 1) == run(
            code,
            ExecState { vm: end, pc: 2 },
            0,
        ));
        assert(run(code, ExecState { vm: end, pc: 2 }, 0) == RunOutcome::Done(
            ExecState { vm: end, pc: 2 },
        ));
    } else {
        assert(next_state(code, start_state(vm)) == Ok::<ExecState, RuntimeErrorKind>(
            ExecState { vm: vm, pc: 1 },
        ));
        assert(vm.memory.update(vm.pointer, vm.cell()) =~= vm.memory);
        let end = VmView { output: vm.output.push(vm.cell()), ..vm };
        assert(next_state(code, ExecState { vm: vm, pc: 1 }) == Ok::<
            ExecState,
            RuntimeErrorKind,
        >(ExecState { vm: end, pc: 2 }));
        assert(run(code, start_state(vm), 2) == run(code, ExecState { vm: vm, pc: 1 }, 1));
        assert(run(code, ExecState { vm: vm, pc: 1 }, 1) == run(
            code,
            ExecState { vm: end, pc: 2 },
            0,
        ));
        assert(run(code, ExecState { vm: end, pc: 2 }, 0) == RunOutcome::Done(
            ExecState { vm: end, pc: 2 },
        ));
        assert(end == (VmView {
            memory: vm.memory.update(vm.pointer, vm.cell()),
            cursor: vm.cursor,
            output: vm.output.push(vm.cell()),
            ..vm
        }));
    }
}

} // verus!
