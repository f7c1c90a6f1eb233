//! A looping machine: jumps over unsigned byte cells, with moves that clamp
//! at the tape edges instead of failing and an input stream that stores a
//! zero byte once exhausted. Output writes the cell at the pointer as a
//! single byte, a zero byte like any other.

use vstd::prelude::*;

verus! {

/// One instruction. `JumpIfZero` and `JumpUnlessZero` carry absolute targets
/// into the program.
#[derive(Clone, Copy, Debug, PartialEq, Eq, Structural)]
pub enum Inst {
    Inc,
    Dec,
    Next,
    Prev,
    Input,
    Output,
    JumpIfZero(usize),
    JumpUnlessZero(usize),
}

/// The machine: a fixed-size byte tape, a pointer into it, and the two
/// streams.
#[derive(Debug)]
pub struct Vm {
    memory: Vec<u8>,
    pointer: usize,
    input: Vec<u8>,
    cursor: usize,
    output: Vec<u8>,
}

/// The mathematical value of a [`Vm`].
pub ghost struct VmView {
    pub memory: Seq<u8>,
    pub pointer: int,
    pub input: Seq<u8>,
    pub cursor: int,
    pub output: Seq<u8>,
}

impl View for Vm {
    type V = VmView;

    closed spec fn view(&self) -> VmView {
        VmView {
            memory: self.memory@,
            pointer: self.pointer as int,
            input: self.input@,
            cursor: self.cursor as int,
            output: self.output@,
        }
    }
}

impl VmView {
    /// The tape is non-empty, the pointer addresses a cell, and the cursor
    /// stays within the input.
    pub open spec fn wf(self) -> bool {
        &&& 0 < self.memory.len()
        &&& 0 <= self.pointer < self.memory.len()
        &&& 0 <= self.cursor <= self.input.len()
    }

    /// The byte at the pointer.
    pub open spec fn cell(self) -> u8 {
        self.memory[self.pointer]
    }
}

/// A point of an execution: the machine plus the program counter.
pub ghost struct ExecState {
    pub vm: VmView,
    pub pc: int,
}

/// The outcome of running with a bounded budget of steps: either the run
/// halted, or it used the whole budget first. Every instruction of this
/// machine is total, so there is no failing outcome.
pub ghost enum RunOutcome {
    Done(ExecState),
    Pending(ExecState),
}

/// What one instruction does at state `s`. Moves at a tape edge stay put,
/// reading an exhausted input stores a zero byte, and every `Output` sends
/// exactly one byte.
pub open spec fn next_state(code: Seq<Inst>, s: ExecState) -> ExecState
    recommends
        0 <= s.pc < code.len(),
        s.vm.wf(),
{
    match code[s.pc] {
        Inst::Inc => ExecState {
            vm: VmView {
                memory: s.vm.memory.update(s.vm.pointer, s.vm.cell().wrapping_add(1)),
                ..s.vm
            },
            pc: s.pc + 1,
        },
        Inst::Dec => ExecState {
            vm: VmView {
                memory: s.vm.memory.update(s.vm.pointer, s.vm.cell().wrapping_sub(1)),
                ..s.vm
            },
            pc: s.pc + 1,
        },
        Inst::Next => ExecState {
            vm: if s.vm.pointer < s.vm.memory.len() - 1 {
                VmView { pointer: s.vm.pointer + 1, ..s.vm }
            } else {
                s.vm
            },
            pc: s.pc + 1,
        },
        Inst::Prev => ExecState {
            vm: if s.vm.pointer > 0 {
                VmView { pointer: s.vm.pointer - 1, ..s.vm }
            } else {
                s.vm
            },
            pc: s.pc + 1,
        },
        Inst::Input => ExecState {
            vm: if s.vm.cursor < s.vm.input.len() {
                VmView {
                    memory: s.vm.memory.update(s.vm.pointer, s.vm.input[s.vm.cursor]),
                    cursor: s.vm.cursor + 1,
                    ..s.vm
                }
            } else {
                VmView { memory: s.vm.memory.update(s.vm.pointer, 0u8), ..s.vm }
            },
            pc: s.pc + 1,
        },
        Inst::Output => ExecState {
            vm: VmView { output: s.vm.output.push(s.vm.cell()), ..s.vm },
            pc: s.pc + 1,
        },
        Inst::JumpIfZero(t) => ExecState {
            vm: s.vm,
            pc: if s.vm.cell() == 0 {
                t as int
            } else {
                s.pc + 1
            },
        },
        Inst::JumpUnlessZero(t) => ExecState {
            vm: s.vm,
            pc: if s.vm.cell() != 0 {
                t as int
            } else {
                s.pc + 1
            },
        },
    }
}

/// Runs at most `fuel` instructions from `s`; `Done` as soon as the program
/// counter leaves the program.
pub open spec fn run(code: Seq<Inst>, s: ExecState, fuel: nat) -> RunOutcome
    decreases fuel,
{
    if !(0 <= s.pc < code.len()) {
        RunOutcome::Done(s)
    } else if fuel == 0 {
        RunOutcome::Pending(s)
    } else {
        run(code, next_state(code, s), (fuel - 1) as nat)
    }
}

/// The state a fresh evaluation of `vm` begins in.
pub open spec fn start_state(vm: VmView) -> ExecState {
    ExecState { vm: vm, pc: 0 }
}

/// The evaluation of `code` on `vm` halts.
pub open spec fn halts(code: Seq<Inst>, vm: VmView) -> bool {
    exists|fuel: nat| !(run(code, start_state(vm), fuel) is Pending)
}

/// Evaluating `code` from machine `from` halts with machine `to`.
pub open spec fn reaches_done(code: Seq<Inst>, from: VmView, to: VmView) -> bool {
    exists|fuel: nat|
        ((#[trigger] run(code, start_state(from), fuel)) matches RunOutcome::Done(e) && e.vm
            == to)
}

impl Vm {
    pub open spec fn wf(&self) -> bool {
        self@.wf()
    }

    /// Builds a machine with `size` zeroed cells and the given streams;
    /// `size` zero is refused, there being no cell for the pointer to start
    /// on.
    pub fn new(size: usize, input: Vec<u8>, output: Vec<u8>) -> (r: Option<Vm>)
        ensures
            match r {
                Some(vm) => size > 0 && vm.wf() && vm@.memory.len() == size && vm@.pointer == 0
                    && vm@.cursor == 0 && vm@.input == input@ && vm@.output == output@ && forall|
                    i: int,
                | 0 <= i < size ==> vm@.memory[i] == 0u8,
                None => size == 0,
            },
    {
        if size > 0 {
            let mut memory: Vec<u8> = Vec::new();
            while memory.len() < size
                invariant
                    memory@.len() <= size,
                    forall|i: int| 0 <= i < memory@.len() ==> memory@[i] == 0u8,
                decreases size - memory.len(),
            {
                memory.push(0);
            }
            Some(Vm { memory, pointer: 0, input, cursor: 0, output })
        } else {
            None
        }
    }

    /// The tape, for inspection after a run.
    pub fn memory(&self) -> (r: &Vec<u8>)
        ensures
            r@ == self@.memory,
    {
        &self.memory
    }

    /// The output written so far.
    pub fn output(&self) -> (r: &Vec<u8>)
        ensures
            r@ == self@.output,
    {
        &self.output
    }

    /// Runs the program from program counter 0 until the counter leaves it.
    /// Every instruction is total, so the run cannot fail; but a loop may
    /// spin forever, and a verified loop needs a bound, so `halts` asks the
    /// caller for one in ghost form.
    pub fn eval(&mut self, code: &Vec<Inst>)
        requires
            old(self).wf(),
            halts(code@, old(self)@),
        ensures
            final(self).wf(),
            final(self)@.memory.len() == old(self)@.memory.len(),
            final(self)@.input == old(self)@.input,
            reaches_done(code@, old(self)@, final(self)@),
    {
        let ghost start = start_state(self@);
        let ghost fuel: nat = choose|n: nat| !(run(code@, start, n) is Pending);
        proof {
            assert(!(run(code@, start, fuel) is Pending));
        }
        let mut pc: usize = 0;
        let ghost mut steps: nat = 0;

        while pc < code.len()
            invariant
                self.wf(),
                self@.memory.len() == old(self)@.memory.len(),
                self@.input == old(self)@.input,
                start == start_state(old(self)@),
                !(run(code@, start, fuel) is Pending),
                steps <= fuel,
                forall|extra: nat|
                    run(code@, start, steps + extra) == run(
                        code@,
                        (ExecState { vm: self@, pc: pc as int }),
                        extra,
                    ),
            decreases fuel - steps,
        {
            let ghost pre = ExecState { vm: self@, pc: pc as int };
            proof {
                assert(run(code@, start, steps + 0) == run(code@, pre, 0));
                if steps == fuel {
                    assert(run(code@, start, fuel) is Pending);
                }
            }
            let mut next_pc = pc + 1;
            match code[pc] {
                Inst::Inc => self.inc_cell(),
                Inst::Dec => self.dec_cell(),
                Inst::Next => self.next_cell(),
                Inst::Prev => self.prev_cell(),
                Inst::Input => self.read_cell(),
                Inst::Output => self.write_cell(),
                Inst::JumpIfZero(t) => {
                    if self.get_cell() == 0 {
                        next_pc = t;
                    }
                },
                Inst::JumpUnlessZero(t) => {
                    if self.get_cell() != 0 {
                        next_pc = t;
                    }
                },
            }
            proof {
                let post = ExecState { vm: self@, pc: next_pc as int };
                assert(next_state(code@, pre) == post);
                assert forall|extra: nat|
                    run(code@, start, (steps + 1) + extra) == run(code@, post, extra) by {
                    assert(run(code@, start, steps + (1 + extra)) == run(code@, pre, 1 + extra));
                }
                steps = steps + 1;
            }
            pc = next_pc;
        }
        proof {
            let end = ExecState { vm: self@, pc: pc as int };
            assert(run(code@, start, steps + 0) == run(code@, end, 0));
            assert(run(code@, end, 0) == RunOutcome::Done(end));
        }
    }

    fn inc_cell(&mut self)
        requires
            old(self).wf(),
        ensures
            final(self).wf(),
            final(self)@ == (VmView {
                memory: old(self)@.memory.update(old(self)@.pointer, old(self)@.cell().wrapping_add(1)),
                ..old(self)@
            }),
    {
        let v = self.memory[self.pointer];
        self.memory[self.pointer] = v.wrapping_add(1);
    }

    fn dec_cell(&mut self)
        requires
            old(self).wf(),
        ensures
            final(self).wf(),
            final(self)@ == (VmView {
                memory: old(self)@.memory.update(old(self)@.pointer, old(self)@.cell().wrapping_sub(1)),
                ..old(self)@
            }),
    {
        let v = self.memory[self.pointer];
        self.memory[self.pointer] = v.wrapping_sub(1);
    }

    fn next_cell(&mut self)
        requires
            old(self).wf(),
        ensures
            final(self).wf(),
            final(self)@ == (if old(self)@.pointer < old(self)@.memory.len() - 1 {
                VmView { pointer: old(self)@.pointer + 1, ..old(self)@ }
            } else {
                old(self)@
            }),
    {
        if self.pointer < self.memory.len() - 1 {
            self.pointer = self.pointer + 1;
        }
    }

    fn prev_cell(&mut self)
        requires
            old(self).wf(),
        ensures
            final(self).wf(),
            final(self)@ == (if old(self)@.pointer > 0 {
                VmView { pointer: old(self)@.pointer - 1, ..old(self)@ }
            } else {
                old(self)@
            }),
    {
        if self.pointer > 0 {
            self.pointer = self.pointer - 1;
        }
    }

    fn read_cell(&mut self)
        requires
            old(self).wf(),
        ensures
            final(self).wf(),
            final(self)@ == (if old(self)@.cursor < old(self)@.input.len() {
                VmView {
                    memory: old(self)@.memory.update(
                        old(self)@.pointer,
                        old(self)@.input[old(self)@.cursor],
                    ),
                    cursor: old(self)@.cursor + 1,
                    ..old(self)@
                }
            } else {
                VmView { memory: old(self)@.memory.update(old(self)@.pointer, 0u8), ..old(self)@ }
            }),
    {
        if self.cursor < self.input.len() {
            let b = self.input[self.cursor];
            self.put_cell(b);
            self.cursor = self.cursor + 1;
        } else {
            self.put_cell(0);
        }
    }

    fn write_cell(&mut self)
        requires
            old(self).wf(),
        ensures
            final(self).wf(),
            final(self)@ == (VmView {
                output: old(self)@.output.push(old(self)@.cell()),
                ..old(self)@
            }),
    {
        let v = self.get_cell();
        self.output.push(v);
    }

    fn get_cell(&self) -> (r: u8)
        requires
            self.wf(),
        ensures
            r == self@.cell(),
    {
        self.memory[self.pointer]
    }

    fn put_cell(&mut self, value: u8)
        requires
            old(self).wf(),
        ensures
            final(self).wf(),
            final(self)@ == (VmView {
                memory: old(self)@.memory.update(old(self)@.pointer, value),
                ..old(self)@
            }),
    {
        self.memory[self.pointer] = value;
    }
}

/// Once a run has halted, handing it more fuel changes nothing.
pub proof fn lemma_run_more_fuel(code: Seq<Inst>, s: ExecState, n: nat, m: nat)
    requires
        !(run(code, s, n) is Pending),
        n <= m,
    ensures
        run(code, s, m) == run(code, s, n),
    decreases n,
{
    if 0 <= s.pc < code.len() {
        lemma_run_more_fuel(code, next_state(code, s), (n - 1) as nat, (m - 1) as nat);
    }
}

/// The semantics is deterministic: any two halting outcomes of the same
/// program on the same start state agree, whatever fuel found them.
pub proof fn lemma_run_deterministic(code: Seq<Inst>, s: ExecState, n1: nat, n2: nat)
    requires
        !(run(code, s, n1) is Pending),
        !(run(code, s, n2) is Pending),
    ensures
        run(code, s, n1) == run(code, s, n2),
{
    if n1 <= n2 {
        lemma_run_more_fuel(code, s, n1, n2);
    } else {
        lemma_run_more_fuel(code, s, n2, n1);
    }
}

/// A halt leads to exactly one machine: two `reaches_done` claims for the
/// same program and start agree, so a caller of [`Vm::eval`] can pin the
/// machine it got back.
pub proof fn lemma_reaches_done_unique(code: Seq<Inst>, from: VmView, to1: VmView, to2: VmView)
    requires
        reaches_done(code, from, to1),
        reaches_done(code, from, to2),
    ensures
        to1 == to2,
{
    let f1 = choose|fuel: nat|
        ((#[trigger] run(code, start_state(from), fuel)) matches RunOutcome::Done(e) && e.vm
            == to1);
    let f2 = choose|fuel: nat|
        ((#[trigger] run(code, start_state(from), fuel)) matches RunOutcome::Done(e) && e.vm
            == to2);
    lemma_run_deterministic(code, start_state(from), f1, f2);
}


} // verus!
