//! A tiny interpreter for a tape-based, bracket-looped esoteric language.
//!
//! Source text is turned into an executable program by [`compiler::compile_bf`]
//! and run against a bounded byte tape by [`eval::Vm`]. Two earlier, simpler
//! machines are kept alongside: the crate-root [`Vm`], which runs
//! straight-line programs over signed cells with clamping moves, and
//! [`vm::Vm`], which adds loops but still clamps at the tape edges.

pub mod compiler;
pub mod eval;
pub mod vm;

use vstd::prelude::*;

verus! {

pub const INC: u8 = 43;

pub const INPUT: u8 = 44;

pub const DEC: u8 = 45;

pub const OUTPUT: u8 = 46;

pub const PREV: u8 = 60;

pub const NEXT: u8 = 62;

/// One instruction of the straight-line machine: no loops, so a program is
/// executed front to back, once.
#[derive(Clone, Copy, Debug, PartialEq, Eq, Structural)]
pub enum Inst {
    Inc,
    Dec,
    Next,
    Prev,
    Input,
    Output,
}

/// The straight-line machine: a fixed-size tape of signed cells, a pointer
/// that clamps at both tape edges instead of failing, an input stream read
/// one byte per `Input` (a zero byte once it is exhausted), and an output
/// stream grown one byte per `Output`.
#[derive(Debug)]
pub struct Vm {
    memory: Vec<i8>,
    pointer: usize,
    input: Vec<u8>,
    cursor: usize,
    output: Vec<u8>,
}

/// The mathematical value of a [`Vm`].
pub ghost struct VmView {
    pub memory: Seq<i8>,
    pub pointer: int,
    pub input: Seq<u8>,
    pub cursor: int,
    pub output: Seq<u8>,
}

impl View for Vm {
    type V = VmView;

    closed spec fn view(&self) -> VmView {
        VmView {
            memory: self.memory@,
            pointer: self.pointer as int,
            input: self.input@,
            cursor: self.cursor as int,
            output: self.output@,
        }
    }
}

impl VmView {
    /// The tape is non-empty, the pointer addresses a cell, and the cursor
    /// stays within the input.
    pub open spec fn wf(self) -> bool {
        &&& 0 < self.memory.len()
        &&& 0 <= self.pointer < self.memory.len()
        &&& 0 <= self.cursor <= self.input.len()
    }

    /// The cell at the pointer.
    pub open spec fn cell(self) -> i8 {
        self.memory[self.pointer]
    }
}

/// An input byte as it lands in a signed cell: the same eight bits, so
/// values from 128 up come out negative.
pub open spec fn byte_as_cell(b: u8) -> i8 {
    if b < 128 {
        b as i8
    } else {
        (b - 256) as i8
    }
}

/// A signed cell as it leaves on the byte-valued output stream: the same
/// eight bits, so negative values come out from 128 up.
pub open spec fn cell_as_byte(v: i8) -> u8 {
    if v >= 0 {
        v as u8
    } else {
        (v + 256) as u8
    }
}

/// What one instruction does to the machine. Every instruction is total
/// here: moves at a tape edge stay put, and reading an exhausted input
/// stream stores a zero byte.
pub open spec fn exec_inst(vm: VmView, inst: Inst) -> VmView
    recommends
        vm.wf(),
{
    match inst {
        Inst::Inc => VmView {
            memory: vm.memory.update(vm.pointer, vm.cell().wrapping_add(1)),
            ..vm
        },
        Inst::Dec => VmView {
            memory: vm.memory.update(vm.pointer, vm.cell().wrapping_sub(1)),
            ..vm
        },
        Inst::Next => if vm.pointer < vm.memory.len() - 1 {
            VmView { pointer: vm.pointer + 1, ..vm }
        } else {
            vm
        },
        Inst::Prev => if vm.pointer > 0 {
            VmView { pointer: vm.pointer - 1, ..vm }
        } else {
            vm
        },
        Inst::Input => if vm.cursor < vm.input.len() {
            VmView {
                memory: vm.memory.update(vm.pointer, byte_as_cell(vm.input[vm.cursor])),
                cursor: vm.cursor + 1,
                ..vm
            }
        } else {
            VmView { memory: vm.memory.update(vm.pointer, 0i8), ..vm }
        },
        Inst::Output => VmView { output: vm.output.push(cell_as_byte(vm.cell())), ..vm },
    }
}

/// What a whole program does: its instructions, front to back.
pub open spec fn exec_all(vm: VmView, code: Seq<Inst>) -> VmView
    decreases code.len(),
{
    if code.len() == 0 {
        vm
    } else {
        exec_all(exec_inst(vm, code[0]), code.skip(1))
    }
}

impl Vm {
    pub open spec fn wf(&self) -> bool {
        self@.wf()
    }

    /// Builds a machine with `size` zeroed cells and the given streams;
    /// `size` zero is refused, there being no cell for the pointer to start
    /// on.
    pub fn new(size: usize, input: Vec<u8>, output: Vec<u8>) -> (r: Option<Vm>)
        ensures
            match r {
                Some(vm) => size > 0 && vm.wf() && vm@.memory.len() == size && vm@.pointer == 0
                    && vm@.cursor == 0 && vm@.input == input@ && vm@.output == output@ && forall|
                    i: int,
                | 0 <= i < size ==> vm@.memory[i] == 0i8,
                None => size == 0,
            },
    {
        if size > 0 {
            let mut memory: Vec<i8> = Vec::new();
            while memory.len() < size
                invariant
                    memory@.len() <= size,
                    forall|i: int| 0 <= i < memory@.len() ==> memory@[i] == 0i8,
                decreases size - memory.len(),
            {
                memory.push(0);
            }
            Some(Vm { memory, pointer: 0, input, cursor: 0, output })
        } else {
            None
        }
    }

    /// The tape, for inspection after a run.
    pub fn memory(&self) -> (r: &Vec<i8>)
        ensures
            r@ == self@.memory,
    {
        &self.memory
    }

    /// The output written so far.
    pub fn output(&self) -> (r: &Vec<u8>)
        ensures
            r@ == self@.output,
    {
        &self.output
    }

    /// Runs the program, front to back, once. Every instruction is total, so
    /// this always succeeds, in exactly one pass.
    pub fn eval(&mut self, code: &Vec<Inst>)
        requires
            old(self).wf(),
        ensures
            final(self).wf(),
            final(self)@ == exec_all(old(self)@, code@),
    {
        let n = code.len();
        let mut pc: usize = 0;
        proof {
            assert(code@.skip(0) =~= code@);
        }
        while pc < n
            invariant
                self.wf(),
                n == code@.len(),
                pc <= n,
                exec_all(self@, code@.skip(pc as int)) == exec_all(old(self)@, code@),
            decreases n - pc,
        {
            let ghost pre = self@;
            let ghost rest = code@.skip(pc as int);
            match code[pc] {
                Inst::Inc => self.inc_cell(),
                Inst::Dec => self.dec_cell(),
                Inst::Next => self.next_cell(),
                Inst::Prev => self.prev_cell(),
                Inst::Input => self.read_cell(),
                Inst::Output => self.write_cell(),
            }
            proof {
                assert(rest[0] == code@[pc as int]);
                assert(rest.skip(1) =~= code@.skip(pc as int + 1));
                assert(self@ == exec_inst(pre, code@[pc as int]));
            }
            pc = pc + 1;
        }
        proof {
            assert(code@.skip(n as int) =~= Seq::<Inst>::empty());
        }
    }

    fn inc_cell(&mut self)
        requires
            old(self).wf(),
        ensures
            final(self).wf(),
            final(self)@ == exec_inst(old(self)@, Inst::Inc),
    {
        let v = self.memory[self.pointer];
        self.memory[self.pointer] = v.wrapping_add(1);
    }

    fn dec_cell(&mut self)
        requires
            old(self).wf(),
        ensures
            final(self).wf(),
            final(self)@ == exec_inst(old(self)@, Inst::Dec),
    {
        let v = self.memory[self.pointer];
        self.memory[self.pointer] = v.wrapping_sub(1);
    }

    fn next_cell(&mut self)
        requires
            old(self).wf(),
        ensures
            final(self).wf(),
            final(self)@ == exec_inst(old(self)@, Inst::Next),
    {
        if self.pointer < self.memory.len() - 1 {
            self.pointer = self.pointer + 1;
        }
    }

    fn prev_cell(&mut self)
        requires
            old(self).wf(),
        ensures
            final(self).wf(),
            final(self)@ == exec_inst(old(self)@, Inst::Prev),
    {
        if self.pointer > 0 {
            self.pointer = self.pointer - 1;
        }
    }

    fn read_cell(&mut self)
        requires
            old(self).wf(),
        ensures
            final(self).wf(),
            final(self)@ == exec_inst(old(self)@, Inst::Input),
    {
        if self.cursor < self.input.len() {
            let b = self.input[self.cursor];
            let cell: i8 = if b < 128 {
                b as i8
            } else {
                ((b as i16) - 256) as i8
            };
            self.put_cell(cell);
            self.cursor = self.cursor + 1;
        } else {
            self.put_cell(0);
        }
    }

    fn write_cell(&mut self)
        requires
            old(self).wf(),
        ensures
            final(self).wf(),
            final(self)@ == exec_inst(old(self)@, Inst::Output),
    {
        let v = self.get_cell();
        let b: u8 = if v >= 0 {
            v as u8
        } else {
            ((v as i16) + 256) as u8
        };
        self.output.push(b);
    }

    fn get_cell(&self) -> (r: i8)
        requires
            self.wf(),
        ensures
            r == self@.cell(),
    {
        self.memory[self.pointer]
    }

    fn put_cell(&mut self, value: i8)
        requires
            old(self).wf(),
        ensures
            final(self).wf(),
            final(self)@ == (VmView {
                memory: old(self)@.memory.update(old(self)@.pointer, value),
                ..old(self)@
            }),
    {
        self.memory[self.pointer] = value;
    }
}

/// Which instruction a source byte stands for, if any; every other byte is
/// comment text.
pub open spec fn inst_of_byte(b: u8) -> Option<Inst> {
    if b == INC {
        Some(Inst::Inc)
    } else if b == DEC {
        Some(Inst::Dec)
    } else if b == NEXT {
        Some(Inst::Next)
    } else if b == PREV {
        Some(Inst::Prev)
    } else if b == INPUT {
        Some(Inst::Input)
    } else if b == OUTPUT {
        Some(Inst::Output)
    } else {
        None
    }
}

/// The instructions of a source text, in order, comment bytes dropped.
pub open spec fn strip(src: Seq<u8>) -> Seq<Inst>
    decreases src.len(),
{
    if src.len() == 0 {
        Seq::empty()
    } else {
        match inst_of_byte(src[0]) {
            Some(inst) => seq![inst] + strip(src.skip(1)),
            None => strip(src.skip(1)),
        }
    }
}

/// Reads source text into the straight-line instruction sequence: one
/// instruction per command byte, in order, every other byte ignored. This
/// machine has no loops, so brackets are comment text here too.
pub fn read_and_strip_bf_code(input: &[u8]) -> (r: Vec<Inst>)
    ensures
        r@ == strip(input@),
{
    let n = input.len();
    let mut code: Vec<Inst> = Vec::new();
    let mut i: usize = 0;
    proof {
        assert(input@.skip(0) =~= input@);
        assert(code@ + strip(input@) =~= strip(input@));
    }
    while i < n
        invariant
            n == input@.len(),
            i <= n,
            code@ + strip(input@.skip(i as int)) == strip(input@),
        decreases n - i,
    {
        let ghost rest = input@.skip(i as int);
        let ghost pre = code@;
        proof {
            assert(rest[0] == input@[i as int]);
            assert(rest.skip(1) =~= input@.skip(i as int + 1));
        }
        let b = input[i];
        if b == INC {
            code.push(Inst::Inc);
        } else if b == DEC {
            code.push(Inst::Dec);
        } else if b == NEXT {
            code.push(Inst::Next);
        } else if b == PREV {
            code.push(Inst::Prev);
        } else if b == INPUT {
            code.push(Inst::Input);
        } else if b == OUTPUT {
            code.push(Inst::Output);
        }
        proof {
            if inst_of_byte(rest[0]) is Some {
                assert(code@ =~= pre + seq![inst_of_byte(rest[0]).unwrap()]);
                assert(pre + (seq![inst_of_byte(rest[0]).unwrap()] + strip(rest.skip(1))) =~= (
                pre + seq![inst_of_byte(rest[0]).unwrap()]) + strip(rest.skip(1)));
            }
        }
        i = i + 1;
    }
    proof {
        assert(input@.skip(n as int) =~= Seq::<u8>::empty());
        assert(code@ + Seq::<Inst>::empty() =~= code@);
    }
    code
}

} // verus!
