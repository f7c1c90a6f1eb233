//! The compiler: filters non-command bytes out of raw source text and
//! resolves loop brackets into absolute jump targets, producing a program the
//! virtual machine can run.

use vstd::prelude::*;

use crate::eval::clear_loop_program;
use crate::eval::copy_byte_program;
use crate::eval::empty_loop_program;
use crate::eval::Inst;
use crate::eval::VmView;
use crate::eval::lemma_empty_program_is_noop;
use crate::eval::no_placeholders;
use crate::eval::reaches_done;

verus! {

pub const PLUS: u8 = 43;

pub const COMMA: u8 = 44;

pub const MINUS: u8 = 45;

pub const DOT: u8 = 46;

pub const LT: u8 = 60;

pub const GT: u8 = 62;

pub const LBRACK: u8 = 91;

pub const RBRACK: u8 = 93;

/// The ways compilation can fail.
#[derive(Clone, Copy, Debug, PartialEq, Eq, Structural)]
pub enum ErrorKind {
    UnmatchedBracket,
    IoError,
}

/// An error aborting compilation; no program is produced.
#[derive(Clone, Copy, Debug, PartialEq, Eq, Structural)]
pub struct Error {
    pub kind: ErrorKind,
}

impl Error {
    pub fn unmatched_bracket() -> (r: Error)
        ensures
            r.kind == ErrorKind::UnmatchedBracket,
    {
        Error { kind: ErrorKind::UnmatchedBracket }
    }

    pub fn io_error() -> (r: Error)
        ensures
            r.kind == ErrorKind::IoError,
    {
        Error { kind: ErrorKind::IoError }
    }
}

/// The byte is one of the eight command characters; every other byte is
/// comment text the compiler ignores.
pub open spec fn is_command_byte(b: u8) -> bool {
    b == PLUS || b == COMMA || b == MINUS || b == DOT || b == LT || b == GT || b == LBRACK
        || b == RBRACK
}

/// Compilation, one byte at a time: `code` is what was emitted so far and
/// `stack` holds the emission indices of the openers still waiting for their
/// closing bracket. At an opener a `Placeholder` is emitted and its index
/// pushed; at a closer the matching opener is popped, the backward jump is
/// emitted, and the placeholder is patched to point one past it. `None` is a
/// bracket mismatch: a closer with an empty stack, or openers left at the
/// end.
pub open spec fn compile_from(src: Seq<u8>, code: Seq<Inst>, stack: Seq<usize>) -> Option<
    Seq<Inst>,
>
    decreases src.len(),
{
    if src.len() == 0 {
        if stack.len() == 0 {
            Some(code)
        } else {
            None
        }
    } else {
        let b = src[0];
        let rest = src.skip(1);
        if b == PLUS {
            compile_from(rest, code.push(Inst::Add), stack)
        } else if b == MINUS {
            compile_from(rest, code.push(Inst::Sub), stack)
        } else if b == GT {
            compile_from(rest, code.push(Inst::Right), stack)
        } else if b == LT {
            compile_from(rest, code.push(Inst::Left), stack)
        } else if b == COMMA {
            compile_from(rest, code.push(Inst::Input), stack)
        } else if b == DOT {
            compile_from(rest, code.push(Inst::Output), stack)
        } else if b == LBRACK {
            compile_from(rest, code.push(Inst::Placeholder), stack.push(code.len() as usize))
        } else if b == RBRACK {
            if stack.len() == 0 {
                None
            } else {
                let open = stack.last();
                let patched = code.push(Inst::JumpUnlessZero((open + 1) as usize)).update(
                    open as int,
                    Inst::JumpIfZero((code.len() + 1) as usize),
                );
                compile_from(rest, patched, stack.drop_last())
            }
        } else {
            compile_from(rest, code, stack)
        }
    }
}

/// What compiling `src` yields: the resolved program, or `None` on a bracket
/// mismatch.
pub open spec fn compile(src: Seq<u8>) -> Option<Seq<Inst>> {
    compile_from(src, Seq::empty(), Seq::empty())
}

/// Translates source text into a resolved program. Every byte that is not
/// one of the eight command characters is ignored. Fails exactly on bracket
/// mismatches: a closer without an opener, or an opener never closed.
pub fn compile_bf(input: &[u8]) -> (r: Result<Vec<Inst>, Error>)
    ensures
        match r {
            Ok(code) => compile(input@) == Some(code@),
            Err(e) => compile(input@) is None && e.kind == ErrorKind::UnmatchedBracket,
        },
{
    let n = input.len();
    let mut code: Vec<Inst> = Vec::new();
    let mut loop_stack: Vec<usize> = Vec::new();
    let mut i: usize = 0;

    proof {
        assert(input@.skip(0) =~= input@);
    }
    while i < n
        invariant
            n == input@.len(),
            i <= n,
            code@.len() <= i,
            forall|k: int| 0 <= k < loop_stack@.len() ==> loop_stack@[k] < code@.len(),
            compile_from(input@.skip(i as int), code@, loop_stack@) == compile(input@),
        decreases n - i,
    {
        let ghost pre_src = input@.skip(i as int);
        let ghost pre_code = code@;
        let ghost pre_stack = loop_stack@;
        proof {
            assert(pre_src[0] == input@[i as int]);
            assert(pre_src.skip(1) =~= input@.skip(i as int + 1));
        }
        let b = input[i];
        if b == PLUS {
            code.push(Inst::Add);
        } else if b == MINUS {
            code.push(Inst::Sub);
        } else if b == GT {
            code.push(Inst::Right);
        } else if b == LT {
            code.push(Inst::Left);
        } else if b == COMMA {
            code.push(Inst::Input);
        } else if b == DOT {
            code.push(Inst::Output);
        } else if b == LBRACK {
            loop_stack.push(code.len());
            code.push(Inst::Placeholder);
        } else if b == RBRACK {
            match loop_stack.pop() {
                Some(open) => {
                    let target = code.len() + 1;
                    code.push(Inst::JumpUnlessZero(open + 1));
                    code[open] = Inst::JumpIfZero(target);
                    proof {
                        assert(pre_stack.last() == open);
                        assert(loop_stack@ =~= pre_stack.drop_last());
                        assert(code@ =~= pre_code.push(
                            Inst::JumpUnlessZero((open + 1) as usize),
                        ).update(open as int, Inst::JumpIfZero((pre_code.len() + 1) as usize)));
                    }
                },
                None => {
                    return Err(Error::unmatched_bracket());
                },
            }
        }
        i = i + 1;
    }
    proof {
        assert(input@.skip(n as int) =~= Seq::<u8>::empty());
    }
    if loop_stack.len() > 0 {
        return Err(Error::unmatched_bracket());
    }
    Ok(code)
}

/// The jump at `code[p]`, if it is one, lands one past its matching partner:
/// a forward jump's target is just past the backward jump that in turn
/// points just past the forward one.
pub open spec fn jump_resolved_at(code: Seq<Inst>, p: int) -> bool {
    match code[p] {
        Inst::JumpIfZero(t) => p + 1 < t <= code.len() && (code[t - 1] matches
            Inst::JumpUnlessZero(u) && u == p + 1),
        Inst::JumpUnlessZero(t) => 1 <= t <= p && (code[t - 1] matches Inst::JumpIfZero(u) && u
            == p + 1),
        _ => true,
    }
}

/// The instruction at `p` is fit for a finished program: not a placeholder,
/// and matched if it is a jump.
pub open spec fn resolved_at(code: Seq<Inst>, p: int) -> bool {
    jump_resolved_at(code, p) && code[p] != Inst::Placeholder
}

/// The program invariant every successful compilation establishes: no
/// placeholder is left, and every jump points one past its matching bracket
/// partner.
pub open spec fn resolved(code: Seq<Inst>) -> bool {
    forall|p: int| 0 <= p < code.len() ==> #[trigger] resolved_at(code, p)
}

/// The compiler's bookkeeping invariant between two source bytes: the
/// pending-opener stack is strictly increasing, its entries are exactly the
/// placeholder positions, and every jump emitted so far is already matched.
pub open spec fn stack_ok(code: Seq<Inst>, stack: Seq<usize>) -> bool {
    &&& forall|j: int|
        0 <= j < stack.len() ==> #[trigger] stack[j] < code.len() && code[stack[j] as int]
            == Inst::Placeholder
    &&& forall|j1: int, j2: int| 0 <= j1 < j2 < stack.len() ==> stack[j1] < stack[j2]
    &&& forall|p: int|
        0 <= p < code.len() && #[trigger] code[p] == Inst::Placeholder ==> exists|j: int|
            0 <= j < stack.len() && stack[j] == p
    &&& forall|p: int| 0 <= p < code.len() ==> #[trigger] jump_resolved_at(code, p)
}

proof fn lemma_compile_from_resolved(src: Seq<u8>, code: Seq<Inst>, stack: Seq<usize>, out: Seq<
    Inst,
>)
    requires
        compile_from(src, code, stack) == Some(out),
        stack_ok(code, stack),
        code.len() + src.len() <= usize::MAX,
    ensures
        resolved(out),
    decreases src.len(),
{
    if src.len() == 0 {
        assert(out == code);
        assert forall|p: int| 0 <= p < out.len() implies #[trigger] resolved_at(out, p) by {
            assert(jump_resolved_at(out, p));
            assert(out[p] != Inst::Placeholder);
        }
    } else {
        let b = src[0];
        let rest = src.skip(1);
        if b == LBRACK {
            let code2 = code.push(Inst::Placeholder);
            let stack2 = stack.push(code.len() as usize);
            assert forall|p: int| 0 <= p < code2.len() implies #[trigger] jump_resolved_at(
                code2,
                p,
            ) by {
                if p < code.len() {
                    assert(jump_resolved_at(code, p));
                }
            }
            assert forall|p: int|
                0 <= p < code2.len() && #[trigger] code2[p] == Inst::Placeholder implies exists|
                j: int,
            | 0 <= j < stack2.len() && stack2[j] == p by {
                if p < code.len() {
                    let j0 = choose|j: int| 0 <= j < stack.len() && stack[j] == p;
                    assert(stack2[j0] == p);
                } else {
                    assert(stack2[stack.len() as int] == p);
                }
            }
            assert(stack_ok(code2, stack2));
            lemma_compile_from_resolved(rest, code2, stack2, out);
        } else if b == RBRACK {
            let open = stack.last();
            let l = code.len() as int;
            let code2 = code.push(Inst::JumpUnlessZero((open + 1) as usize)).update(
                open as int,
                Inst::JumpIfZero((code.len() + 1) as usize),
            );
            let stack2 = stack.drop_last();
            assert(stack[stack.len() - 1] == open);
            assert(open < l && code[open as int] == Inst::Placeholder);
            assert forall|j: int|
                0 <= j < stack2.len() implies #[trigger] stack2[j] < code2.len() && code2[stack2[j] as int]
                == Inst::Placeholder by {
                assert(stack[j] == stack2[j]);
                assert(stack[j] < stack[stack.len() - 1]);
            }
            assert forall|p: int|
                0 <= p < code2.len() && #[trigger] code2[p] == Inst::Placeholder implies exists|
                j: int,
            | 0 <= j < stack2.len() && stack2[j] == p by {
                assert(p != open as int && p != l);
                assert(code[p] == Inst::Placeholder);
                let j0 = choose|j: int| 0 <= j < stack.len() && stack[j] == p;
                assert(j0 != stack.len() - 1);
                assert(stack2[j0] == p);
            }
            assert forall|p: int| 0 <= p < code2.len() implies #[trigger] jump_resolved_at(
                code2,
                p,
            ) by {
                if p == open as int {
                    assert(code2[p] == Inst::JumpIfZero((l + 1) as usize));
                    assert(code2[l] == Inst::JumpUnlessZero((open + 1) as usize));
                } else if p == l {
                    assert(code2[p] == Inst::JumpUnlessZero((open + 1) as usize));
                    assert(code2[open as int] == Inst::JumpIfZero((l + 1) as usize));
                } else {
                    assert(code2[p] == code[p]);
                    assert(jump_resolved_at(code, p));
                    match code[p] {
                        Inst::JumpIfZero(t) => {
                            assert(code[t - 1] != Inst::Placeholder);
                            assert(t - 1 != open as int && t - 1 != l);
                            assert(code2[t - 1] == code[t - 1]);
                        },
                        Inst::JumpUnlessZero(t) => {
                            assert(code[t - 1] != Inst::Placeholder);
                            assert(t - 1 != open as int && t - 1 != l);
                            assert(code2[t - 1] == code[t - 1]);
                        },
                        _ => {},
                    }
                }
            }
            assert(stack_ok(code2, stack2));
            lemma_compile_from_resolved(rest, code2, stack2, out);
        } else if is_command_byte(b) {
            let inst = if b == PLUS {
                Inst::Add
            } else if b == MINUS {
                Inst::Sub
            } else if b == GT {
                Inst::Right
            } else if b == LT {
                Inst::Left
            } else if b == COMMA {
                Inst::Input
            } else {
                Inst::Output
            };
            let code2 = code.push(inst);
            assert forall|p: int| 0 <= p < code2.len() implies #[trigger] jump_resolved_at(
                code2,
                p,
            ) by {
                if p < code.len() {
                    assert(jump_resolved_at(code, p));
                }
            }
            assert forall|p: int|
                0 <= p < code2.len() && #[trigger] code2[p] == Inst::Placeholder implies exists|
                j: int,
            | 0 <= j < stack.len() && stack[j] == p by {
                assert(code[p] == Inst::Placeholder);
            }
            assert(stack_ok(code2, stack));
            lemma_compile_from_resolved(rest, code2, stack, out);
        } else {
            lemma_compile_from_resolved(rest, code, stack, out);
        }
    }
}

/// A successfully compiled program is fully resolved: no placeholder is left
/// in it, and every jump lands one past its matching bracket partner.
pub proof fn lemma_compile_resolved(src: Seq<u8>, out: Seq<Inst>)
    requires
        compile(src) == Some(out),
        src.len() <= usize::MAX,
    ensures
        resolved(out),
        no_placeholders(out),
{
    lemma_compile_from_resolved(src, Seq::empty(), Seq::empty(), out);
    assert forall|i: int| 0 <= i < out.len() implies out[i] != Inst::Placeholder by {
        assert(resolved_at(out, i));
    }
}

proof fn lemma_comments_ignored(src: Seq<u8>, code: Seq<Inst>, stack: Seq<usize>)
    requires
        forall|i: int| 0 <= i < src.len() ==> !is_command_byte(#[trigger] src[i]),
    ensures
        compile_from(src, code, stack) == (if stack.len() == 0 {
            Some(code)
        } else {
            None::<Seq<Inst>>
        }),
    decreases src.len(),
{
    if src.len() > 0 {
        assert(!is_command_byte(src[0]));
        assert forall|i: int|
            0 <= i < src.skip(1).len() implies !is_command_byte(#[trigger] src.skip(1)[i]) by {
            assert(src.skip(1)[i] == src[i + 1]);
        }
        lemma_comments_ignored(src.skip(1), code, stack);
    }
}

/// Source text with no command characters compiles to the empty program, and
/// evaluating that program is a no-op: any machine halts at once with tape,
/// pointer and streams untouched.
pub proof fn lemma_comments_only_compile_to_noop(src: Seq<u8>, vm: VmView)
    requires
        forall|i: int| 0 <= i < src.len() ==> !is_command_byte(#[trigger] src[i]),
    ensures
        compile(src) == Some(Seq::<Inst>::empty()),
        reaches_done(Seq::<Inst>::empty(), vm, vm),
{
    lemma_comments_ignored(src, Seq::empty(), Seq::empty());
    lemma_empty_program_is_noop(vm, 0);
}

/// Compiling `"[]"` yields exactly the empty-loop program whose behaviour
/// [`crate::eval::lemma_empty_loop_on_zero_is_noop`] states.
pub proof fn lemma_compile_empty_loop()
    ensures
        compile(seq![LBRACK, RBRACK]) == Some(empty_loop_program()),
{
    let src = seq![LBRACK, RBRACK];
    let c0 = Seq::<Inst>::empty();
    let s0 = Seq::<usize>::empty();
    let c1 = c0.push(Inst::Placeholder);
    let s1 = s0.push(0usize);
    assert(src.skip(1) =~= seq![RBRACK]);
    assert(compile_from(src, c0, s0) == compile_from(seq![RBRACK], c1, s1));
    let c2 = c1.push(Inst::JumpUnlessZero(1)).update(0, Inst::JumpIfZero(2));
    assert(seq![RBRACK].skip(1) =~= Seq::<u8>::empty());
    assert(s1.drop_last() =~= s0);
    assert(compile_from(seq![RBRACK], c1, s1) == compile_from(Seq::<u8>::empty(), c2, s0));
    assert(compile_from(Seq::<u8>::empty(), c2, s0) == Some(c2));
    assert(c2 =~= empty_loop_program());
}

/// Compiling `"[-]"` yields exactly the cell-clearing program whose
/// behaviour [`crate::eval::lemma_clear_loop_clears`] states.
pub proof fn lemma_compile_clear_loop()
    ensures
        compile(seq![LBRACK, MINUS, RBRACK]) == Some(clear_loop_program()),
{
    let src = seq![LBRACK, MINUS, RBRACK];
    let c0 = Seq::<Inst>::empty();
    let s0 = Seq::<usize>::empty();
    let c1 = c0.push(Inst::Placeholder);
    let s1 = s0.push(0usize);
    assert(src.skip(1) =~= seq![MINUS, RBRACK]);
    assert(compile_from(src, c0, s0) == compile_from(seq![MINUS, RBRACK], c1, s1));
    let c2 = c1.push(Inst::Sub);
    assert(seq![MINUS, RBRACK].skip(1) =~= seq![RBRACK]);
    assert(compile_from(seq![MINUS, RBRACK], c1, s1) == compile_from(seq![RBRACK], c2, s1));
    let c3 = c2.push(Inst::JumpUnlessZero(1)).update(0, Inst::JumpIfZero(3));
    assert(seq![RBRACK].skip(1) =~= Seq::<u8>::empty());
    assert(s1.drop_last() =~= s0);
    assert(compile_from(seq![RBRACK], c2, s1) == compile_from(Seq::<u8>::empty(), c3, s0));
    assert(compile_from(Seq::<u8>::empty(), c3, s0) == Some(c3));
    assert(c3 =~= clear_loop_program());
}

/// Compiling `",."` yields exactly the one-byte copy program whose behaviour
/// [`crate::eval::lemma_copy_program_copies_one_byte`] states.
pub proof fn lemma_compile_copy_program()
    ensures
        compile(seq![COMMA, DOT]) == Some(copy_byte_program()),
{
    let src = seq![COMMA, DOT];
    let c0 = Seq::<Inst>::empty();
    let s0 = Seq::<usize>::empty();
    let c1 = c0.push(Inst::Input);
    assert(src.skip(1) =~= seq![DOT]);
    assert(compile_from(src, c0, s0) == compile_from(seq![DOT], c1, s0));
    let c2 = c1.push(Inst::Output);
    assert(seq![DOT].skip(1) =~= Seq::<u8>::empty());
    assert(compile_from(seq![DOT], c1, s0) == compile_from(Seq::<u8>::empty(), c2, s0));
    assert(compile_from(Seq::<u8>::empty(), c2, s0) == Some(c2));
    assert(c2 =~= copy_byte_program());
}

/// The brackets of `src` balance from `pending` open ones: no prefix closes
/// more than was opened, and everything opened is closed by the end.
/// Non-command bytes play no part.
pub open spec fn balanced_from(src: Seq<u8>, pending: int) -> bool
    decreases src.len(),
{
    if src.len() == 0 {
        pending == 0
    } else if src[0] == LBRACK {
        balanced_from(src.skip(1), pending + 1)
    } else if src[0] == RBRACK {
        pending > 0 && balanced_from(src.skip(1), pending - 1)
    } else {
        balanced_from(src.skip(1), pending)
    }
}

/// The brackets of `src` balance.
pub open spec fn balanced(src: Seq<u8>) -> bool {
    balanced_from(src, 0)
}

proof fn lemma_compile_from_iff_balanced(src: Seq<u8>, code: Seq<Inst>, stack: Seq<usize>)
    ensures
        compile_from(src, code, stack) is Some <==> balanced_from(src, stack.len() as int),
    decreases src.len(),
{
    if src.len() > 0 {
        let b = src[0];
        let rest = src.skip(1);
        if b == PLUS {
            lemma_compile_from_iff_balanced(rest, code.push(Inst::Add), stack);
        } else if b == MINUS {
            lemma_compile_from_iff_balanced(rest, code.push(Inst::Sub), stack);
        } else if b == GT {
            lemma_compile_from_iff_balanced(rest, code.push(Inst::Right), stack);
        } else if b == LT {
            lemma_compile_from_iff_balanced(rest, code.push(Inst::Left), stack);
        } else if b == COMMA {
            lemma_compile_from_iff_balanced(rest, code.push(Inst::Input), stack);
        } else if b == DOT {
            lemma_compile_from_iff_balanced(rest, code.push(Inst::Output), stack);
        } else if b == LBRACK {
            lemma_compile_from_iff_balanced(
                rest,
                code.push(Inst::Placeholder),
                stack.push(code.len() as usize),
            );
        } else if b == RBRACK {
            if stack.len() > 0 {
                let open = stack.last();
                let patched = code.push(Inst::JumpUnlessZero((open + 1) as usize)).update(
                    open as int,
                    Inst::JumpIfZero((code.len() + 1) as usize),
                );
                lemma_compile_from_iff_balanced(rest, patched, stack.drop_last());
            }
        } else {
            lemma_compile_from_iff_balanced(rest, code, stack);
        }
    }
}

/// When compilation is owed success: it returns a program exactly when the
/// source's brackets balance, and an `UnmatchedBracket` error exactly when
/// they do not.
pub proof fn lemma_compile_succeeds_iff_balanced(src: Seq<u8>)
    ensures
        compile(src) is Some <==> balanced(src),
{
    lemma_compile_from_iff_balanced(src, Seq::empty(), Seq::empty());
}

} // verus!
