//! The execution engine: a stackless, instruction-splicing machine. One
//! pending-instruction stream carries the whole remaining run; calling a
//! procedure splices its body, reversed, onto the stream's end instead of
//! pushing a native frame. Each `step` takes one instruction and reports
//! what the caller must do for it: write text out, read a line in, stop.

use vstd::prelude::*;
use vstd::utf8::{encode_utf8, valid_utf8, decode_utf8};
use crate::bignum::{Big, abs_nat, be_bytes, be_value, clamped, dec_chars, trunc_div, trunc_rem};
use crate::bignum::{big_add, big_sub, big_mul, big_div, big_rem, big_eq, big_lt};
use crate::bignum::big_to_dec_string;
use crate::call_stack::{CallStack, FrameV, dump_bytes, frames_wf, propagated, push_bytes, rem_sum};
use crate::call_stack::{lemma_propagated, lemma_rem_sum_push, lemma_rem_sum_update_last};
use vstd::string::StringExecFns;
use crate::command::{BuiltInCommand, CmdV, Command, cmd_view, cmd_wf, cmds_view, cmds_wf};
use crate::command::lemma_cmds_view;
use crate::compile::Program;

verus! {

/// What the machine is waiting for.
#[derive(Clone, Copy, Debug, PartialEq, Eq)]
pub enum Mode {
    Ready,
    WantLine,
    WantArg,
    Stopped,
}

/// Why a run failed.
#[derive(Debug, PartialEq, Eq)]
pub enum FailKind {
    Unresolved(Vec<u8>),
    DivideByZero,
    InvalidText,
}

/// A fatal failure, with the full message, trace included, to report on
/// the error channel.
#[derive(Debug, PartialEq, Eq)]
pub struct Failure {
    pub kind: FailKind,
    pub message: Vec<u8>,
}

/// What one step asks of the caller.
#[derive(Debug, PartialEq, Eq)]
pub enum Effect {
    /// The step was internal; go on.
    Proceed,
    /// Write this text to standard output.
    Emit(String),
    /// Read one line and hand it to `provide_line`.
    NeedLine,
    /// Look the command-line argument with this index up and hand it to
    /// `provide_arg`.
    NeedArg(usize),
    /// The stream is exhausted: normal completion.
    Done,
    /// Terminate with this exit code.
    Exit(i32),
    /// A fatal failure: report it and exit with code 1.
    Abort(Failure),
}

/// The mathematical shape of a failure.
pub ghost enum FailV {
    Unresolved(Seq<u8>),
    DivideByZero,
    InvalidText,
}

/// The mathematical shape of an effect.
pub ghost enum EffV {
    Proceed,
    Emit(Seq<char>),
    NeedLine,
    NeedArg(int),
    Done,
    Exit(int),
    Abort(FailV, Seq<u8>),
}

pub open spec fn fail_kind_view(k: FailKind) -> FailV {
    match k {
        FailKind::Unresolved(name) => FailV::Unresolved(name@),
        FailKind::DivideByZero => FailV::DivideByZero,
        FailKind::InvalidText => FailV::InvalidText,
    }
}

pub open spec fn eff_view(e: Effect) -> EffV {
    match e {
        Effect::Proceed => EffV::Proceed,
        Effect::Emit(s) => EffV::Emit(s@),
        Effect::NeedLine => EffV::NeedLine,
        Effect::NeedArg(i) => EffV::NeedArg(i as int),
        Effect::Done => EffV::Done,
        Effect::Exit(c) => EffV::Exit(c as int),
        Effect::Abort(f) => EffV::Abort(fail_kind_view(f.kind), f.message@),
    }
}

/// The machine's mathematical state.
#[verifier::ext_equal]
pub ghost struct MachineV {
    pub stack: Seq<int>,
    pub stream: Seq<CmdV>,
    pub frames: Seq<FrameV>,
    pub mode: Mode,
}

/// Values of a stack of integers.
pub open spec fn stack_view(v: Seq<Big>) -> Seq<int> {
    v.map_values(|b: Big| b@)
}

/// The full error-channel message for an unresolved procedure reference.
pub open spec fn unresolved_msg(name: Seq<u8>, frames: Seq<FrameV>) -> Seq<u8> {
    encode_utf8("ERROR: Unresolved Symbol: \""@) + name + encode_utf8("\"\n"@) + dump_bytes(frames)
}

/// The full error-channel message for a division or modulo by zero.
pub open spec fn div_zero_msg(frames: Seq<FrameV>) -> Seq<u8> {
    encode_utf8("ERROR: Division By Zero\n"@) + dump_bytes(frames)
}

/// The full error-channel message for printing a value whose bytes are not
/// UTF-8 text.
pub open spec fn bad_text_msg(frames: Seq<FrameV>) -> Seq<u8> {
    encode_utf8("ERROR: Invalid UTF-8 Text\n"@) + dump_bytes(frames)
}

/// The diagnostic stack after one instruction is counted as stepped.
pub open spec fn step_top(s: Seq<FrameV>) -> Seq<FrameV>
    recommends
        s.len() >= 1,
{
    s.update(
        s.len() - 1,
        FrameV {
            name: s.last().name,
            length: s.last().length - 1,
            capacity: s.last().capacity,
        },
    )
}

/// The operations that only rearrange or combine stack values.
pub open spec fn is_pure_op(op: BuiltInCommand) -> bool {
    match op {
        BuiltInCommand::Increment => true,
        BuiltInCommand::Decrement => true,
        BuiltInCommand::Sum => true,
        BuiltInCommand::Difference => true,
        BuiltInCommand::Product => true,
        BuiltInCommand::Equality => true,
        BuiltInCommand::Inequality => true,
        BuiltInCommand::LessThan => true,
        BuiltInCommand::GreaterThan => true,
        BuiltInCommand::LessEqual => true,
        BuiltInCommand::GreaterEqual => true,
        BuiltInCommand::Drop => true,
        BuiltInCommand::Duplicate => true,
        BuiltInCommand::Swap => true,
        BuiltInCommand::Over => true,
        BuiltInCommand::Rotate => true,
        BuiltInCommand::NoOp => true,
        _ => false,
    }
}

/// What a pure operation leaves on the stack. Operands read left to right
/// as pushed: in `a b -`, `a` is the left operand. An operation short of
/// operands leaves the stack unchanged, except `dup` and `over`, which
/// substitute a zero.
pub open spec fn stack_op(op: BuiltInCommand, s: Seq<int>) -> Seq<int>
    recommends
        is_pure_op(op),
{
    let n = s.len() as int;
    match op {
        BuiltInCommand::Increment => if n >= 1 {
            s.update(n - 1, s.last() + 1)
        } else {
            s
        },
        BuiltInCommand::Decrement => if n >= 1 {
            s.update(n - 1, s.last() - 1)
        } else {
            s
        },
        BuiltInCommand::Sum => if n >= 2 {
            s.subrange(0, n - 2).push(s[n - 2] + s[n - 1])
        } else {
            s
        },
        BuiltInCommand::Difference => if n >= 2 {
            s.subrange(0, n - 2).push(s[n - 2] - s[n - 1])
        } else {
            s
        },
        BuiltInCommand::Product => if n >= 2 {
            s.subrange(0, n - 2).push(s[n - 2] * s[n - 1])
        } else {
            s
        },
        BuiltInCommand::Equality => if n >= 2 {
            s.subrange(0, n - 2).push(if s[n - 2] == s[n - 1] { 1int } else { 0int })
        } else {
            s
        },
        BuiltInCommand::Inequality => if n >= 2 {
            s.subrange(0, n - 2).push(if s[n - 2] != s[n - 1] { 1int } else { 0int })
        } else {
            s
        },
        BuiltInCommand::LessThan => if n >= 2 {
            s.subrange(0, n - 2).push(if s[n - 2] < s[n - 1] { 1int } else { 0int })
        } else {
            s
        },
        BuiltInCommand::GreaterThan => if n >= 2 {
            s.subrange(0, n - 2).push(if s[n - 2] > s[n - 1] { 1int } else { 0int })
        } else {
            s
        },
        BuiltInCommand::LessEqual => if n >= 2 {
            s.subrange(0, n - 2).push(if s[n - 2] <= s[n - 1] { 1int } else { 0int })
        } else {
            s
        },
        BuiltInCommand::GreaterEqual => if n >= 2 {
            s.subrange(0, n - 2).push(if s[n - 2] >= s[n - 1] { 1int } else { 0int })
        } else {
            s
        },
        BuiltInCommand::Drop => if n >= 1 {
            s.drop_last()
        } else {
            s
        },
        BuiltInCommand::Duplicate => if n >= 1 {
            s.push(s.last())
        } else {
            s.push(0)
        },
        BuiltInCommand::Swap => if n >= 2 {
            s.update(n - 1, s[n - 2]).update(n - 2, s[n - 1])
        } else {
            s
        },
        BuiltInCommand::Over => if n >= 3 {
            s.push(s[n - 2])
        } else {
            s.push(0)
        },
        BuiltInCommand::Rotate => if n >= 3 {
            s.subrange(0, n - 3) + seq![s[n - 2], s[n - 1], s[n - 3]]
        } else {
            s
        },
        _ => s,
    }
}

/// One step's effect on the machine, for a built-in operation. `m` is the
/// state before the step, `rest` the stream without the operation, and
/// `stepped` the diagnostic stack after the step is counted.
pub open spec fn spec_step_op(
    op: BuiltInCommand,
    m: MachineV,
    rest: Seq<CmdV>,
    stepped: Seq<FrameV>,
) -> (MachineV, EffV) {
    let n = m.stack.len() as int;
    if is_pure_op(op) {
        (
            MachineV { stack: stack_op(op, m.stack), stream: rest, frames: stepped, mode: m.mode },
            EffV::Proceed,
        )
    } else {
        match op {
            BuiltInCommand::Put => if n >= 1 {
                (
                    MachineV { stack: m.stack.drop_last(), stream: rest, frames: stepped, mode: m.mode },
                    EffV::Emit(dec_chars(m.stack.last())),
                )
            } else {
                (
                    MachineV { stack: m.stack, stream: rest, frames: stepped, mode: m.mode },
                    EffV::Proceed,
                )
            },
            BuiltInCommand::PutLine => if n >= 1 {
                (
                    MachineV { stack: m.stack.drop_last(), stream: rest, frames: stepped, mode: m.mode },
                    EffV::Emit(dec_chars(m.stack.last()) + "\n"@),
                )
            } else {
                (
                    MachineV { stack: m.stack, stream: rest, frames: stepped, mode: m.mode },
                    EffV::Emit("\n"@),
                )
            },
            BuiltInCommand::Print => if n >= 1 {
                let bytes = be_bytes(abs_nat(m.stack.last()));
                if valid_utf8(bytes) {
                    (
                        MachineV { stack: m.stack.drop_last(), stream: rest, frames: stepped, mode: m.mode },
                        EffV::Emit(decode_utf8(bytes)),
                    )
                } else {
                    (
                        MachineV { stack: m.stack, stream: rest, frames: m.frames, mode: Mode::Stopped },
                        EffV::Abort(FailV::InvalidText, bad_text_msg(m.frames)),
                    )
                }
            } else {
                (
                    MachineV { stack: m.stack, stream: rest, frames: stepped, mode: m.mode },
                    EffV::Proceed,
                )
            },
            BuiltInCommand::PrintLine => if n >= 1 {
                let bytes = be_bytes(abs_nat(m.stack.last()));
                if valid_utf8(bytes) {
                    (
                        MachineV { stack: m.stack.drop_last(), stream: rest, frames: stepped, mode: m.mode },
                        EffV::Emit(decode_utf8(bytes) + "\n"@),
                    )
                } else {
                    (
                        MachineV { stack: m.stack, stream: rest, frames: m.frames, mode: Mode::Stopped },
                        EffV::Abort(FailV::InvalidText, bad_text_msg(m.frames)),
                    )
                }
            } else {
                (
                    MachineV { stack: m.stack, stream: rest, frames: stepped, mode: m.mode },
                    EffV::Proceed,
                )
            },
            BuiltInCommand::ReadLine => (
                MachineV { stack: m.stack, stream: rest, frames: stepped, mode: Mode::WantLine },
                EffV::NeedLine,
            ),
            BuiltInCommand::Exit => if n >= 1 {
                let v = m.stack.last();
                let code: int = if i32::MIN <= v <= i32::MAX {
                    v
                } else {
                    1
                };
                (
                    MachineV { stack: m.stack.drop_last(), stream: rest, frames: stepped, mode: Mode::Stopped },
                    EffV::Exit(code),
                )
            } else {
                (
                    MachineV { stack: m.stack, stream: rest, frames: stepped, mode: Mode::Stopped },
                    EffV::Exit(0),
                )
            },
            BuiltInCommand::Quotient => if n >= 2 {
                if m.stack.last() == 0 {
                    (
                        MachineV { stack: m.stack, stream: rest, frames: m.frames, mode: Mode::Stopped },
                        EffV::Abort(FailV::DivideByZero, div_zero_msg(m.frames)),
                    )
                } else {
                    (
                        MachineV {
                            stack: m.stack.subrange(0, n - 2).push(
                                trunc_div(m.stack[n - 2], m.stack[n - 1]),
                            ),
                            stream: rest,
                            frames: stepped,
                            mode: m.mode,
                        },
                        EffV::Proceed,
                    )
                }
            } else {
                (
                    MachineV { stack: m.stack, stream: rest, frames: stepped, mode: m.mode },
                    EffV::Proceed,
                )
            },
            BuiltInCommand::Modulo => if n >= 2 {
                if m.stack.last() == 0 {
                    (
                        MachineV { stack: m.stack, stream: rest, frames: m.frames, mode: Mode::Stopped },
                        EffV::Abort(FailV::DivideByZero, div_zero_msg(m.frames)),
                    )
                } else {
                    (
                        MachineV {
                            stack: m.stack.subrange(0, n - 2).push(
                                trunc_rem(m.stack[n - 2], m.stack[n - 1]),
                            ),
                            stream: rest,
                            frames: stepped,
                            mode: m.mode,
                        },
                        EffV::Proceed,
                    )
                }
            } else {
                (
                    MachineV { stack: m.stack, stream: rest, frames: stepped, mode: m.mode },
                    EffV::Proceed,
                )
            },
            BuiltInCommand::CmdArg => if n >= 1 {
                let v = m.stack.last();
                if 0 <= v <= usize::MAX {
                    (
                        MachineV { stack: m.stack.drop_last(), stream: rest, frames: stepped, mode: Mode::WantArg },
                        EffV::NeedArg(v),
                    )
                } else {
                    (
                        MachineV { stack: m.stack.drop_last().push(0), stream: rest, frames: stepped, mode: m.mode },
                        EffV::Proceed,
                    )
                }
            } else {
                (
                    MachineV { stack: m.stack, stream: rest, frames: stepped, mode: m.mode },
                    EffV::Proceed,
                )
            },
            _ => (
                MachineV { stack: m.stack, stream: rest, frames: stepped, mode: m.mode },
                EffV::Proceed,
            ),
        }
    }
}

/// One step of the machine: take the stream's last element and dispatch.
/// An empty stream is normal completion. This function is the engine's
/// semantics; `Machine::step` is proved to match it exactly.
pub open spec fn spec_step(prog: Map<Seq<u8>, Seq<CmdV>>, m: MachineV) -> (MachineV, EffV) {
    if m.stream.len() == 0 {
        (m, EffV::Done)
    } else {
        let c = m.stream.last();
        let rest = m.stream.drop_last();
        let stepped = propagated(step_top(m.frames));
        match c {
            CmdV::Int(v) => (
                MachineV { stack: m.stack.push(v), stream: rest, frames: stepped, mode: m.mode },
                EffV::Proceed,
            ),
            CmdV::Op(op) => spec_step_op(op, m, rest, stepped),
            CmdV::Call(name) => if prog.contains_key(name) {
                let body = prog[name];
                if body.len() > 0 {
                    let frame = FrameV {
                        name: name,
                        length: body.len() as int,
                        capacity: body.len() as int,
                    };
                    (
                        MachineV {
                            stack: m.stack,
                            stream: rest + body.reverse(),
                            frames: propagated(step_top(m.frames).push(frame)),
                            mode: m.mode,
                        },
                        EffV::Proceed,
                    )
                } else {
                    (
                        MachineV { stack: m.stack, stream: rest, frames: stepped, mode: m.mode },
                        EffV::Proceed,
                    )
                }
            } else {
                (
                    MachineV { stack: m.stack, stream: rest, frames: m.frames, mode: Mode::Stopped },
                    EffV::Abort(FailV::Unresolved(name), unresolved_msg(name, m.frames)),
                )
            },
            CmdV::Branch(opts) => if m.stack.len() == 0 {
                (
                    MachineV { stack: m.stack, stream: rest, frames: stepped, mode: m.mode },
                    EffV::Proceed,
                )
            } else {
                let idx = clamped(m.stack.last(), opts.len() as int);
                (
                    MachineV {
                        stack: m.stack.drop_last(),
                        stream: rest.push(opts[idx]),
                        frames: propagated(m.frames),
                        mode: m.mode,
                    },
                    EffV::Proceed,
                )
            },
        }
    }
}

/// Shapes of a stream of borrowed commands.
pub open spec fn stream_cmds(v: Seq<&Command>) -> Seq<CmdV> {
    v.map_values(|c: &Command| cmd_view(*c))
}

/// Relies on std's String::from_utf8: it succeeds exactly on valid UTF-8
/// and decodes it.
#[verifier::external_body]
fn bytes_to_string(v: Vec<u8>) -> (r: Option<String>)
    ensures
        r is Some <==> valid_utf8(v@),
        r is Some ==> r->0@ == decode_utf8(v@),
{
    match String::from_utf8(v) {
        Ok(s) => Some(s),
        Err(_) => None,
    }
}

/// When instructions remain, the current procedure has at least one left.
pub proof fn lemma_top_has_remaining(frames: Seq<FrameV>, n: int)
    requires
        frames_wf(frames),
        frames.len() >= 1,
        rem_sum(frames) == n,
        n >= 1,
        frames.len() > 1 ==> frames.last().length >= 1,
    ensures
        frames.last().length >= 1,
{
    if frames.len() == 1 {
        assert(frames.subrange(0, 0) =~= Seq::<FrameV>::empty());
        assert(rem_sum(frames.subrange(0, 0)) == 0);
    }
}

/// Stepping the diagnostic stack and popping completed frames keeps the
/// books straight: the total remaining count drops by exactly one.
pub proof fn lemma_step_frames(f: Seq<FrameV>, n: int)
    requires
        frames_wf(f),
        f.len() >= 1,
        rem_sum(f) == n,
        n >= 1,
        f.len() > 1 ==> f.last().length >= 1,
    ensures
        f.last().length >= 1,
        f.last().length <= f.last().capacity,
        frames_wf(step_top(f)),
        step_top(f).len() == f.len(),
        step_top(f).last().length == f.last().length - 1,
        step_top(f).last().capacity == f.last().capacity,
        rem_sum(step_top(f)) == n - 1,
        frames_wf(propagated(step_top(f))),
        propagated(step_top(f)).len() >= 1,
        rem_sum(propagated(step_top(f))) == n - 1,
        propagated(step_top(f)).len() > 1 ==> propagated(step_top(f)).last().length >= 1,
{
    lemma_top_has_remaining(f, n);
    let g = step_top(f);
    assert forall|i: int| 0 <= i < g.len() implies 0 <= (#[trigger] g[i]).length
        <= g[i].capacity by {
        if i < g.len() - 1 {
            assert(g[i] == f[i]);
        }
    }
    lemma_rem_sum_update_last(f, g.last());
    lemma_propagated(g);
}

/// Splices a procedure's body, reversed, onto the stream's end.
fn splice<'a>(stream: &mut Vec<&'a Command>, body: &'a Vec<Command>)
    requires
        cmds_wf(body@),
        forall|i: int| 0 <= i < old(stream)@.len() ==> cmd_wf(*(#[trigger] old(stream)@[i])),
    ensures
        stream_cmds(final(stream)@) == stream_cmds(old(stream)@) + cmds_view(body@).reverse(),
        forall|i: int| 0 <= i < final(stream)@.len() ==> cmd_wf(*(#[trigger] final(stream)@[i])),
{
    let ghost bv = cmds_view(body@);
    proof {
        lemma_cmds_view(body@);
    }
    let n = body.len();
    let mut j: usize = n;
    proof {
        assert(bv.subrange(n as int, n as int).reverse() =~= Seq::<CmdV>::empty());
        assert(stream_cmds(stream@) =~= stream_cmds(old(stream)@) + bv.subrange(
            n as int,
            n as int,
        ).reverse());
    }
    while j > 0
        invariant
            j <= n,
            n == body@.len(),
            bv == cmds_view(body@),
            bv.len() == n,
            cmds_wf(body@),
            forall|i: int| 0 <= i < bv.len() ==> bv[i] == cmd_view(#[trigger] body@[i]),
            stream_cmds(stream@) == stream_cmds(old(stream)@) + bv.subrange(
                j as int,
                n as int,
            ).reverse(),
            forall|i: int| 0 <= i < stream@.len() ==> cmd_wf(*(#[trigger] stream@[i])),
        decreases j,
    {
        let ghost pre = stream@;
        stream.push(&body[j - 1]);
        proof {
            assert(bv.subrange(j - 1, n as int).reverse() =~= bv.subrange(
                j as int,
                n as int,
            ).reverse().push(bv[j - 1]));
            assert(stream_cmds(stream@) =~= stream_cmds(pre).push(cmd_view(body@[j - 1])));
            assert(stream_cmds(stream@) =~= stream_cmds(old(stream)@) + bv.subrange(
                j - 1,
                n as int,
            ).reverse());
        }
        j = j - 1;
    }
    proof {
        assert(bv.subrange(0, n as int) =~= bv);
    }
}

/// Applies one pure operation to the operand stack.
#[verifier::rlimit(80)]
fn apply_stack_op(stack: &mut Vec<Big>, op: BuiltInCommand)
    requires
        is_pure_op(op),
        forall|i: int| 0 <= i < old(stack)@.len() ==> (#[trigger] old(stack)@[i]).wf(),
    ensures
        stack_view(final(stack)@) == stack_op(op, stack_view(old(stack)@)),
        forall|i: int| 0 <= i < final(stack)@.len() ==> (#[trigger] final(stack)@[i]).wf(),
{
    let ghost s0 = stack_view(old(stack)@);
    let n = stack.len();
    match op {
        BuiltInCommand::Increment | BuiltInCommand::Decrement => {
            if n >= 1 {
                let v = stack.pop().unwrap();
                let one = Big::from_u32(1);
                let r = match op {
                    BuiltInCommand::Increment => big_add(&v, &one),
                    _ => big_sub(&v, &one),
                };
                stack.push(r);
                proof {
                    assert(stack_view(stack@) =~= stack_op(op, s0));
                }
            } else {
                proof {
                    assert(stack_view(stack@) =~= stack_op(op, s0));
                }
            }
        },
        BuiltInCommand::Sum
        | BuiltInCommand::Difference
        | BuiltInCommand::Product
        | BuiltInCommand::Equality
        | BuiltInCommand::Inequality
        | BuiltInCommand::LessThan
        | BuiltInCommand::GreaterThan
        | BuiltInCommand::LessEqual
        | BuiltInCommand::GreaterEqual => {
            if n >= 2 {
                let b = stack.pop().unwrap();
                let a = stack.pop().unwrap();
                let r = match op {
                    BuiltInCommand::Sum => big_add(&a, &b),
                    BuiltInCommand::Difference => big_sub(&a, &b),
                    BuiltInCommand::Product => big_mul(&a, &b),
                    BuiltInCommand::Equality => Big::from_u32(
                        if big_eq(&a, &b) {
                            1
                        } else {
                            0
                        },
                    ),
                    BuiltInCommand::Inequality => Big::from_u32(
                        if big_eq(&a, &b) {
                            0
                        } else {
                            1
                        },
                    ),
                    BuiltInCommand::LessThan => Big::from_u32(
                        if big_lt(&a, &b) {
                            1
                        } else {
                            0
                        },
                    ),
                    BuiltInCommand::GreaterThan => Big::from_u32(
                        if big_lt(&b, &a) {
                            1
                        } else {
                            0
                        },
                    ),
                    BuiltInCommand::LessEqual => Big::from_u32(
                        if big_lt(&b, &a) {
                            0
                        } else {
                            1
                        },
                    ),
                    _ => Big::from_u32(
                        if big_lt(&a, &b) {
                            0
                        } else {
                            1
                        },
                    ),
                };
                stack.push(r);
                proof {
                    assert(a@ == s0[s0.len() - 2] && b@ == s0[s0.len() - 1]);
                    assert(stack@.subrange(0, stack@.len() - 1) =~= old(stack)@.subrange(
                        0,
                        old(stack)@.len() - 2,
                    ));
                    assert(stack_view(stack@) =~= stack_op(op, s0));
                }
            } else {
                proof {
                    assert(stack_view(stack@) =~= stack_op(op, s0));
                }
            }
        },
        BuiltInCommand::Drop => {
            if n >= 1 {
                stack.pop();
            }
            proof {
                assert(stack_view(stack@) =~= stack_op(op, s0));
            }
        },
        BuiltInCommand::Duplicate => {
            if n >= 1 {
                let v = stack[n - 1].duplicate();
                stack.push(v);
            } else {
                stack.push(Big::zero());
            }
            proof {
                assert(stack_view(stack@) =~= stack_op(op, s0));
            }
        },
        BuiltInCommand::Swap => {
            if n >= 2 {
                let b = stack.pop().unwrap();
                let a = stack.pop().unwrap();
                stack.push(b);
                stack.push(a);
            }
            proof {
                assert(stack_view(stack@) =~= stack_op(op, s0));
            }
        },
        BuiltInCommand::Over => {
            if n >= 3 {
                let v = stack[n - 2].duplicate();
                stack.push(v);
            } else {
                stack.push(Big::zero());
            }
            proof {
                assert(stack_view(stack@) =~= stack_op(op, s0));
            }
        },
        BuiltInCommand::Rotate => {
            if n >= 3 {
                let c = stack.pop().unwrap();
                let b = stack.pop().unwrap();
                let a = stack.pop().unwrap();
                stack.push(b);
                stack.push(c);
                stack.push(a);
                proof {
                    assert(stack_view(stack@) =~= stack_op(op, s0));
                }
            } else {
                proof {
                    assert(stack_view(stack@) =~= stack_op(op, s0));
                }
            }
        },
        _ => {
            proof {
                assert(stack_view(stack@) =~= stack_op(op, s0));
            }
        },
    }
}

/// The machine: the program being run, the operand stack, the pending
/// instruction stream (its end is the next instruction), and the
/// diagnostic call stack.
pub struct Machine<'a> {
    program: &'a Program,
    stack: Vec<Big>,
    stream: Vec<&'a Command>,
    calls: CallStack,
    mode: Mode,
}

impl<'a> View for Machine<'a> {
    type V = MachineV;

    closed spec fn view(&self) -> MachineV {
        MachineV {
            stack: stack_view(self.stack@),
            stream: stream_cmds(self.stream@),
            frames: self.calls@,
            mode: self.mode,
        }
    }
}

impl<'a> Machine<'a> {
    /// The program this machine runs.
    pub closed spec fn prog_view(&self) -> Map<Seq<u8>, Seq<CmdV>> {
        self.program@
    }

    /// The machine's internal soundness: every stack value and pending
    /// command is well formed, and the diagnostic stack's remaining counts
    /// add up to exactly the pending instructions.
    pub closed spec fn inv(&self) -> bool {
        &&& self.program.wf()
        &&& forall|i: int| 0 <= i < self.stack@.len() ==> (#[trigger] self.stack@[i]).wf()
        &&& forall|i: int| 0 <= i < self.stream@.len() ==> cmd_wf(*(#[trigger] self.stream@[i]))
        &&& frames_wf(self.calls@)
        &&& self.calls@.len() >= 1
        &&& (!(self.mode is Stopped) ==> rem_sum(self.calls@) == self.stream@.len())
        &&& (!(self.mode is Stopped) ==> (self.calls@.len() > 1 ==> self.calls@.last().length
            >= 1))
    }

    /// Readies a machine for a program's `main` procedure: the whole of
    /// `main`, reversed, is the initial stream. A program without `main`
    /// gives no machine: the run is a silent no-op.
    pub fn new(program: &'a Program) -> (r: Option<Machine<'a>>)
        requires
            program.wf(),
        ensures
            r is Some <==> program@.contains_key(encode_utf8("main"@)),
            r is Some ==> r->0.inv() && r->0.prog_view() == program@,
            r is Some ==> r->0@ == (MachineV {
                stack: Seq::<int>::empty(),
                stream: program@[encode_utf8("main"@)].reverse(),
                frames: seq![
                    FrameV {
                        name: encode_utf8("main"@),
                        length: program@[encode_utf8("main"@)].len() as int,
                        capacity: program@[encode_utf8("main"@)].len() as int,
                    },
                ],
                mode: Mode::Ready,
            }),
    {
        let entry = "main".as_bytes();
        match program.lookup(entry) {
            None => None,
            Some(body) => {
                let mut stream: Vec<&Command> = Vec::new();
                proof {
                    assert(stream_cmds(stream@) =~= Seq::<CmdV>::empty());
                }
                splice(&mut stream, body);
                let mut calls = CallStack::new();
                calls.push(crate::command::slice_to_vec_bytes(entry), body.len());
                let m = Machine { program, stack: Vec::new(), stream, calls, mode: Mode::Ready };
                proof {
                    let bv = cmds_view(body@);
                    lemma_cmds_view(body@);
                    assert(stream_cmds(m.stream@) =~= bv.reverse());
                    assert(m.calls@.len() == 1);
                    assert(m.calls@.subrange(0, 0) =~= Seq::<FrameV>::empty());
                    assert(rem_sum(m.calls@.subrange(0, 0)) == 0);
                    assert(rem_sum(m.calls@) == body@.len());
                    assert(stack_view(m.stack@) =~= Seq::<int>::empty());
                    assert(m@ =~= (MachineV {
                        stack: Seq::<int>::empty(),
                        stream: program@[encode_utf8("main"@)].reverse(),
                        frames: seq![
                            FrameV {
                                name: encode_utf8("main"@),
                                length: program@[encode_utf8("main"@)].len() as int,
                                capacity: program@[encode_utf8("main"@)].len() as int,
                            },
                        ],
                        mode: Mode::Ready,
                    }));
                }
                Some(m)
            },
        }
    }

    /// Pushes an integer instruction's value; the instruction has already
    /// been taken off the stream.
    fn run_int(&mut self, b: &Big, Ghost(m0): Ghost<MachineV>, Ghost(n0): Ghost<int>) -> (e:
        Effect)
        requires
            old(self).program.wf(),
            forall|i: int| 0 <= i < old(self).stack@.len() ==> (#[trigger] old(self).stack@[i]).wf(),
            forall|i: int|
                0 <= i < old(self).stream@.len() ==> cmd_wf(*(#[trigger] old(self).stream@[i])),
            frames_wf(old(self).calls@),
            old(self).calls@.len() >= 1,
            old(self).calls@ == m0.frames,
            rem_sum(old(self).calls@) == n0,
            n0 >= 1,
            old(self).calls@.len() > 1 ==> old(self).calls@.last().length >= 1,
            m0.stream.len() == n0,
            stream_cmds(old(self).stream@) == m0.stream.drop_last(),
            stack_view(old(self).stack@) == m0.stack,
            old(self).mode == m0.mode,
            m0.mode is Ready,
            m0.stream.last() == CmdV::Int(b@),
            b.wf(),
        ensures
            final(self).inv(),
            final(self).program == old(self).program,
            final(self)@ == spec_step(old(self).program@, m0).0,
            eff_view(e) == spec_step(old(self).program@, m0).1,
    {
        let ghost prog = self.program@;
        proof {
            lemma_step_frames(m0.frames, n0);
            assert(stream_cmds(self.stream@).len() == self.stream@.len());
        }
        let v = b.duplicate();
        self.stack.push(v);
        self.calls.step();
        self.calls.propagate();
        proof {
            assert(self.calls@ == propagated(step_top(m0.frames)));
            assert(stack_view(self.stack@) =~= m0.stack.push(b@));
            assert forall|i: int|
                0 <= i < self.stack@.len() implies (#[trigger] self.stack@[i]).wf() by {
                if i < self.stack@.len() - 1 {
                    assert(self.stack@[i] == old(self).stack@[i]);
                }
            }
            assert(self@ =~= spec_step(prog, m0).0);
        }
        Effect::Proceed
    }

    /// Resolves and splices a procedure reference; the reference has
    /// already been taken off the stream.
    #[verifier::rlimit(60)]
    fn run_call(&mut self, name: &[u8], Ghost(m0): Ghost<MachineV>, Ghost(n0): Ghost<int>) -> (e:
        Effect)
        requires
            old(self).program.wf(),
            forall|i: int| 0 <= i < old(self).stack@.len() ==> (#[trigger] old(self).stack@[i]).wf(),
            forall|i: int|
                0 <= i < old(self).stream@.len() ==> cmd_wf(*(#[trigger] old(self).stream@[i])),
            frames_wf(old(self).calls@),
            old(self).calls@.len() >= 1,
            old(self).calls@ == m0.frames,
            rem_sum(old(self).calls@) == n0,
            n0 >= 1,
            old(self).calls@.len() > 1 ==> old(self).calls@.last().length >= 1,
            m0.stream.len() == n0,
            stream_cmds(old(self).stream@) == m0.stream.drop_last(),
            stack_view(old(self).stack@) == m0.stack,
            old(self).mode == m0.mode,
            m0.mode is Ready,
            m0.stream.last() == CmdV::Call(name@),
        ensures
            final(self).inv(),
            final(self).program == old(self).program,
            final(self)@ == spec_step(old(self).program@, m0).0,
            eff_view(e) == spec_step(old(self).program@, m0).1,
    {
        let ghost prog = self.program@;
        proof {
            lemma_step_frames(m0.frames, n0);
            assert(stream_cmds(self.stream@).len() == self.stream@.len());
        }
        let prog_ref = self.program;
        match prog_ref.lookup(name) {
            Some(body) => {
                if body.len() > 0 {
                    self.calls.step();
                    self.calls.push(crate::command::slice_to_vec_bytes(name), body.len());
                    proof {
                        let frame = FrameV {
                            name: name@,
                            length: body@.len() as int,
                            capacity: body@.len() as int,
                        };
                        assert(self.calls@ == step_top(m0.frames).push(frame));
                        lemma_rem_sum_push(step_top(m0.frames), frame);
                        assert forall|i: int|
                            0 <= i < self.calls@.len() implies 0 <= (
                        #[trigger] self.calls@[i]).length <= self.calls@[i].capacity by {
                            if i < self.calls@.len() - 1 {
                                assert(self.calls@[i] == step_top(m0.frames)[i]);
                            }
                        }
                        lemma_propagated(self.calls@);
                        assert(propagated(self.calls@) =~= self.calls@);
                    }
                    splice(&mut self.stream, body);
                    self.calls.propagate();
                    proof {
                        let frame = FrameV {
                            name: name@,
                            length: body@.len() as int,
                            capacity: body@.len() as int,
                        };
                        lemma_cmds_view(body@);
                        assert(self.calls@ == step_top(m0.frames).push(frame));
                        assert(stream_cmds(self.stream@) =~= m0.stream.drop_last() + cmds_view(
                            body@,
                        ).reverse());
                        assert(cmds_view(body@).reverse().len() == body@.len());
                        assert(self@ =~= spec_step(prog, m0).0);
                    }
                } else {
                    self.calls.step();
                    self.calls.propagate();
                    proof {
                        assert(cmds_view(body@).len() == 0);
                        assert(self@ =~= spec_step(prog, m0).0);
                    }
                }
                Effect::Proceed
            },
            None => {
                self.mode = Mode::Stopped;
                let mut msg: Vec<u8> = Vec::new();
                push_bytes(&mut msg, "ERROR: Unresolved Symbol: \"".as_bytes());
                push_bytes(&mut msg, name);
                push_bytes(&mut msg, "\"\n".as_bytes());
                let trace = self.calls.dump();
                push_bytes(&mut msg, trace.as_slice());
                proof {
                    assert(msg@ =~= unresolved_msg(name@, m0.frames));
                    assert(self@ =~= spec_step(prog, m0).0);
                }
                Effect::Abort(
                    Failure {
                        kind: FailKind::Unresolved(crate::command::slice_to_vec_bytes(name)),
                        message: msg,
                    },
                )
            },
        }
    }

    /// Selects and re-queues a branch option; the branch instruction has
    /// already been taken off the stream.
    #[verifier::rlimit(60)]
    fn run_branch(
        &mut self,
        opts: &'a Vec<Command>,
        Ghost(m0): Ghost<MachineV>,
        Ghost(n0): Ghost<int>,
    ) -> (e: Effect)
        requires
            old(self).program.wf(),
            forall|i: int| 0 <= i < old(self).stack@.len() ==> (#[trigger] old(self).stack@[i]).wf(),
            forall|i: int|
                0 <= i < old(self).stream@.len() ==> cmd_wf(*(#[trigger] old(self).stream@[i])),
            frames_wf(old(self).calls@),
            old(self).calls@.len() >= 1,
            old(self).calls@ == m0.frames,
            rem_sum(old(self).calls@) == n0,
            n0 >= 1,
            old(self).calls@.len() > 1 ==> old(self).calls@.last().length >= 1,
            m0.stream.len() == n0,
            stream_cmds(old(self).stream@) == m0.stream.drop_last(),
            stack_view(old(self).stack@) == m0.stack,
            old(self).mode == m0.mode,
            m0.mode is Ready,
            m0.stream.last() == CmdV::Branch(cmds_view(opts@)),
            opts@.len() >= 1,
            forall|i: int| 0 <= i < opts@.len() ==> cmd_wf(#[trigger] opts@[i]),
        ensures
            final(self).inv(),
            final(self).program == old(self).program,
            final(self)@ == spec_step(old(self).program@, m0).0,
            eff_view(e) == spec_step(old(self).program@, m0).1,
    {
        let ghost prog = self.program@;
        proof {
            lemma_step_frames(m0.frames, n0);
            assert(stream_cmds(self.stream@).len() == self.stream@.len());
            lemma_cmds_view(opts@);
        }
        if self.stack.len() == 0 {
            self.calls.step();
            self.calls.propagate();
            proof {
                assert(self@ =~= spec_step(prog, m0).0);
            }
            Effect::Proceed
        } else {
            let v = self.stack.pop().unwrap();
            let idx = v.clamp_index(opts.len());
            self.stream.push(&opts[idx]);
            self.calls.step();
            self.calls.unstep();
            self.calls.propagate();
            proof {
                assert(step_top(m0.frames).update(
                    m0.frames.len() - 1,
                    FrameV {
                        name: m0.frames.last().name,
                        length: m0.frames.last().length,
                        capacity: m0.frames.last().capacity,
                    },
                ) =~= m0.frames);
                assert(self.calls@ == propagated(m0.frames));
                lemma_propagated(m0.frames);
                assert(stack_view(self.stack@) =~= m0.stack.drop_last());
                assert forall|i: int|
                    0 <= i < self.stack@.len() implies (#[trigger] self.stack@[i]).wf() by {
                    assert(self.stack@[i] == old(self).stack@[i]);
                }
                assert(stream_cmds(self.stream@) =~= m0.stream.drop_last().push(
                    cmd_view(opts@[idx as int]),
                ));
                assert forall|i: int|
                    0 <= i < self.stream@.len() implies cmd_wf(*(#[trigger] self.stream@[i])) by {
                    if i < self.stream@.len() - 1 {
                        assert(self.stream@[i] == old(self).stream@[i]);
                    }
                }
                assert(self@ =~= spec_step(prog, m0).0);
            }
            Effect::Proceed
        }
    }

    /// Performs one built-in operation; the operation's instruction has
    /// already been taken off the stream.
    #[verifier::rlimit(100)]
    fn run_op(&mut self, op: BuiltInCommand, Ghost(m0): Ghost<MachineV>, Ghost(n0): Ghost<int>) -> (e:
        Effect)
        requires
            old(self).program.wf(),
            forall|i: int| 0 <= i < old(self).stack@.len() ==> (#[trigger] old(self).stack@[i]).wf(),
            forall|i: int|
                0 <= i < old(self).stream@.len() ==> cmd_wf(*(#[trigger] old(self).stream@[i])),
            frames_wf(old(self).calls@),
            old(self).calls@.len() >= 1,
            old(self).calls@ == m0.frames,
            rem_sum(old(self).calls@) == n0,
            n0 >= 1,
            old(self).calls@.len() > 1 ==> old(self).calls@.last().length >= 1,
            m0.stream.len() == n0,
            stream_cmds(old(self).stream@) == m0.stream.drop_last(),
            stack_view(old(self).stack@) == m0.stack,
            old(self).mode == m0.mode,
            m0.mode is Ready,
        ensures
            final(self).inv(),
            final(self).program == old(self).program,
            final(self)@ == spec_step_op(
                op,
                m0,
                m0.stream.drop_last(),
                propagated(step_top(m0.frames)),
            ).0,
            eff_view(e) == spec_step_op(
                op,
                m0,
                m0.stream.drop_last(),
                propagated(step_top(m0.frames)),
            ).1,
    {
        proof {
            lemma_step_frames(m0.frames, n0);
        }
        let ghost rest = m0.stream.drop_last();
        let ghost stepped = propagated(step_top(m0.frames));
        proof {
            assert(stream_cmds(self.stream@).len() == self.stream@.len());
            assert(self.stream@.len() == n0 - 1);
        }
        match op {
            BuiltInCommand::Put => {
                if self.stack.len() >= 1 {
                    let v = self.stack.pop().unwrap();
                    let s = big_to_dec_string(&v);
                    self.calls.step();
                    self.calls.propagate();
                    proof {
                        assert(stack_view(self.stack@) =~= m0.stack.drop_last());
                        assert forall|i: int|
                            0 <= i < self.stack@.len() implies (#[trigger] self.stack@[i]).wf() by {
                            assert(self.stack@[i] == old(self).stack@[i]);
                        }
                        assert(self@ =~= spec_step_op(op, m0, rest, stepped).0);
                    }
                    Effect::Emit(s)
                } else {
                    self.calls.step();
                    self.calls.propagate();
                    proof {
                        assert(self@ =~= spec_step_op(op, m0, rest, stepped).0);
                    }
                    Effect::Proceed
                }
            },
            BuiltInCommand::PutLine => {
                if self.stack.len() >= 1 {
                    let v = self.stack.pop().unwrap();
                    let s = big_to_dec_string(&v);
                    let out = s.concat("\n");
                    self.calls.step();
                    self.calls.propagate();
                    proof {
                        assert(stack_view(self.stack@) =~= m0.stack.drop_last());
                        assert forall|i: int|
                            0 <= i < self.stack@.len() implies (#[trigger] self.stack@[i]).wf() by {
                            assert(self.stack@[i] == old(self).stack@[i]);
                        }
                        assert(self@ =~= spec_step_op(op, m0, rest, stepped).0);
                    }
                    Effect::Emit(out)
                } else {
                    self.calls.step();
                    self.calls.propagate();
                    proof {
                        assert(self@ =~= spec_step_op(op, m0, rest, stepped).0);
                    }
                    Effect::Emit("\n".to_owned())
                }
            },
            BuiltInCommand::Print | BuiltInCommand::PrintLine => {
                if self.stack.len() >= 1 {
                    let last_idx = self.stack.len() - 1;
                    let bytes = self.stack[last_idx].magnitude_bytes_be();
                    proof {
                        assert(self.stack@[last_idx as int]@ == m0.stack.last());
                    }
                    match bytes_to_string(bytes) {
                        Some(s) => {
                            self.stack.pop();
                            self.calls.step();
                            self.calls.propagate();
                            proof {
                                assert(stack_view(self.stack@) =~= m0.stack.drop_last());
                                assert forall|i: int|
                                    0 <= i < self.stack@.len() implies (
                                #[trigger] self.stack@[i]).wf() by {
                                    assert(self.stack@[i] == old(self).stack@[i]);
                                }
                                assert(self@ =~= spec_step_op(op, m0, rest, stepped).0);
                            }
                            match op {
                                BuiltInCommand::Print => Effect::Emit(s),
                                _ => Effect::Emit(s.concat("\n")),
                            }
                        },
                        None => {
                            self.mode = Mode::Stopped;
                            let mut msg: Vec<u8> = Vec::new();
                            push_bytes(&mut msg, "ERROR: Invalid UTF-8 Text\n".as_bytes());
                            let trace = self.calls.dump();
                            push_bytes(&mut msg, trace.as_slice());
                            proof {
                                assert(msg@ =~= bad_text_msg(m0.frames));
                                assert(self@ =~= spec_step_op(op, m0, rest, stepped).0);
                            }
                            Effect::Abort(
                                Failure { kind: FailKind::InvalidText, message: msg },
                            )
                        },
                    }
                } else {
                    self.calls.step();
                    self.calls.propagate();
                    proof {
                        assert(self@ =~= spec_step_op(op, m0, rest, stepped).0);
                    }
                    Effect::Proceed
                }
            },
            BuiltInCommand::ReadLine => {
                self.mode = Mode::WantLine;
                self.calls.step();
                self.calls.propagate();
                proof {
                    assert(self@ =~= spec_step_op(op, m0, rest, stepped).0);
                }
                Effect::NeedLine
            },
            BuiltInCommand::Exit => {
                self.mode = Mode::Stopped;
                if self.stack.len() >= 1 {
                    let v = self.stack.pop().unwrap();
                    let code: i32 = match v.exit_code() {
                        Some(c) => c,
                        None => 1,
                    };
                    self.calls.step();
                    self.calls.propagate();
                    proof {
                        assert(stack_view(self.stack@) =~= m0.stack.drop_last());
                        assert forall|i: int|
                            0 <= i < self.stack@.len() implies (#[trigger] self.stack@[i]).wf() by {
                            assert(self.stack@[i] == old(self).stack@[i]);
                        }
                        assert(self@ =~= spec_step_op(op, m0, rest, stepped).0);
                    }
                    Effect::Exit(code)
                } else {
                    self.calls.step();
                    self.calls.propagate();
                    proof {
                        assert(self@ =~= spec_step_op(op, m0, rest, stepped).0);
                    }
                    Effect::Exit(0)
                }
            },
            BuiltInCommand::Quotient | BuiltInCommand::Modulo => {
                if self.stack.len() < 2 {
                    self.calls.step();
                    self.calls.propagate();
                    proof {
                        assert(self@ =~= spec_step_op(op, m0, rest, stepped).0);
                    }
                    Effect::Proceed
                } else {
                    let last_idx = self.stack.len() - 1;
                    let divisor_zero = self.stack[last_idx].is_zero();
                    proof {
                        assert(self.stack@[last_idx as int]@ == m0.stack.last());
                    }
                    if divisor_zero {
                        self.mode = Mode::Stopped;
                        let mut msg: Vec<u8> = Vec::new();
                        push_bytes(&mut msg, "ERROR: Division By Zero\n".as_bytes());
                        let trace = self.calls.dump();
                        push_bytes(&mut msg, trace.as_slice());
                        proof {
                            assert(msg@ =~= div_zero_msg(m0.frames));
                            assert(self@ =~= spec_step_op(op, m0, rest, stepped).0);
                        }
                        Effect::Abort(
                            Failure { kind: FailKind::DivideByZero, message: msg },
                        )
                    } else {
                        let b = self.stack.pop().unwrap();
                        let a = self.stack.pop().unwrap();
                        let r = match op {
                            BuiltInCommand::Quotient => big_div(&a, &b),
                            _ => big_rem(&a, &b),
                        };
                        self.stack.push(r);
                        self.calls.step();
                        self.calls.propagate();
                        proof {
                            assert(a@ == m0.stack[m0.stack.len() - 2]);
                            assert(stack_view(self.stack@) =~= m0.stack.subrange(
                                0,
                                m0.stack.len() - 2,
                            ).push(r@));
                            assert forall|i: int|
                                0 <= i < self.stack@.len() implies (
                            #[trigger] self.stack@[i]).wf() by {
                                if i < self.stack@.len() - 1 {
                                    assert(self.stack@[i] == old(self).stack@[i]);
                                }
                            }
                            assert(self@ =~= spec_step_op(op, m0, rest, stepped).0);
                        }
                        Effect::Proceed
                    }
                }
            },
            BuiltInCommand::CmdArg => {
                if self.stack.len() >= 1 {
                    let v = self.stack.pop().unwrap();
                    match v.to_usize() {
                        Some(i) => {
                            self.mode = Mode::WantArg;
                            self.calls.step();
                            self.calls.propagate();
                            proof {
                                assert(stack_view(self.stack@) =~= m0.stack.drop_last());
                                assert forall|i: int|
                                    0 <= i < self.stack@.len() implies (
                                #[trigger] self.stack@[i]).wf() by {
                                    assert(self.stack@[i] == old(self).stack@[i]);
                                }
                                assert(self@ =~= spec_step_op(op, m0, rest, stepped).0);
                            }
                            Effect::NeedArg(i)
                        },
                        None => {
                            self.stack.push(Big::zero());
                            self.calls.step();
                            self.calls.propagate();
                            proof {
                                assert(stack_view(self.stack@) =~= m0.stack.drop_last().push(0));
                                assert forall|i: int|
                                    0 <= i < self.stack@.len() implies (
                                #[trigger] self.stack@[i]).wf() by {
                                    if i < self.stack@.len() - 1 {
                                        assert(self.stack@[i] == old(self).stack@[i]);
                                    }
                                }
                                assert(self@ =~= spec_step_op(op, m0, rest, stepped).0);
                            }
                            Effect::Proceed
                        },
                    }
                } else {
                    self.calls.step();
                    self.calls.propagate();
                    proof {
                        assert(self@ =~= spec_step_op(op, m0, rest, stepped).0);
                    }
                    Effect::Proceed
                }
            },
            _ => {
                proof {
                    assert(is_pure_op(op));
                }
                apply_stack_op(&mut self.stack, op);
                self.calls.step();
                self.calls.propagate();
                proof {
                    assert(self@ =~= spec_step_op(op, m0, rest, stepped).0);
                }
                Effect::Proceed
            },
        }
    }

    /// Takes one instruction off the stream and performs it, reporting what
    /// the caller must do. The result and the new state are exactly
    /// `spec_step` of the old state.
    #[verifier::rlimit(100)]
    pub fn step(&mut self) -> (e: Effect)
        requires
            old(self).inv(),
            old(self)@.mode is Ready,
        ensures
            final(self).inv(),
            final(self).prog_view() == old(self).prog_view(),
            final(self)@ == spec_step(old(self).prog_view(), old(self)@).0,
            eff_view(e) == spec_step(old(self).prog_view(), old(self)@).1,
    {
        let ghost m0 = self@;
        let ghost prog = self.prog_view();
        if self.stream.len() == 0 {
            proof {
                assert(self@ =~= spec_step(prog, m0).0);
            }
            return Effect::Done;
        }
        let ghost n0 = m0.stream.len() as int;
        let cmd: &Command = self.stream.pop().unwrap();
        proof {
            assert(m0.stream.drop_last() =~= stream_cmds(self.stream@));
            assert(m0.stream.last() == cmd_view(*cmd));
            assert(cmd_wf(*cmd));
            assert(old(self).stream@.len() == n0);
            assert(self.stream@.len() == n0 - 1);
            lemma_step_frames(m0.frames, n0);
            assert forall|i: int|
                0 <= i < self.stream@.len() implies cmd_wf(*(#[trigger] self.stream@[i])) by {
                assert(self.stream@[i] == old(self).stream@[i]);
            }
        }
        match cmd {
            Command::Integer(b) => self.run_int(b, Ghost(m0), Ghost(n0)),
            Command::BuiltIn(op) => self.run_op(*op, Ghost(m0), Ghost(n0)),
            Command::UserDef(name) => self.run_call(name.as_slice(), Ghost(m0), Ghost(n0)),
            Command::Branch(opts) => self.run_branch(opts, Ghost(m0), Ghost(n0)),
        }
    }
}

/// A console line's payload: the line's UTF-8 bytes with one trailing
/// newline, then one trailing carriage return, stripped.
pub open spec fn strip_eol(b: Seq<u8>) -> Seq<u8> {
    let b1 = if b.len() > 0 && b.last() == 10 {
        b.drop_last()
    } else {
        b
    };
    if b1.len() > 0 && b1.last() == 13 {
        b1.drop_last()
    } else {
        b1
    }
}

impl<'a> Machine<'a> {
    /// Hands the machine the line that `NeedLine` asked for: its value, the
    /// big-endian reading of the stripped line's bytes, is pushed.
    pub fn provide_line(&mut self, line: &str)
        requires
            old(self).inv(),
            old(self)@.mode is WantLine,
        ensures
            final(self).inv(),
            final(self).prog_view() == old(self).prog_view(),
            final(self)@ == (MachineV {
                stack: old(self)@.stack.push(
                    be_value(strip_eol(encode_utf8(line@))) as int,
                ),
                stream: old(self)@.stream,
                frames: old(self)@.frames,
                mode: Mode::Ready,
            }),
    {
        let bytes = line.as_bytes();
        let mut end = bytes.len();
        if end > 0 && bytes[end - 1] == 10 {
            end = end - 1;
        }
        if end > 0 && bytes[end - 1] == 13 {
            end = end - 1;
        }
        let payload = &bytes[0..end];
        proof {
            assert(payload@ =~= strip_eol(encode_utf8(line@)));
        }
        let v = Big::from_bytes_be(payload);
        self.stack.push(v);
        self.mode = Mode::Ready;
        proof {
            assert(stack_view(self.stack@) =~= old(self)@.stack.push(
                be_value(strip_eol(encode_utf8(line@))) as int,
            ));
            assert forall|i: int|
                0 <= i < self.stack@.len() implies (#[trigger] self.stack@[i]).wf() by {
                if i < self.stack@.len() - 1 {
                    assert(self.stack@[i] == old(self).stack@[i]);
                }
            }
            assert(self@ =~= (MachineV {
                stack: old(self)@.stack.push(be_value(strip_eol(encode_utf8(line@))) as int),
                stream: old(self)@.stream,
                frames: old(self)@.frames,
                mode: Mode::Ready,
            }));
        }
    }

    /// Hands the machine the command-line argument that `NeedArg` asked
    /// for: the argument's big-endian byte value, or zero when there is no
    /// such argument, is pushed.
    pub fn provide_arg(&mut self, arg: Option<&str>)
        requires
            old(self).inv(),
            old(self)@.mode is WantArg,
        ensures
            final(self).inv(),
            final(self).prog_view() == old(self).prog_view(),
            final(self)@ == (MachineV {
                stack: old(self)@.stack.push(
                    match arg {
                        Option::Some(s) => be_value(encode_utf8(s@)) as int,
                        Option::None => 0int,
                    },
                ),
                stream: old(self)@.stream,
                frames: old(self)@.frames,
                mode: Mode::Ready,
            }),
    {
        let v = match arg {
            Some(s) => Big::from_bytes_be(s.as_bytes()),
            None => Big::zero(),
        };
        self.stack.push(v);
        self.mode = Mode::Ready;
        proof {
            assert forall|i: int|
                0 <= i < self.stack@.len() implies (#[trigger] self.stack@[i]).wf() by {
                if i < self.stack@.len() - 1 {
                    assert(self.stack@[i] == old(self).stack@[i]);
                }
            }
            assert(self@ =~= (MachineV {
                stack: old(self)@.stack.push(
                    match arg {
                        Option::Some(s) => be_value(encode_utf8(s@)) as int,
                        Option::None => 0int,
                    },
                ),
                stream: old(self)@.stream,
                frames: old(self)@.frames,
                mode: Mode::Ready,
            }));
        }
    }
}

} // verus!
