//! Laws of the engine, stated once and proved for every state: what `dup`
//! and `swp` leave behind, how a branch clamps its index, what an
//! unresolved reference reports, and that operations short of operands
//! never fail.

use vstd::prelude::*;
use vstd::utf8::encode_utf8;
use crate::bignum::clamped;
use crate::command::{BuiltInCommand, CmdV};
use crate::engine::{EffV, FailV, MachineV, Mode, is_pure_op, spec_step, stack_op, unresolved_msg};

verus! {

/// Executing an integer literal and then `dup` leaves two equal copies of
/// the literal's value on the stack, whatever else the machine holds.
pub proof fn law_literal_dup(
    prog: Map<Seq<u8>, Seq<CmdV>>,
    m: MachineV,
    a: int,
)
    requires
        m.mode is Ready,
        m.stream.len() >= 2,
        m.stream.last() == CmdV::Int(a),
        m.stream[m.stream.len() - 2] == CmdV::Op(BuiltInCommand::Duplicate),
    ensures
        ({
            let m1 = spec_step(prog, m).0;
            let m2 = spec_step(prog, m1).0;
            m2.stack == m.stack.push(a).push(a)
        }),
{
    let m1 = spec_step(prog, m).0;
    assert(m1.stream.last() == CmdV::Op(BuiltInCommand::Duplicate));
    assert(m1.stack == m.stack.push(a));
    let m2 = spec_step(prog, m1).0;
    assert(m2.stack == stack_op(BuiltInCommand::Duplicate, m.stack.push(a)));
    assert(m2.stack =~= m.stack.push(a).push(a));
}

/// `swp` on a stack ending in `a, b` leaves it ending in `b, a`.
pub proof fn law_swap(s: Seq<int>, a: int, b: int)
    ensures
        stack_op(BuiltInCommand::Swap, s.push(a).push(b)) == s.push(b).push(a),
{
    assert(stack_op(BuiltInCommand::Swap, s.push(a).push(b)) =~= s.push(b).push(a));
}

/// Branch index clamping: a negative value selects the first option, a
/// value past the end the last, and a value in range itself.
pub proof fn law_branch_clamp(n: int, v: int)
    requires
        n >= 1,
    ensures
        v < 0 ==> clamped(v, n) == 0,
        v >= n ==> clamped(v, n) == n - 1,
        0 <= v < n ==> clamped(v, n) == v,
{
}

/// A branch puts exactly the clamped option back on the stream and
/// consumes the selecting value.
pub proof fn law_branch_select(
    prog: Map<Seq<u8>, Seq<CmdV>>,
    m: MachineV,
    opts: Seq<CmdV>,
)
    requires
        m.mode is Ready,
        m.stream.len() >= 1,
        m.stream.last() == CmdV::Branch(opts),
        opts.len() >= 1,
        m.stack.len() >= 1,
    ensures
        ({
            let m2 = spec_step(prog, m).0;
            &&& m2.stream.len() == m.stream.len()
            &&& m2.stream.last() == opts[clamped(m.stack.last(), opts.len() as int)]
            &&& m2.stack == m.stack.drop_last()
        }),
{
}

/// An unresolved procedure reference reports a failure that names the
/// missing symbol: the message carries the name right after its fixed
/// heading, and the machine stops.
pub proof fn law_unresolved_reports(
    prog: Map<Seq<u8>, Seq<CmdV>>,
    m: MachineV,
    name: Seq<u8>,
)
    requires
        m.mode is Ready,
        m.stream.len() >= 1,
        m.stream.last() == CmdV::Call(name),
        !prog.contains_key(name),
    ensures
        spec_step(prog, m).1 == EffV::Abort(FailV::Unresolved(name), unresolved_msg(name, m.frames)),
        ({
            let heading = encode_utf8("ERROR: Unresolved Symbol: \""@);
            unresolved_msg(name, m.frames).subrange(
                heading.len() as int,
                heading.len() + name.len() as int,
            ) == name
        }),
        spec_step(prog, m).0.mode is Stopped,
{
    let heading = encode_utf8("ERROR: Unresolved Symbol: \""@);
    assert(unresolved_msg(name, m.frames).subrange(
        heading.len() as int,
        heading.len() + name.len() as int,
    ) =~= name);
}

/// How many operands each operation needs before it does anything. The
/// operations that handle an empty stack themselves need none.
pub open spec fn op_needs(op: BuiltInCommand) -> int {
    match op {
        BuiltInCommand::Increment => 1,
        BuiltInCommand::Decrement => 1,
        BuiltInCommand::Sum => 2,
        BuiltInCommand::Difference => 2,
        BuiltInCommand::Product => 2,
        BuiltInCommand::Quotient => 2,
        BuiltInCommand::Modulo => 2,
        BuiltInCommand::Equality => 2,
        BuiltInCommand::Inequality => 2,
        BuiltInCommand::LessThan => 2,
        BuiltInCommand::GreaterThan => 2,
        BuiltInCommand::LessEqual => 2,
        BuiltInCommand::GreaterEqual => 2,
        BuiltInCommand::Drop => 1,
        BuiltInCommand::Duplicate => 1,
        BuiltInCommand::Swap => 2,
        BuiltInCommand::Over => 3,
        BuiltInCommand::Rotate => 3,
        BuiltInCommand::Put => 1,
        BuiltInCommand::PutLine => 1,
        BuiltInCommand::Print => 1,
        BuiltInCommand::PrintLine => 1,
        BuiltInCommand::CmdArg => 1,
        _ => 0,
    }
}

/// An operation short of operands never fails and never ends the run: it
/// leaves the stack unchanged, except `dup` and `over`, which push a zero.
pub proof fn law_underflow(prog: Map<Seq<u8>, Seq<CmdV>>, m: MachineV, op: BuiltInCommand)
    requires
        m.mode is Ready,
        m.stream.len() >= 1,
        m.stream.last() == CmdV::Op(op),
        m.stack.len() < op_needs(op),
    ensures
        ({
            let (m2, e) = spec_step(prog, m);
            &&& (op is Duplicate || op is Over) ==> m2.stack == m.stack.push(0)
            &&& !(op is Duplicate || op is Over) ==> m2.stack == m.stack
            &&& !(e is Abort)
            &&& !(e is Exit)
        }),
{
    let (m2, e) = spec_step(prog, m);
    if is_pure_op(op) {
        assert(m2.stack == stack_op(op, m.stack));
        if op is Duplicate || op is Over {
            assert(stack_op(op, m.stack) == m.stack.push(0));
        } else {
            assert(stack_op(op, m.stack) == m.stack);
        }
    }
}

} // verus!
