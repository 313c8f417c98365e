//! The diagnostic call stack: pure bookkeeping that mirrors the engine's
//! call depth so failure traces can be rendered. It never takes part in
//! control flow.

use vstd::prelude::*;
use vstd::utf8::encode_utf8;
use crate::util::{dec_digits_bytes, usize_to_dec_bytes};

verus! {

/// One frame: the procedure's name, how many of its instructions remain
/// un-stepped, and how many it had at the start.
pub struct CallFrame {
    pub name: Vec<u8>,
    pub length: usize,
    pub capacity: usize,
}

/// The mathematical shape of a frame.
pub ghost struct FrameV {
    pub name: Seq<u8>,
    pub length: int,
    pub capacity: int,
}

impl View for CallFrame {
    type V = FrameV;

    open spec fn view(&self) -> FrameV {
        FrameV { name: self.name@, length: self.length as int, capacity: self.capacity as int }
    }
}

/// Tracks the state of procedure calls, bottom frame first.
pub struct CallStack {
    c_stack: Vec<CallFrame>,
}

impl View for CallStack {
    type V = Seq<FrameV>;

    closed spec fn view(&self) -> Seq<FrameV> {
        self.c_stack@.map_values(|f: CallFrame| f@)
    }
}

/// What `propagate` leaves: completed frames are popped off the top, but the
/// bottom frame always stays.
pub open spec fn propagated(s: Seq<FrameV>) -> Seq<FrameV>
    decreases s.len(),
{
    if s.len() > 1 && s.last().length < 1 {
        propagated(s.subrange(0, s.len() - 1))
    } else {
        s
    }
}

/// Total count of un-stepped instructions over all frames.
pub open spec fn rem_sum(s: Seq<FrameV>) -> int
    decreases s.len(),
{
    if s.len() == 0 {
        0
    } else {
        rem_sum(s.subrange(0, s.len() - 1)) + s.last().length
    }
}

/// Every frame holds at most as many remaining instructions as it started
/// with, and none counts negative.
pub open spec fn frames_wf(s: Seq<FrameV>) -> bool {
    forall|i: int|
        0 <= i < s.len() ==> 0 <= (#[trigger] s[i]).length <= s[i].capacity
}

/// Facts about `propagated` that its callers lean on.
pub proof fn lemma_propagated(s: Seq<FrameV>)
    ensures
        propagated(s).len() <= s.len(),
        s.len() >= 1 ==> propagated(s).len() >= 1,
        propagated(s) == s.subrange(0, propagated(s).len() as int),
        propagated(s).len() > 1 ==> propagated(s).last().length >= 1,
        s.len() >= 1 && s.last().length >= 1 ==> propagated(s) == s,
        frames_wf(s) ==> rem_sum(propagated(s)) == rem_sum(s),
        frames_wf(s) ==> frames_wf(propagated(s)),
    decreases s.len(),
{
    if s.len() > 1 && s.last().length < 1 {
        let pre = s.subrange(0, s.len() - 1);
        lemma_propagated(pre);
        assert(pre.subrange(0, propagated(pre).len() as int) =~= s.subrange(
            0,
            propagated(s).len() as int,
        ));
        if frames_wf(s) {
            assert(frames_wf(pre));
            assert(s.last().length == 0);
        }
    } else {
        assert(propagated(s) =~= s.subrange(0, s.len() as int));
    }
}

/// Adding a frame adds its remaining count to the total.
pub proof fn lemma_rem_sum_push(s: Seq<FrameV>, f: FrameV)
    ensures
        rem_sum(s.push(f)) == rem_sum(s) + f.length,
{
    assert(s.push(f).subrange(0, s.len() as int) =~= s);
    assert(s.push(f).last() == f);
}

/// Changing only the top frame's remaining count shifts the total by the
/// same amount.
pub proof fn lemma_rem_sum_update_last(s: Seq<FrameV>, f: FrameV)
    requires
        s.len() >= 1,
    ensures
        rem_sum(s.update(s.len() - 1, f)) == rem_sum(s) - s.last().length + f.length,
{
    let t = s.update(s.len() - 1, f);
    assert(t.subrange(0, t.len() - 1) =~= s.subrange(0, s.len() - 1));
    assert(t.last() == f);
}

/// Indentation of a trace line: two spaces for each level of depth.
pub open spec fn indent_bytes(d: nat) -> Seq<u8>
    decreases d,
{
    if d == 0 {
        Seq::empty()
    } else {
        indent_bytes((d - 1) as nat) + encode_utf8("  "@)
    }
}

/// One rendered trace line: indentation, the procedure's name, and the
/// index of its current instruction.
pub open spec fn frame_line(f: FrameV, depth: nat) -> Seq<u8> {
    indent_bytes(depth) + encode_utf8("in \"$"@) + f.name + encode_utf8("\", instruction "@)
        + dec_digits_bytes((f.capacity - f.length) as nat) + encode_utf8("\n"@)
}

/// The rendered trace: one line per frame, outermost first, each one level
/// deeper than the one above it.
pub open spec fn dump_bytes(s: Seq<FrameV>) -> Seq<u8>
    decreases s.len(),
{
    if s.len() == 0 {
        Seq::empty()
    } else {
        dump_bytes(s.subrange(0, s.len() - 1)) + frame_line(s.last(), s.len() as nat)
    }
}

/// Appends a byte slice to a buffer.
pub fn push_bytes(out: &mut Vec<u8>, s: &[u8])
    ensures
        final(out)@ == old(out)@ + s@,
{
    let mut i: usize = 0;
    while i < s.len()
        invariant
            i <= s@.len(),
            out@ == old(out)@ + s@.subrange(0, i as int),
        decreases s@.len() - i,
    {
        out.push(s[i]);
        proof {
            assert(old(out)@ + s@.subrange(0, i + 1 as int) =~= (old(out)@ + s@.subrange(
                0,
                i as int,
            )).push(s@[i as int]));
        }
        i = i + 1;
    }
    proof {
        assert(s@.subrange(0, s@.len() as int) =~= s@);
    }
}

impl CallStack {
    /// Create a new empty call stack.
    pub fn new() -> (r: CallStack)
        ensures
            r@ == Seq::<FrameV>::empty(),
    {
        let r = CallStack { c_stack: Vec::new() };
        proof {
            assert(r@ =~= Seq::<FrameV>::empty());
        }
        r
    }

    /// Add a new procedure's frame to the top of the stack.
    pub fn push(&mut self, name: Vec<u8>, length: usize)
        ensures
            final(self)@ == old(self)@.push(
                FrameV { name: name@, length: length as int, capacity: length as int },
            ),
    {
        let ghost f = FrameV { name: name@, length: length as int, capacity: length as int };
        self.c_stack.push(CallFrame { name, length, capacity: length });
        proof {
            assert(self@ =~= old(self)@.push(f));
        }
    }

    /// Count one instruction of the current procedure as stepped. To be
    /// called once per instruction taken off the stream; `step` and
    /// `propagate` are separate so a dump between them stays accurate.
    pub fn step(&mut self)
        requires
            old(self)@.len() >= 1,
            old(self)@.last().length >= 1,
        ensures
            final(self)@ == old(self)@.update(
                old(self)@.len() - 1,
                FrameV {
                    name: old(self)@.last().name,
                    length: old(self)@.last().length - 1,
                    capacity: old(self)@.last().capacity,
                },
            ),
    {
        let top = self.c_stack.len() - 1;
        let shorter = self.c_stack[top].length - 1;
        self.c_stack[top].length = shorter;
        proof {
            assert(self@ =~= old(self)@.update(
                old(self)@.len() - 1,
                FrameV {
                    name: old(self)@.last().name,
                    length: old(self)@.last().length - 1,
                    capacity: old(self)@.last().capacity,
                },
            ));
        }
    }

    /// Give the current procedure one extra pending instruction: called
    /// exactly when a branch puts its chosen option back on the stream.
    pub fn unstep(&mut self)
        requires
            old(self)@.len() >= 1,
            old(self)@.last().length < old(self)@.last().capacity,
        ensures
            final(self)@ == old(self)@.update(
                old(self)@.len() - 1,
                FrameV {
                    name: old(self)@.last().name,
                    length: old(self)@.last().length + 1,
                    capacity: old(self)@.last().capacity,
                },
            ),
    {
        let top = self.c_stack.len() - 1;
        let longer = self.c_stack[top].length + 1;
        self.c_stack[top].length = longer;
        proof {
            assert(self@ =~= old(self)@.update(
                old(self)@.len() - 1,
                FrameV {
                    name: old(self)@.last().name,
                    length: old(self)@.last().length + 1,
                    capacity: old(self)@.last().capacity,
                },
            ));
        }
    }

    /// Pop completed frames off the top, but never the last one, so the
    /// trace always keeps the entry procedure. To be called after each
    /// instruction.
    pub fn propagate(&mut self)
        ensures
            final(self)@ == propagated(old(self)@),
    {
        while self.c_stack.len() > 1 && self.c_stack[self.c_stack.len() - 1].length < 1
            invariant
                propagated(self@) == propagated(old(self)@),
            decreases self.c_stack.len(),
        {
            let ghost pre = self@;
            self.c_stack.pop();
            proof {
                assert(self@ =~= pre.subrange(0, pre.len() - 1));
            }
        }
        proof {
            if self.c_stack.len() > 0 {
                assert(self@.last() == self.c_stack@[self.c_stack@.len() - 1]@);
            }
        }
    }

    /// Render the current state of the stack, one line per frame, depth
    /// shown by indentation.
    pub fn dump(&self) -> (r: Vec<u8>)
        requires
            frames_wf(self@),
        ensures
            r@ == dump_bytes(self@),
    {
        let mut out: Vec<u8> = Vec::new();
        let mut i: usize = 0;
        proof {
            assert(self@.subrange(0, 0) =~= Seq::<FrameV>::empty());
            assert(out@ =~= dump_bytes(self@.subrange(0, 0)));
        }
        while i < self.c_stack.len()
            invariant
                i <= self.c_stack@.len(),
                frames_wf(self@),
                self@.len() == self.c_stack@.len(),
                out@ == dump_bytes(self@.subrange(0, i as int)),
            decreases self.c_stack@.len() - i,
        {
            let ghost pre_line = out@;
            // indentation: one level for the bottom frame, one more per depth
            let mut d: usize = 0;
            while d <= i
                invariant
                    d <= i + 1,
                    i < usize::MAX,
                    out@ == pre_line + indent_bytes(d as nat),
                decreases i + 1 - d,
            {
                push_bytes(&mut out, "  ".as_bytes());
                d = d + 1;
            }
            push_bytes(&mut out, "in \"$".as_bytes());
            push_bytes(&mut out, self.c_stack[i].name.as_slice());
            push_bytes(&mut out, "\", instruction ".as_bytes());
            proof {
                assert(self@[i as int] == self.c_stack@[i as int]@);
            }
            let idx = self.c_stack[i].capacity - self.c_stack[i].length;
            let digits = usize_to_dec_bytes(idx);
            push_bytes(&mut out, digits.as_slice());
            push_bytes(&mut out, "\n".as_bytes());
            proof {
                let f = self@[i as int];
                assert(out@ =~= pre_line + frame_line(f, (i + 1) as nat));
                assert(self@.subrange(0, i + 1 as int).subrange(0, i as int) =~= self@.subrange(
                    0,
                    i as int,
                ));
                assert(self@.subrange(0, i + 1 as int).last() == f);
                assert(out@ =~= dump_bytes(self@.subrange(0, i + 1 as int)));
            }
            i = i + 1;
        }
        proof {
            assert(self@.subrange(0, self@.len() as int) =~= self@);
        }
        out
    }
}

} // verus!
