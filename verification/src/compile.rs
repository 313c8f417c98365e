//! The source compiler: lexes source text into words, respecting comments
//! and string literals, and groups the words into named procedures.

use vstd::prelude::*;
use crate::command::{Command, CmdV, cmd_wf, cmds_wf, cmds_view, spec_classify};
use crate::util::bytes_eq;

verus! {

/// One named procedure and its compiled body.
#[derive(Debug, PartialEq, Eq)]
pub struct Proc {
    pub name: Vec<u8>,
    pub body: Vec<Command>,
}

/// A compiled program: procedures in order of first declaration. The view
/// is the mapping from procedure name to the shapes of its body.
#[derive(Debug, PartialEq, Eq)]
pub struct Program {
    pub procs: Vec<Proc>,
}

/// The mapping a sequence of procedures denotes; a later entry with the
/// same name overrides an earlier one.
pub open spec fn procs_map(s: Seq<Proc>) -> Map<Seq<u8>, Seq<CmdV>>
    decreases s.len(),
{
    if s.len() == 0 {
        Map::empty()
    } else {
        procs_map(s.subrange(0, s.len() - 1)).insert(
            s[s.len() - 1].name@,
            cmds_view(s[s.len() - 1].body@),
        )
    }
}

impl View for Program {
    type V = Map<Seq<u8>, Seq<CmdV>>;

    open spec fn view(&self) -> Map<Seq<u8>, Seq<CmdV>> {
        procs_map(self.procs@)
    }
}

pub open spec fn names_unique(s: Seq<Proc>) -> bool {
    forall|i: int, j: int|
        #![trigger s[i].name, s[j].name]
        0 <= i < j < s.len() ==> s[i].name@ != s[j].name@
}

impl Program {
    /// Procedure names never repeat, and every command is well formed.
    pub open spec fn wf(&self) -> bool {
        &&& names_unique(self.procs@)
        &&& forall|i: int| 0 <= i < self.procs@.len() ==> cmds_wf((#[trigger] self.procs@[i]).body@)
    }

    /// The empty program.
    pub fn new() -> (r: Program)
        ensures
            r@ == Map::<Seq<u8>, Seq<CmdV>>::empty(),
            r.wf(),
    {
        let r = Program { procs: Vec::new() };
        proof {
            assert(r.procs@.len() == 0);
        }
        r
    }
}

/// A name is in the mapping exactly when some procedure carries it.
pub proof fn lemma_procs_map_contains(s: Seq<Proc>, k: Seq<u8>)
    ensures
        procs_map(s).contains_key(k) <==> exists|i: int|
            0 <= i < s.len() && (#[trigger] s[i].name)@ == k,
    decreases s.len(),
{
    if s.len() > 0 {
        let pre = s.subrange(0, s.len() - 1);
        lemma_procs_map_contains(pre, k);
        if s[s.len() - 1].name@ == k {
            assert(0 <= s.len() - 1 < s.len() && s[s.len() - 1].name@ == k);
        } else {
            if procs_map(s).contains_key(k) {
                let i = choose|i: int| 0 <= i < pre.len() && (#[trigger] pre[i].name)@ == k;
                assert(s[i].name@ == k);
            }
            if exists|i: int| 0 <= i < s.len() && (#[trigger] s[i].name)@ == k {
                let i = choose|i: int| 0 <= i < s.len() && (#[trigger] s[i].name)@ == k;
                assert(pre[i].name@ == k);
            }
        }
    }
}

/// With unique names, each procedure's body is what the mapping holds for
/// its name.
pub proof fn lemma_procs_map_value(s: Seq<Proc>, i: int)
    requires
        names_unique(s),
        0 <= i < s.len(),
    ensures
        procs_map(s).contains_key(s[i].name@),
        procs_map(s)[s[i].name@] == cmds_view(s[i].body@),
    decreases s.len(),
{
    let pre = s.subrange(0, s.len() - 1);
    if i == s.len() - 1 {
    } else {
        assert(pre[i].name == s[i].name && pre[i].body == s[i].body);
        lemma_procs_map_value(pre, i);
        assert(s[i].name@ != s[s.len() - 1].name@);
    }
}

/// Replacing one procedure's body, name kept, is an override in the mapping.
pub proof fn lemma_procs_map_update(s: Seq<Proc>, i: int, p: Proc)
    requires
        names_unique(s),
        0 <= i < s.len(),
        p.name@ == s[i].name@,
    ensures
        procs_map(s.update(i, p)) == procs_map(s).insert(p.name@, cmds_view(p.body@)),
        names_unique(s.update(i, p)),
    decreases s.len(),
{
    let t = s.update(i, p);
    let pre = s.subrange(0, s.len() - 1);
    let tpre = t.subrange(0, t.len() - 1);
    assert forall|a: int, b: int|
        #![trigger t[a].name, t[b].name]
        0 <= a < b < t.len() implies t[a].name@ != t[b].name@ by {
        assert(s[a].name@ != s[b].name@);
    }
    if i == s.len() - 1 {
        assert(tpre =~= pre);
        assert(procs_map(t) =~= procs_map(s).insert(p.name@, cmds_view(p.body@)));
    } else {
        assert(tpre =~= pre.update(i, p));
        assert(pre[i].name == s[i].name);
        assert forall|a: int, b: int|
            #![trigger pre[a].name, pre[b].name]
            0 <= a < b < pre.len() implies pre[a].name@ != pre[b].name@ by {
            assert(s[a].name@ != s[b].name@);
        }
        lemma_procs_map_update(pre, i, p);
        assert(t[t.len() - 1] == s[s.len() - 1]);
        assert(s[i].name@ != s[s.len() - 1].name@);
        assert(procs_map(t) =~= procs_map(s).insert(p.name@, cmds_view(p.body@)));
    }
}

impl Program {
    /// Looks a procedure up by name.
    pub fn lookup(&self, name: &[u8]) -> (r: Option<&Vec<Command>>)
        requires
            self.wf(),
        ensures
            r is Some <==> self@.contains_key(name@),
            r is Some ==> cmds_view(r->0@) == self@[name@] && cmds_wf(r->0@),
    {
        let n = self.procs.len();
        let mut i: usize = 0;
        while i < n
            invariant
                self.wf(),
                i <= n,
                n == self.procs@.len(),
                forall|j: int| 0 <= j < i ==> (#[trigger] self.procs@[j].name)@ != name@,
            decreases n - i,
        {
            if bytes_eq(self.procs[i].name.as_slice(), name) {
                proof {
                    lemma_procs_map_value(self.procs@, i as int);
                }
                return Some(&self.procs[i].body);
            }
            i = i + 1;
        }
        proof {
            lemma_procs_map_contains(self.procs@, name@);
        }
        None
    }

    /// Declares the procedure of a `$name` word: an empty entry is made
    /// only when the name is new; an existing procedure is selected as it
    /// stands.
    pub fn declare(&mut self, name: &[u8])
        requires
            old(self).wf(),
        ensures
            final(self).wf(),
            final(self)@ == if old(self)@.contains_key(name@) {
                old(self)@
            } else {
                old(self)@.insert(name@, Seq::<CmdV>::empty())
            },
            final(self)@.contains_key(name@),
    {
        let n = self.procs.len();
        let mut i: usize = 0;
        while i < n
            invariant
                self == old(self),
                self.wf(),
                i <= n,
                n == self.procs@.len(),
                forall|j: int| 0 <= j < i ==> (#[trigger] self.procs@[j].name)@ != name@,
            decreases n - i,
        {
            if bytes_eq(self.procs[i].name.as_slice(), name) {
                proof {
                    lemma_procs_map_value(self.procs@, i as int);
                }
                return ;
            }
            i = i + 1;
        }
        let ghost pre = self.procs@;
        proof {
            lemma_procs_map_contains(pre, name@);
        }
        let owned = crate::command::slice_to_vec_bytes(name);
        let body: Vec<Command> = Vec::new();
        self.procs.push(Proc { name: owned, body });
        proof {
            let p = self.procs@[self.procs@.len() - 1];
            assert(self.procs@.subrange(0, self.procs@.len() - 1) =~= pre);
            assert(cmds_view(p.body@) =~= Seq::<CmdV>::empty());
            assert(self@ == procs_map(pre).insert(name@, Seq::<CmdV>::empty()));
            lemma_procs_map_contains(pre, name@);
            assert forall|a: int, b: int|
                #![trigger self.procs@[a].name, self.procs@[b].name]
                0 <= a < b < self.procs@.len() implies self.procs@[a].name@
                != self.procs@[b].name@ by {
                if b < self.procs@.len() - 1 {
                    assert(pre[a].name@ != pre[b].name@);
                } else {
                    assert(self.procs@[a] == pre[a]);
                    if self.procs@[a].name@ == name@ {
                        assert(exists|t: int|
                            0 <= t < pre.len() && (#[trigger] pre[t].name)@ == name@);
                    }
                }
            }
        }
    }

    /// Appends one compiled command to a declared procedure.
    pub fn append_to(&mut self, name: &[u8], c: Command)
        requires
            old(self).wf(),
            old(self)@.contains_key(name@),
            cmd_wf(c),
        ensures
            final(self).wf(),
            final(self)@ == old(self)@.insert(name@, old(self)@[name@].push(c@)),
    {
        let n = self.procs.len();
        let mut i: usize = 0;
        proof {
            lemma_procs_map_contains(self.procs@, name@);
        }
        while i < n
            invariant
                self == old(self),
                self.wf(),
                cmd_wf(c),
                i <= n,
                n == self.procs@.len(),
                exists|t: int| 0 <= t < n && (#[trigger] self.procs@[t].name)@ == name@,
                forall|j: int| 0 <= j < i ==> (#[trigger] self.procs@[j].name)@ != name@,
            decreases n - i,
        {
            if bytes_eq(self.procs[i].name.as_slice(), name) {
                proof {
                    lemma_procs_map_value(self.procs@, i as int);
                }
                let ghost pre = self.procs@;
                let ghost old_body = self.procs@[i as int].body@;
                self.procs[i].body.push(c);
                proof {
                    let p = self.procs@[i as int];
                    assert(self.procs@ =~= pre.update(i as int, p));
                    lemma_procs_map_update(pre, i as int, p);
                    assert(p.body@.subrange(0, p.body@.len() - 1) =~= old_body);
                    assert(cmds_view(p.body@) =~= cmds_view(old_body).push(c@));
                    assert(cmds_wf(pre[i as int].body@));
                    assert forall|t: int| 0 <= t < p.body@.len() implies cmd_wf(
                        #[trigger] p.body@[t],
                    ) by {
                        if t < p.body@.len() - 1 {
                            assert(p.body@[t] == old_body[t]);
                            assert(cmd_wf(old_body[t]));
                        } else {
                            assert(p.body@[t] == c);
                        }
                    }
                }
                return ;
            }
            i = i + 1;
        }
        proof {
            assert(false);
        }
    }
}

/// A fatal flaw in the source text.
#[derive(Debug, PartialEq, Eq)]
pub enum CompileError {
    UnclosedString,
}

/// The lexer's state after some prefix of the input: the program built so
/// far, the open procedure, the two lexical modes, and where the current
/// word began.
pub ghost struct LexS {
    pub prog: Map<Seq<u8>, Seq<CmdV>>,
    pub cur: Option<Seq<u8>>,
    pub in_comment: bool,
    pub in_str: bool,
    pub word_start: int,
}

pub open spec fn opt_view(c: Option<Vec<u8>>) -> Option<Seq<u8>> {
    match c {
        Option::None => Option::None,
        Option::Some(v) => Option::Some(v@),
    }
}

/// Effect of one completed word: a `$name` word opens the procedure it
/// names, making an empty entry only when the name is new; any other word
/// is classified and appended to the open procedure, or discarded when
/// none is open.
pub open spec fn lex_word(
    prog: Map<Seq<u8>, Seq<CmdV>>,
    cur: Option<Seq<u8>>,
    w: Seq<u8>,
) -> (Map<Seq<u8>, Seq<CmdV>>, Option<Seq<u8>>)
    recommends
        w.len() > 0,
{
    if w[0] == 36 {
        let name = w.subrange(1, w.len() as int);
        let prog2 = if prog.contains_key(name) {
            prog
        } else {
            prog.insert(name, Seq::empty())
        };
        (prog2, Option::Some(name))
    } else {
        match cur {
            Option::None => (prog, cur),
            Option::Some(name) => (
                prog.insert(name, prog[name].push(spec_classify(w))),
                cur,
            ),
        }
    }
}

/// Effect of one input byte on the lexer's state: a `#` outside a string
/// opens a comment that a newline closes; a quote outside a comment toggles
/// string mode; a space or newline outside both ends the current word.
pub open spec fn lex_byte(s: LexS, input: Seq<u8>, i: int) -> LexS
    recommends
        0 <= i < input.len(),
{
    let b = input[i];
    if b == 35 && !s.in_str {
        LexS { in_comment: true, ..s }
    } else if b == 10 && s.in_comment {
        LexS { in_comment: false, word_start: i + 1, ..s }
    } else if b == 34 && !s.in_comment {
        LexS { in_str: !s.in_str, ..s }
    } else if (b == 32 || b == 10) && !s.in_str && !s.in_comment {
        if i - s.word_start > 0 {
            let step = lex_word(s.prog, s.cur, input.subrange(s.word_start, i));
            LexS { prog: step.0, cur: step.1, word_start: i + 1, ..s }
        } else {
            LexS { word_start: i + 1, ..s }
        }
    } else {
        s
    }
}

pub open spec fn lex_init() -> LexS {
    LexS {
        prog: Map::empty(),
        cur: Option::None,
        in_comment: false,
        in_str: false,
        word_start: 0,
    }
}

/// The lexer's state after the first `i` input bytes.
pub open spec fn lex_run(input: Seq<u8>, i: int) -> LexS
    decreases i,
{
    if i <= 0 {
        lex_init()
    } else {
        lex_byte(lex_run(input, i - 1), input, i - 1)
    }
}

/// The program a source text compiles to, or nothing when a string literal
/// is left unterminated. A final word is taken unless a comment runs to the
/// end of the input.
pub open spec fn spec_compile(input: Seq<u8>) -> Option<Map<Seq<u8>, Seq<CmdV>>> {
    let s = lex_run(input, input.len() as int);
    if s.in_str {
        Option::None
    } else if s.word_start < input.len() && !s.in_comment {
        Option::Some(lex_word(s.prog, s.cur, input.subrange(s.word_start, input.len() as int)).0)
    } else {
        Option::Some(s.prog)
    }
}

/// Feeds one completed word to the program being built.
fn handle_word(prog: &mut Program, cur: &mut Option<Vec<u8>>, w: &[u8])
    requires
        old(prog).wf(),
        w@.len() > 0,
        opt_view(*old(cur)) is Some ==> old(prog)@.contains_key(opt_view(*old(cur))->0),
    ensures
        final(prog).wf(),
        final(prog)@ == lex_word(old(prog)@, opt_view(*old(cur)), w@).0,
        opt_view(*final(cur)) == lex_word(old(prog)@, opt_view(*old(cur)), w@).1,
        opt_view(*final(cur)) is Some ==> final(prog)@.contains_key(opt_view(*final(cur))->0),
{
    if w[0] == 36 {
        let name = &w[1..w.len()];
        proof {
            assert(name@ =~= w@.subrange(1, w@.len() as int));
        }
        prog.declare(name);
        *cur = Some(crate::command::slice_to_vec_bytes(name));
    } else {
        match cur {
            Option::None => {},
            Option::Some(nm) => {
                let cmd = Command::from_word(w);
                prog.append_to(nm.as_slice(), cmd);
            },
        }
    }
}

impl Command {
    /// Compiles raw source text into a program: words are separated by
    /// spaces and newlines, `#` starts a line comment, quotes delimit
    /// string literals, and `$name` opens the procedure that the following
    /// words fill.
    pub fn split_code(input: &[u8]) -> (r: Result<Program, CompileError>)
        ensures
            r is Ok <==> spec_compile(input@) is Some,
            r is Ok ==> r->Ok_0.wf() && r->Ok_0@ == spec_compile(input@)->0,
            r is Err ==> r->Err_0 == CompileError::UnclosedString,
    {
        let n = input.len();
        let mut prog = Program::new();
        let mut cur: Option<Vec<u8>> = None;
        let mut in_comment = false;
        let mut in_str = false;
        let mut word_start: usize = 0;
        let mut i: usize = 0;
        while i < n
            invariant
                i <= n,
                n == input@.len(),
                word_start <= i,
                prog.wf(),
                prog@ == lex_run(input@, i as int).prog,
                opt_view(cur) == lex_run(input@, i as int).cur,
                in_comment == lex_run(input@, i as int).in_comment,
                in_str == lex_run(input@, i as int).in_str,
                word_start as int == lex_run(input@, i as int).word_start,
                opt_view(cur) is Some ==> prog@.contains_key(opt_view(cur)->0),
            decreases n - i,
        {
            let ghost st = lex_run(input@, i as int);
            let b = input[i];
            if b == 35 && !in_str {
                in_comment = true;
            } else if b == 10 && in_comment {
                in_comment = false;
                word_start = i + 1;
            } else if b == 34 && !in_comment {
                in_str = !in_str;
            } else if (b == 32 || b == 10) && !in_str && !in_comment {
                if i - word_start > 0 {
                    let w = &input[word_start..i];
                    proof {
                        assert(w@ =~= input@.subrange(word_start as int, i as int));
                    }
                    handle_word(&mut prog, &mut cur, w);
                }
                word_start = i + 1;
            }
            proof {
                assert(lex_run(input@, i + 1 as int) == lex_byte(st, input@, i as int));
            }
            i = i + 1;
        }
        if in_str {
            return Err(CompileError::UnclosedString);
        }
        if word_start < n && !in_comment {
            let w = &input[word_start..n];
            proof {
                assert(w@ =~= input@.subrange(word_start as int, n as int));
            }
            handle_word(&mut prog, &mut cur, w);
        }
        Ok(prog)
    }
}

} // verus!
