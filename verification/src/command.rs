//! The command model: the closed vocabulary of executable units and the
//! literal-versus-symbol rule that classifies each source word.

use vstd::prelude::*;
use vstd::utf8::encode_utf8;
use crate::bignum::{Big, be_value, dec_literal_value, is_dec_literal};
use crate::util::bytes_eq;

verus! {

/// The fixed set of primitive operations.
#[derive(Clone, Copy, Debug, PartialEq, Eq)]
pub enum BuiltInCommand {
    Put,
    PutLine,
    Print,
    PrintLine,
    ReadLine,
    Exit,
    Increment,
    Decrement,
    Sum,
    Difference,
    Product,
    Quotient,
    Modulo,
    Equality,
    Inequality,
    LessThan,
    GreaterThan,
    LessEqual,
    GreaterEqual,
    Drop,
    Duplicate,
    Swap,
    Over,
    Rotate,
    NoOp,
    CmdArg,
}

/// One executable unit: an integer constant, a primitive, a reference to a
/// procedure resolved at run time, or a dense list of branch options.
#[derive(Debug, PartialEq, Eq)]
pub enum Command {
    Integer(Big),
    BuiltIn(BuiltInCommand),
    UserDef(Vec<u8>),
    Branch(Vec<Command>),
}

/// The mathematical shape of a command: integers and names as plain values.
pub ghost enum CmdV {
    Int(int),
    Op(BuiltInCommand),
    Call(Seq<u8>),
    Branch(Seq<CmdV>),
}

/// The shape of a command.
pub open spec fn cmd_view(c: Command) -> CmdV
    decreases c,
{
    match c {
        Command::Integer(b) => CmdV::Int(b@),
        Command::BuiltIn(op) => CmdV::Op(op),
        Command::UserDef(name) => CmdV::Call(name@),
        Command::Branch(opts) => CmdV::Branch(cmds_view(opts@)),
    }
}

/// The shapes of a sequence of commands.
pub open spec fn cmds_view(s: Seq<Command>) -> Seq<CmdV>
    decreases s,
{
    if s.len() == 0 {
        Seq::empty()
    } else {
        cmds_view(s.subrange(0, s.len() - 1)).push(cmd_view(s[s.len() - 1]))
    }
}

impl View for Command {
    type V = CmdV;

    open spec fn view(&self) -> CmdV {
        cmd_view(*self)
    }
}

/// `cmds_view` maps the sequence elementwise.
pub proof fn lemma_cmds_view(s: Seq<Command>)
    ensures
        cmds_view(s).len() == s.len(),
        forall|i: int| 0 <= i < s.len() ==> cmds_view(s)[i] == cmd_view(#[trigger] s[i]),
    decreases s,
{
    if s.len() > 0 {
        lemma_cmds_view(s.subrange(0, s.len() - 1));
        assert forall|i: int| 0 <= i < s.len() implies cmds_view(s)[i] == cmd_view(
            #[trigger] s[i],
        ) by {
            if i < s.len() - 1 {
                assert(s.subrange(0, s.len() - 1)[i] == s[i]);
            }
        }
    }
}

/// Structural soundness of a command: integers are canonical and a branch
/// always offers at least one option.
pub open spec fn cmd_wf(c: Command) -> bool
    decreases c,
{
    match c {
        Command::Integer(b) => b.wf(),
        Command::BuiltIn(_) => true,
        Command::UserDef(_) => true,
        Command::Branch(opts) => opts@.len() >= 1 && (forall|i: int|
            0 <= i < opts@.len() ==> cmd_wf(#[trigger] opts@[i])),
    }
}

pub open spec fn cmds_wf(s: Seq<Command>) -> bool {
    forall|i: int| 0 <= i < s.len() ==> cmd_wf(#[trigger] s[i])
}

/// The built-in named by a word, if any, tested in a fixed order.
pub open spec fn builtin_of(w: Seq<u8>) -> Option<BuiltInCommand> {
    if w == encode_utf8("put"@) {
        Some(BuiltInCommand::Put)
    } else if w == encode_utf8("putln"@) {
        Some(BuiltInCommand::PutLine)
    } else if w == encode_utf8("print"@) {
        Some(BuiltInCommand::Print)
    } else if w == encode_utf8("println"@) {
        Some(BuiltInCommand::PrintLine)
    } else if w == encode_utf8("readln"@) {
        Some(BuiltInCommand::ReadLine)
    } else if w == encode_utf8("exit"@) {
        Some(BuiltInCommand::Exit)
    } else if w == encode_utf8("++"@) {
        Some(BuiltInCommand::Increment)
    } else if w == encode_utf8("--"@) {
        Some(BuiltInCommand::Decrement)
    } else if w == encode_utf8("+"@) {
        Some(BuiltInCommand::Sum)
    } else if w == encode_utf8("-"@) {
        Some(BuiltInCommand::Difference)
    } else if w == encode_utf8("*"@) {
        Some(BuiltInCommand::Product)
    } else if w == encode_utf8("div"@) {
        Some(BuiltInCommand::Quotient)
    } else if w == encode_utf8("%"@) {
        Some(BuiltInCommand::Modulo)
    } else if w == encode_utf8("="@) {
        Some(BuiltInCommand::Equality)
    } else if w == encode_utf8("!="@) {
        Some(BuiltInCommand::Inequality)
    } else if w == encode_utf8("<"@) {
        Some(BuiltInCommand::LessThan)
    } else if w == encode_utf8(">"@) {
        Some(BuiltInCommand::GreaterThan)
    } else if w == encode_utf8("<="@) {
        Some(BuiltInCommand::LessEqual)
    } else if w == encode_utf8(">="@) {
        Some(BuiltInCommand::GreaterEqual)
    } else if w == encode_utf8("_"@) {
        Some(BuiltInCommand::Drop)
    } else if w == encode_utf8("dup"@) {
        Some(BuiltInCommand::Duplicate)
    } else if w == encode_utf8("swp"@) {
        Some(BuiltInCommand::Swap)
    } else if w == encode_utf8("over"@) {
        Some(BuiltInCommand::Over)
    } else if w == encode_utf8("rot"@) {
        Some(BuiltInCommand::Rotate)
    } else if w == encode_utf8("nop"@) {
        Some(BuiltInCommand::NoOp)
    } else {
        None
    }
}

/// Position of the first colon, or the length when there is none.
pub open spec fn first_colon(s: Seq<u8>) -> nat
    decreases s.len(),
{
    if s.len() == 0 {
        0
    } else if s[0] == 58 {
        0
    } else {
        (1 + first_colon(s.subrange(1, s.len() as int))) as nat
    }
}

pub proof fn lemma_first_colon(s: Seq<u8>)
    ensures
        first_colon(s) <= s.len(),
        first_colon(s) < s.len() ==> s[first_colon(s) as int] == 58,
        forall|j: int| 0 <= j < first_colon(s) ==> s[j] != 58,
    decreases s.len(),
{
    if s.len() > 0 && s[0] != 58 {
        let rest = s.subrange(1, s.len() as int);
        lemma_first_colon(rest);
        assert forall|j: int| 0 <= j < first_colon(s) implies s[j] != 58 by {
            if j > 0 {
                assert(rest[j - 1] == s[j]);
            }
        }
    }
}

/// `first_colon` is the unique boundary of a colon-free prefix.
pub proof fn lemma_first_colon_is(s: Seq<u8>, k: int)
    requires
        0 <= k <= s.len(),
        forall|j: int| 0 <= j < k ==> s[j] != 58,
        k < s.len() ==> s[k] == 58,
    ensures
        first_colon(s) == k,
    decreases s.len(),
{
    if s.len() > 0 && s[0] != 58 {
        let rest = s.subrange(1, s.len() as int);
        lemma_first_colon_is(rest, k - 1);
    }
}

/// Quoted text of a string-literal word: what stands between the first and
/// the last byte.
pub open spec fn string_content(w: Seq<u8>) -> Seq<u8> {
    if w.len() >= 2 {
        w.subrange(1, w.len() - 1)
    } else {
        Seq::empty()
    }
}

/// The shape a word compiles to, in priority order: a decimal integer
/// literal, a built-in, a branch directive, a quoted string (an integer
/// holding its big-endian bytes), and otherwise a procedure reference.
pub open spec fn spec_classify(w: Seq<u8>) -> CmdV
    decreases w.len(), 0int,
{
    if is_dec_literal(w) {
        CmdV::Int(dec_literal_value(w))
    } else if builtin_of(w) is Some {
        CmdV::Op(builtin_of(w)->Some_0)
    } else if w.len() >= 1 && w[0] == 63 {
        CmdV::Branch(classify_branch_rest(w.subrange(1, w.len() as int)))
    } else if w.len() >= 1 && w[0] == 34 {
        CmdV::Int(be_value(string_content(w)) as int)
    } else {
        CmdV::Call(w)
    }
}

/// One branch option: an empty piece is a no-op, any other is classified as
/// a word of its own.
pub open spec fn classify_piece(p: Seq<u8>) -> CmdV
    decreases p.len(), 1int,
{
    if p.len() == 0 {
        CmdV::Op(BuiltInCommand::NoOp)
    } else {
        spec_classify(p)
    }
}

/// The options of a branch directive: the text after the question mark,
/// split on colons, each piece classified.
pub open spec fn classify_branch_rest(rest: Seq<u8>) -> Seq<CmdV>
    decreases rest.len(), 2int,
{
    let i = first_colon(rest) as int;
    if i >= rest.len() {
        seq![classify_piece(rest)]
    } else {
        seq![classify_piece(rest.subrange(0, i))] + classify_branch_rest(
            rest.subrange(i + 1, rest.len() as int),
        )
    }
}

/// A branch directive always compiles to at least one option.
pub proof fn lemma_branch_rest_len(rest: Seq<u8>)
    ensures
        classify_branch_rest(rest).len() >= 1,
    decreases rest.len(),
{
}

/// The built-in named by a word, if any.
pub fn match_builtin(w: &[u8]) -> (r: Option<BuiltInCommand>)
    ensures
        r == builtin_of(w@),
{
    if bytes_eq(w, "put".as_bytes()) {
        Some(BuiltInCommand::Put)
    } else if bytes_eq(w, "putln".as_bytes()) {
        Some(BuiltInCommand::PutLine)
    } else if bytes_eq(w, "print".as_bytes()) {
        Some(BuiltInCommand::Print)
    } else if bytes_eq(w, "println".as_bytes()) {
        Some(BuiltInCommand::PrintLine)
    } else if bytes_eq(w, "readln".as_bytes()) {
        Some(BuiltInCommand::ReadLine)
    } else if bytes_eq(w, "exit".as_bytes()) {
        Some(BuiltInCommand::Exit)
    } else if bytes_eq(w, "++".as_bytes()) {
        Some(BuiltInCommand::Increment)
    } else if bytes_eq(w, "--".as_bytes()) {
        Some(BuiltInCommand::Decrement)
    } else if bytes_eq(w, "+".as_bytes()) {
        Some(BuiltInCommand::Sum)
    } else if bytes_eq(w, "-".as_bytes()) {
        Some(BuiltInCommand::Difference)
    } else if bytes_eq(w, "*".as_bytes()) {
        Some(BuiltInCommand::Product)
    } else if bytes_eq(w, "div".as_bytes()) {
        Some(BuiltInCommand::Quotient)
    } else if bytes_eq(w, "%".as_bytes()) {
        Some(BuiltInCommand::Modulo)
    } else if bytes_eq(w, "=".as_bytes()) {
        Some(BuiltInCommand::Equality)
    } else if bytes_eq(w, "!=".as_bytes()) {
        Some(BuiltInCommand::Inequality)
    } else if bytes_eq(w, "<".as_bytes()) {
        Some(BuiltInCommand::LessThan)
    } else if bytes_eq(w, ">".as_bytes()) {
        Some(BuiltInCommand::GreaterThan)
    } else if bytes_eq(w, "<=".as_bytes()) {
        Some(BuiltInCommand::LessEqual)
    } else if bytes_eq(w, ">=".as_bytes()) {
        Some(BuiltInCommand::GreaterEqual)
    } else if bytes_eq(w, "_".as_bytes()) {
        Some(BuiltInCommand::Drop)
    } else if bytes_eq(w, "dup".as_bytes()) {
        Some(BuiltInCommand::Duplicate)
    } else if bytes_eq(w, "swp".as_bytes()) {
        Some(BuiltInCommand::Swap)
    } else if bytes_eq(w, "over".as_bytes()) {
        Some(BuiltInCommand::Over)
    } else if bytes_eq(w, "rot".as_bytes()) {
        Some(BuiltInCommand::Rotate)
    } else if bytes_eq(w, "nop".as_bytes()) {
        Some(BuiltInCommand::NoOp)
    } else {
        None
    }
}

impl Command {
    /// Classifies one source word.
    #[verifier::rlimit(60)]
    pub fn from_word(w: &[u8]) -> (c: Command)
        ensures
            c@ == spec_classify(w@),
            cmd_wf(c),
        decreases w@.len(),
    {
        if let Some(big) = Big::parse_dec(w) {
            return Command::Integer(big);
        }
        if let Some(op) = match_builtin(w) {
            return Command::BuiltIn(op);
        }
        if w.len() >= 1 && w[0] == 63 {
            let n = w.len();
            let ghost rest = w@.subrange(1, n as int);
            let mut opts: Vec<Command> = Vec::new();
            let mut pos: usize = 1;
            proof {
                assert(rest.subrange(0, rest.len() as int) =~= rest);
            }
            loop
                invariant
                    1 <= pos <= n,
                    n == w@.len(),
                    w@[0] == 63,
                    rest == w@.subrange(1, n as int),
                    !is_dec_literal(w@),
                    builtin_of(w@) is None,
                    classify_branch_rest(rest) == cmds_view(opts@) + classify_branch_rest(
                        w@.subrange(pos as int, n as int),
                    ),
                    forall|i: int| 0 <= i < opts@.len() ==> cmd_wf(#[trigger] opts@[i]),
                decreases n - pos + 1,
            {
                let ghost remaining = w@.subrange(pos as int, n as int);
                let mut j: usize = pos;
                while j < n && w[j] != 58
                    invariant
                        pos <= j <= n,
                        n == w@.len(),
                        forall|t: int| pos <= t < j ==> w@[t] != 58,
                    decreases n - j,
                {
                    j = j + 1;
                }
                proof {
                    lemma_first_colon_is(remaining, j - pos);
                }
                let piece_cmd = if j == pos {
                    Command::BuiltIn(BuiltInCommand::NoOp)
                } else {
                    Command::from_word(&w[pos..j])
                };
                proof {
                    if j > pos {
                        assert(w@.subrange(pos as int, j as int) =~= remaining.subrange(
                            0,
                            j - pos,
                        ));
                    }
                    if (j - pos) < remaining.len() {
                        assert(remaining.subrange(0, j - pos) =~= w@.subrange(
                            pos as int,
                            j as int,
                        ));
                    } else {
                        assert(remaining.subrange(0, j - pos) =~= remaining);
                    }
                    assert(cmd_view(piece_cmd) == classify_piece(remaining.subrange(0, j - pos)));
                }
                let ghost old_opts = opts@;
                opts.push(piece_cmd);
                proof {
                    assert(opts@.subrange(0, opts@.len() - 1) =~= old_opts);
                    assert(cmds_view(opts@) =~= cmds_view(old_opts).push(cmd_view(piece_cmd)));
                }
                if j == n {
                    proof {
                        assert(classify_branch_rest(remaining) =~= seq![
                            classify_piece(remaining),
                        ]);
                        assert(classify_branch_rest(rest) =~= cmds_view(opts@));
                        lemma_cmds_view(opts@);
                        assert forall|i: int| 0 <= i < opts@.len() implies cmd_wf(
                            #[trigger] opts@[i],
                        ) by {
                            if i < opts@.len() - 1 {
                                assert(opts@[i] == old_opts[i]);
                            }
                        }
                    }
                    return Command::Branch(opts);
                }
                proof {
                    assert(remaining.subrange(j - pos + 1, remaining.len() as int) =~= w@.subrange(
                        j + 1 as int,
                        n as int,
                    ));
                    assert(classify_branch_rest(remaining) =~= seq![
                        classify_piece(remaining.subrange(0, j - pos)),
                    ] + classify_branch_rest(w@.subrange(j + 1 as int, n as int)));
                    assert(cmds_view(opts@) + classify_branch_rest(
                        w@.subrange(j + 1 as int, n as int),
                    ) =~= cmds_view(old_opts) + classify_branch_rest(remaining));
                }
                pos = j + 1;
            }
        } else if w.len() >= 1 && w[0] == 34 {
            let content: &[u8] = if w.len() >= 2 {
                &w[1..w.len() - 1]
            } else {
                &w[0..0]
            };
            proof {
                assert(content@ =~= string_content(w@));
            }
            Command::Integer(Big::from_bytes_be(content))
        } else {
            Command::UserDef(slice_to_vec_bytes(w))
        }
    }
}

/// An owned copy of a byte slice.
pub fn slice_to_vec_bytes(s: &[u8]) -> (r: Vec<u8>)
    ensures
        r@ == s@,
{
    let mut out: Vec<u8> = Vec::new();
    let mut i: usize = 0;
    while i < s.len()
        invariant
            i <= s@.len(),
            out@ == s@.subrange(0, i as int),
        decreases s@.len() - i,
    {
        out.push(s[i]);
        proof {
            assert(out@ =~= s@.subrange(0, i + 1 as int));
        }
        i = i + 1;
    }
    proof {
        assert(out@ =~= s@);
    }
    out
}

} // verus!
