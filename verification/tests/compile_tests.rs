use cairn::bignum::Big;
use cairn::command::{BuiltInCommand, Command};
use cairn::compile::{CompileError, Program};

fn body_of<'a>(prog: &'a Program, name: &[u8]) -> &'a Vec<Command> {
    prog.lookup(name).expect("procedure should exist")
}

fn small(n: u32) -> Command {
    if n == 0 {
        Command::Integer(Big { neg: false, limbs: vec![] })
    } else {
        Command::Integer(Big { neg: false, limbs: vec![n] })
    }
}

#[test]
fn words_compile_into_the_open_procedure() {
    let prog = Command::split_code(b"$main 3 4 +\n").unwrap();
    let body = body_of(&prog, b"main");
    assert_eq!(
        body,
        &vec![small(3), small(4), Command::BuiltIn(BuiltInCommand::Sum)]
    );
}

#[test]
fn words_before_any_declaration_are_discarded() {
    let prog = Command::split_code(b"1 2 + $main 5\n").unwrap();
    assert_eq!(body_of(&prog, b"main"), &vec![small(5)]);
    assert!(prog.lookup(b"1").is_none());
}

#[test]
fn comments_run_to_the_end_of_the_line() {
    let prog = Command::split_code(b"$main 1 # 2 3 $other\n4\n").unwrap();
    assert_eq!(body_of(&prog, b"main"), &vec![small(1), small(4)]);
    assert!(prog.lookup(b"other").is_none());
}

#[test]
fn hash_inside_string_is_literal() {
    let prog = Command::split_code(b"$main \"#\" putln\n").unwrap();
    // the quoted "#" is byte 35
    assert_eq!(
        body_of(&prog, b"main"),
        &vec![small(35), Command::BuiltIn(BuiltInCommand::PutLine)]
    );
}

#[test]
fn unclosed_string_is_a_compile_error() {
    let r = Command::split_code(b"$main \"abc");
    assert_eq!(r, Err(CompileError::UnclosedString));
}

#[test]
fn reopening_a_procedure_appends_to_it() {
    let prog = Command::split_code(b"$f 1 2\n$main f\n$f 3\n").unwrap();
    assert_eq!(body_of(&prog, b"f"), &vec![small(1), small(2), small(3)]);
}

#[test]
fn final_word_without_trailing_whitespace_counts() {
    let prog = Command::split_code(b"$main 7").unwrap();
    assert_eq!(body_of(&prog, b"main"), &vec![small(7)]);
}

#[test]
fn classification_prefers_integer_literals() {
    assert_eq!(Command::from_word(b"42"), small(42));
    assert_eq!(
        Command::from_word(b"-7"),
        Command::Integer(Big { neg: true, limbs: vec![7] })
    );
    assert_eq!(Command::from_word(b"+9"), small(9));
    assert_eq!(Command::from_word(b"-0"), small(0));
}

#[test]
fn underscores_are_skipped_after_the_first_digit() {
    assert_eq!(Command::from_word(b"1_0"), small(10));
    assert_eq!(Command::from_word(b"1_"), small(1));
    assert_eq!(
        Command::from_word(b"_1"),
        Command::UserDef(b"_1".to_vec())
    );
}

#[test]
fn double_signs_are_not_literals() {
    assert_eq!(
        Command::from_word(b"-+1"),
        Command::UserDef(b"-+1".to_vec())
    );
    assert_eq!(
        Command::from_word(b"++1"),
        Command::UserDef(b"++1".to_vec())
    );
}

#[test]
fn builtin_words_map_to_their_operations() {
    assert_eq!(
        Command::from_word(b"putln"),
        Command::BuiltIn(BuiltInCommand::PutLine)
    );
    assert_eq!(
        Command::from_word(b"div"),
        Command::BuiltIn(BuiltInCommand::Quotient)
    );
    assert_eq!(
        Command::from_word(b"_"),
        Command::BuiltIn(BuiltInCommand::Drop)
    );
    assert_eq!(
        Command::from_word(b"nop"),
        Command::BuiltIn(BuiltInCommand::NoOp)
    );
    assert_eq!(
        Command::from_word(b">="),
        Command::BuiltIn(BuiltInCommand::GreaterEqual)
    );
}

#[test]
fn branch_directive_splits_on_colons() {
    let c = Command::from_word(b"?1:2:3");
    assert_eq!(c, Command::Branch(vec![small(1), small(2), small(3)]));
}

#[test]
fn empty_branch_options_become_no_ops() {
    let c = Command::from_word(b"?1::3");
    assert_eq!(
        c,
        Command::Branch(vec![
            small(1),
            Command::BuiltIn(BuiltInCommand::NoOp),
            small(3)
        ])
    );
}

#[test]
fn bare_question_mark_is_a_single_no_op_branch() {
    let c = Command::from_word(b"?");
    assert_eq!(c, Command::Branch(vec![Command::BuiltIn(BuiltInCommand::NoOp)]));
}

#[test]
fn trailing_colon_adds_an_empty_option() {
    let c = Command::from_word(b"?1:");
    assert_eq!(
        c,
        Command::Branch(vec![small(1), Command::BuiltIn(BuiltInCommand::NoOp)])
    );
}

#[test]
fn quoted_word_is_its_bytes_as_one_integer() {
    // "A" is byte 65; "hi" is 0x68 * 256 + 0x69 = 26729
    assert_eq!(Command::from_word(b"\"A\""), small(65));
    assert_eq!(Command::from_word(b"\"hi\""), small(26729));
    assert_eq!(Command::from_word(b"\"\""), small(0));
}

#[test]
fn unknown_words_become_procedure_references() {
    assert_eq!(
        Command::from_word(b"greet"),
        Command::UserDef(b"greet".to_vec())
    );
}

#[test]
fn declared_procedures_can_be_looked_up() {
    let mut prog = Program::new();
    assert!(prog.lookup(b"main").is_none());
    prog.declare(b"main");
    assert_eq!(body_of(&prog, b"main"), &Vec::<Command>::new());
    prog.append_to(b"main", small(1));
    prog.append_to(b"main", small(2));
    assert_eq!(body_of(&prog, b"main"), &vec![small(1), small(2)]);
}

#[test]
fn final_word_may_declare_a_procedure() {
    let prog = Command::split_code(b"$main 1 $last").unwrap();
    assert_eq!(body_of(&prog, b"main"), &vec![small(1)]);
    assert_eq!(body_of(&prog, b"last"), &Vec::<Command>::new());
}

#[test]
fn trailing_comment_without_newline_is_dropped() {
    let prog = Command::split_code(b"$main 1 # trailing words").unwrap();
    assert_eq!(body_of(&prog, b"main"), &vec![small(1)]);
}

#[test]
fn comment_discards_the_word_it_interrupts() {
    let prog = Command::split_code(b"$main ab#cd\nef ").unwrap();
    assert_eq!(
        body_of(&prog, b"main"),
        &vec![Command::UserDef(b"ef".to_vec())]
    );
}
