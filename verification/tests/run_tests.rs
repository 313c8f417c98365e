use cairn::bignum::Big;
use cairn::command::{BuiltInCommand, Command};
use cairn::compile::Program;
use cairn::engine::{Effect, FailKind, Machine};

/// Compiles and runs a source text with no console input, collecting what
/// it writes to standard output, the exit code it ends with (0 for normal
/// completion, 1 for a failure), and the failure message if any.
fn run_source(src: &str) -> (String, i32, Option<Vec<u8>>) {
    let prog = Command::split_code(src.as_bytes()).expect("source should compile");
    let mut out = String::new();
    let mut machine = match Machine::new(&prog) {
        Some(m) => m,
        None => return (out, 0, None),
    };
    loop {
        match machine.step() {
            Effect::Proceed => {}
            Effect::Emit(s) => out.push_str(&s),
            Effect::NeedLine => panic!("unexpected readln"),
            Effect::NeedArg(_) => panic!("unexpected argument access"),
            Effect::Done => return (out, 0, None),
            Effect::Exit(c) => return (out, c, None),
            Effect::Abort(f) => return (out, 1, Some(f.message)),
        }
    }
}

#[test]
fn adds_and_prints_decimal() {
    let (out, code, msg) = run_source("$main 3 4 + putln");
    assert_eq!(out, "7\n");
    assert_eq!(code, 0);
    assert!(msg.is_none());
}

#[test]
fn branch_in_range_picks_exact_option() {
    let (out, code, _) = run_source("$main 2 ?\"lo\":\"mid\":\"hi\" println");
    assert_eq!(out, "hi\n");
    assert_eq!(code, 0);
}

#[test]
fn branch_negative_clamps_to_first_option() {
    let (out, code, _) = run_source("$main 0 -- ?\"lo\":\"mid\":\"hi\" println");
    assert_eq!(out, "lo\n");
    assert_eq!(code, 0);
}

#[test]
fn branch_past_end_clamps_to_last_option() {
    let (out, code, _) = run_source("$main 99 ?\"lo\":\"mid\":\"hi\" println");
    assert_eq!(out, "hi\n");
    assert_eq!(code, 0);
}

#[test]
fn unresolved_symbol_reports_and_exits_one() {
    let (out, code, msg) = run_source("$main foo");
    assert_eq!(out, "");
    assert_eq!(code, 1);
    let text = String::from_utf8(msg.expect("a failure message")).unwrap();
    assert!(text.contains("Unresolved Symbol: \"foo\""));
    assert!(text.contains("in \"$main\", instruction 0"));
}

#[test]
fn sum_on_empty_stack_is_silent() {
    let (out, code, msg) = run_source("$main +");
    assert_eq!(out, "");
    assert_eq!(code, 0);
    assert!(msg.is_none());
}

#[test]
fn missing_main_is_silent_success() {
    let (out, code, _) = run_source("$helper 1 putln");
    assert_eq!(out, "");
    assert_eq!(code, 0);
}

#[test]
fn subtraction_keeps_operand_order() {
    let (out, code, _) = run_source("$main 10 3 - putln");
    assert_eq!(out, "7\n");
    assert_eq!(code, 0);
}

#[test]
fn multiplication_and_truncating_division() {
    let (out, _, _) = run_source("$main 6 7 * putln 7 2 div putln 0 7 - 2 div putln");
    assert_eq!(out, "42\n3\n-3\n");
}

#[test]
fn modulo_follows_dividend_sign() {
    let (out, _, _) = run_source("$main 7 2 % putln 0 7 - 2 % putln");
    assert_eq!(out, "1\n-1\n");
}

#[test]
fn comparisons_read_left_to_right() {
    let (out, _, _) = run_source("$main 3 4 < putln 3 4 > putln 4 4 = putln 4 5 != putln");
    assert_eq!(out, "1\n0\n1\n1\n");
}

#[test]
fn comparison_bounds_included() {
    let (out, _, _) = run_source("$main 4 4 <= putln 5 4 >= putln 4 5 >= putln");
    assert_eq!(out, "1\n1\n0\n");
}

#[test]
fn increment_and_decrement_touch_the_top() {
    let (out, _, _) = run_source("$main 5 ++ putln 5 -- putln");
    assert_eq!(out, "6\n4\n");
}

#[test]
fn dup_leaves_two_equal_copies() {
    let (out, _, _) = run_source("$main 5 dup + putln");
    assert_eq!(out, "10\n");
}

#[test]
fn swap_exchanges_the_top_two() {
    let (out, _, _) = run_source("$main 1 2 swp putln putln");
    assert_eq!(out, "1\n2\n");
}

#[test]
fn over_copies_second_from_top() {
    let (out, _, _) = run_source("$main 1 2 3 over putln");
    assert_eq!(out, "2\n");
}

#[test]
fn over_short_stack_pushes_zero() {
    let (out, _, _) = run_source("$main 1 2 over putln");
    assert_eq!(out, "0\n");
}

#[test]
fn rotate_moves_third_to_top() {
    let (out, _, _) = run_source("$main 1 2 3 rot putln putln putln");
    assert_eq!(out, "1\n3\n2\n");
}

#[test]
fn drop_discards_the_top() {
    let (out, _, _) = run_source("$main 1 2 _ putln");
    assert_eq!(out, "1\n");
}

#[test]
fn dup_on_empty_stack_pushes_zero() {
    let (out, code, _) = run_source("$main dup putln");
    assert_eq!(out, "0\n");
    assert_eq!(code, 0);
}

#[test]
fn swap_on_short_stack_is_silent() {
    let (out, code, msg) = run_source("$main 1 swp putln");
    assert_eq!(out, "1\n");
    assert_eq!(code, 0);
    assert!(msg.is_none());
}

#[test]
fn rotate_on_short_stack_is_silent() {
    let (out, code, msg) = run_source("$main 1 2 rot putln putln");
    assert_eq!(out, "2\n1\n");
    assert_eq!(code, 0);
    assert!(msg.is_none());
}

#[test]
fn putln_on_empty_stack_prints_bare_newline() {
    let (out, code, _) = run_source("$main putln");
    assert_eq!(out, "\n");
    assert_eq!(code, 0);
}

#[test]
fn put_has_no_trailing_newline() {
    let (out, _, _) = run_source("$main 12 put 34 put");
    assert_eq!(out, "1234");
}

#[test]
fn string_literal_prints_back_as_text() {
    let (out, _, _) = run_source("$main \"hi\" print \"!\" println");
    assert_eq!(out, "hi!\n");
}

#[test]
fn string_value_is_big_endian_bytes() {
    let (out, _, _) = run_source("$main \"hi\" putln");
    assert_eq!(out, "26729\n");
}

#[test]
fn print_of_zero_is_empty_text() {
    let (out, code, _) = run_source("$main 0 print 7 putln");
    assert_eq!(out, "7\n");
    assert_eq!(code, 0);
}

#[test]
fn procedure_calls_splice_in_order() {
    let (out, _, _) = run_source("$double dup +\n$main 21 double putln");
    assert_eq!(out, "42\n");
}

#[test]
fn forward_reference_resolves_at_run_time() {
    let (out, _, _) = run_source("$main 21 double putln\n$double dup +");
    assert_eq!(out, "42\n");
}

#[test]
fn nested_call_trace_shows_each_frame() {
    let (out, code, msg) = run_source("$main f\n$f g\n$g oops");
    assert_eq!(out, "");
    assert_eq!(code, 1);
    let text = String::from_utf8(msg.unwrap()).unwrap();
    assert!(text.contains("Unresolved Symbol: \"oops\""));
    assert!(text.contains("  in \"$main\", instruction 1\n"));
    assert!(text.contains("    in \"$f\", instruction 1\n"));
    assert!(text.contains("      in \"$g\", instruction 0\n"));
}

#[test]
fn explicit_exit_code_is_returned() {
    let (out, code, _) = run_source("$main 7 exit 1 putln");
    assert_eq!(out, "");
    assert_eq!(code, 7);
}

#[test]
fn exit_on_empty_stack_is_zero() {
    let (_, code, _) = run_source("$main exit");
    assert_eq!(code, 0);
}

#[test]
fn exit_value_out_of_range_becomes_one() {
    let (_, code, _) = run_source("$main 4294967296 exit");
    assert_eq!(code, 1);
}

#[test]
fn division_by_zero_is_a_reported_failure() {
    let (out, code, msg) = run_source("$main 1 0 div putln");
    assert_eq!(out, "");
    assert_eq!(code, 1);
    let text = String::from_utf8(msg.unwrap()).unwrap();
    assert!(text.contains("Division By Zero"));
}

#[test]
fn printing_non_text_bytes_is_a_reported_failure() {
    let (out, code, msg) = run_source("$main 255 print");
    assert_eq!(out, "");
    assert_eq!(code, 1);
    let text = String::from_utf8(msg.unwrap()).unwrap();
    assert!(text.contains("Invalid UTF-8 Text"));
}

#[test]
fn arithmetic_carries_past_machine_words() {
    let (out, _, _) = run_source("$main 99999999999999999999 1 + putln");
    assert_eq!(out, "100000000000000000000\n");
}

#[test]
fn negative_literals_round_trip() {
    let (out, _, _) = run_source("$main -12345678901234567890 putln");
    assert_eq!(out, "-12345678901234567890\n");
}

#[test]
fn readln_pushes_the_stripped_line() {
    let prog = Command::split_code(b"$main readln putln").unwrap();
    let mut machine = Machine::new(&prog).unwrap();
    let mut out = String::new();
    loop {
        match machine.step() {
            Effect::Proceed => {}
            Effect::Emit(s) => out.push_str(&s),
            Effect::NeedLine => machine.provide_line("abc\r\n"),
            Effect::Done => break,
            other => panic!("unexpected effect: {:?}", other),
        }
    }
    // "abc" read big-endian is 0x616263
    assert_eq!(out, "6382179\n");
}

#[test]
fn argument_access_pushes_argument_bytes() {
    let mut prog = Program::new();
    prog.declare(b"main");
    prog.append_to(b"main", Command::Integer(Big { neg: false, limbs: vec![1] }));
    prog.append_to(b"main", Command::BuiltIn(BuiltInCommand::CmdArg));
    prog.append_to(b"main", Command::BuiltIn(BuiltInCommand::PutLine));
    let mut machine = Machine::new(&prog).unwrap();
    let mut out = String::new();
    loop {
        match machine.step() {
            Effect::Proceed => {}
            Effect::Emit(s) => out.push_str(&s),
            Effect::NeedArg(i) => {
                assert_eq!(i, 1);
                machine.provide_arg(Some("xy"));
            }
            Effect::Done => break,
            other => panic!("unexpected effect: {:?}", other),
        }
    }
    // "xy" read big-endian is 0x7879
    assert_eq!(out, "30841\n");
}

#[test]
fn missing_argument_pushes_zero() {
    let mut prog = Program::new();
    prog.declare(b"main");
    prog.append_to(b"main", Command::Integer(Big { neg: false, limbs: vec![9] }));
    prog.append_to(b"main", Command::BuiltIn(BuiltInCommand::CmdArg));
    prog.append_to(b"main", Command::BuiltIn(BuiltInCommand::PutLine));
    let mut machine = Machine::new(&prog).unwrap();
    let mut out = String::new();
    loop {
        match machine.step() {
            Effect::Proceed => {}
            Effect::Emit(s) => out.push_str(&s),
            Effect::NeedArg(_) => machine.provide_arg(None),
            Effect::Done => break,
            other => panic!("unexpected effect: {:?}", other),
        }
    }
    assert_eq!(out, "0\n");
}

#[test]
fn failure_kind_names_the_symbol() {
    let prog = Command::split_code(b"$main ghost_word").unwrap();
    let mut machine = Machine::new(&prog).unwrap();
    loop {
        match machine.step() {
            Effect::Proceed => {}
            Effect::Abort(f) => {
                assert_eq!(f.kind, FailKind::Unresolved(b"ghost_word".to_vec()));
                return;
            }
            other => panic!("unexpected effect: {:?}", other),
        }
    }
}

#[test]
fn nop_changes_nothing() {
    let (out, code, _) = run_source("$main nop 5 nop putln");
    assert_eq!(out, "5\n");
    assert_eq!(code, 0);
}

#[test]
fn put_and_print_on_empty_stack_are_silent() {
    let (out, code, msg) = run_source("$main put print println 3 putln");
    assert_eq!(out, "3\n");
    assert_eq!(code, 0);
    assert!(msg.is_none());
}

#[test]
fn negative_exit_code_is_kept() {
    let (_, code, _) = run_source("$main 0 5 - exit");
    assert_eq!(code, -5);
}

#[test]
fn readln_strips_bare_newline_only_once() {
    let prog = Command::split_code(b"$main readln putln").unwrap();
    let mut machine = Machine::new(&prog).unwrap();
    let mut out = String::new();
    loop {
        match machine.step() {
            Effect::Proceed => {}
            Effect::Emit(s) => out.push_str(&s),
            Effect::NeedLine => machine.provide_line("A\n"),
            Effect::Done => break,
            other => panic!("unexpected effect: {:?}", other),
        }
    }
    assert_eq!(out, "65\n");
}
