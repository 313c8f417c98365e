use cairn::call_stack::CallStack;

#[test]
fn dump_shows_current_instruction_index() {
    let mut cs = CallStack::new();
    cs.push(b"main".to_vec(), 3);
    assert_eq!(cs.dump(), b"  in \"$main\", instruction 0\n".to_vec());
    cs.step();
    assert_eq!(cs.dump(), b"  in \"$main\", instruction 1\n".to_vec());
}

#[test]
fn unstep_gives_back_one_pending_instruction() {
    let mut cs = CallStack::new();
    cs.push(b"main".to_vec(), 2);
    cs.step();
    cs.unstep();
    assert_eq!(cs.dump(), b"  in \"$main\", instruction 0\n".to_vec());
}

#[test]
fn dump_indents_by_call_depth() {
    let mut cs = CallStack::new();
    cs.push(b"main".to_vec(), 1);
    cs.step();
    cs.push(b"helper".to_vec(), 12);
    cs.step();
    cs.step();
    let text = String::from_utf8(cs.dump()).unwrap();
    assert_eq!(
        text,
        "  in \"$main\", instruction 1\n    in \"$helper\", instruction 2\n"
    );
}

#[test]
fn propagate_pops_completed_frames() {
    let mut cs = CallStack::new();
    cs.push(b"main".to_vec(), 2);
    cs.step();
    cs.push(b"helper".to_vec(), 1);
    cs.step();
    cs.propagate();
    assert_eq!(cs.dump(), b"  in \"$main\", instruction 1\n".to_vec());
}

#[test]
fn propagate_never_pops_the_last_frame() {
    let mut cs = CallStack::new();
    cs.push(b"main".to_vec(), 1);
    cs.step();
    cs.propagate();
    assert_eq!(cs.dump(), b"  in \"$main\", instruction 1\n".to_vec());
}

#[test]
fn double_digit_indexes_render_in_decimal() {
    let mut cs = CallStack::new();
    cs.push(b"main".to_vec(), 30);
    for _ in 0..25 {
        cs.step();
    }
    assert_eq!(cs.dump(), b"  in \"$main\", instruction 25\n".to_vec());
}
