use rb64::frontend::{convert, drag_step, get_label_for_mode, join_lines, status_label, DragEvent, Op};

#[test]
fn mode_labels() {
    assert_eq!(get_label_for_mode(Op::Encode), "[Encode]");
    assert_eq!(get_label_for_mode(Op::Decode), "[Decode]");
    assert_eq!(status_label(Op::Decode, None), "[Decode]");
    assert_eq!(status_label(Op::Encode, Some("Saved to x")), "[Encode]: Saved to x");
}

#[test]
fn lines_are_joined() {
    assert_eq!(join_lines(&[]), "");
    assert_eq!(join_lines(&["one".to_string()]), "one");
    let lines = vec!["a".to_string(), "".to_string(), "b c".to_string()];
    assert_eq!(join_lines(&lines), "a\n\nb c");
}

#[test]
fn convert_both_ways() {
    assert_eq!(convert(Op::Encode, "Hello world!").unwrap(), "SGVsbG8gd29ybGQh");
    assert_eq!(convert(Op::Decode, "SGVsbG8gd29ybGQh").unwrap(), "Hello world!");
    assert_eq!(convert(Op::Encode, "ñ").unwrap(), "w7E=");
    assert_eq!(convert(Op::Decode, "w7E=").unwrap(), "ñ");
}

#[test]
fn convert_errors() {
    assert_eq!(
        convert(Op::Decode, "ab?").unwrap_err(),
        "ERROR: Unknown character to decode: '?'"
    );
    let err = convert(Op::Decode, "/w==").unwrap_err();
    assert_eq!(err, "ERROR: invalid utf-8 sequence of 1 bytes from index 0");
}

#[test]
fn dragging_the_divider() {
    assert_eq!(drag_step(false, DragEvent::Push, 0, 10, 400, 390), (true, true, None));
    assert_eq!(drag_step(true, DragEvent::Drag, 300, 10, 400, 390), (true, true, Some((290, 486))));
    assert_eq!(drag_step(true, DragEvent::Drag, 55, 10, 400, 390), (true, true, None));
    assert_eq!(drag_step(true, DragEvent::Drag, 741, 10, 400, 390), (true, true, None));
    assert_eq!(drag_step(true, DragEvent::Drag, 740, 10, 400, 390), (true, true, Some((730, 46))));
    assert_eq!(drag_step(false, DragEvent::Drag, 300, 10, 400, 390), (false, false, None));
    assert_eq!(drag_step(true, DragEvent::Released, 300, 10, 400, 390), (false, true, None));
    assert_eq!(drag_step(true, DragEvent::Other, 300, 10, 400, 390), (true, false, None));
}
