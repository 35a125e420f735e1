use turtle::{count_indentation, Command, Scope, Script};

#[test]
fn parse_simple_script() {
    let cmds = Script::parse(b"move 50\nturn 90\nmove 50\nturn 90").unwrap();
    assert_eq!(
        cmds,
        vec![
            Command::Move(Scope(0), 50),
            Command::Turn(Scope(0), 90),
            Command::Move(Scope(0), 50),
            Command::Turn(Scope(0), 90),
        ]
    );
}

#[test]
fn parse_is_deterministic() {
    // re-parsing identical script text yields identical command sequences
    let text = b"move 3\n\tturn -45\n\trepeat 2\nmove 1";
    let first = Script::parse(text).unwrap();
    let second = Script::parse(text).unwrap();
    assert_eq!(first, second);
}

#[test]
fn parse_skips_blank_lines() {
    let cmds = Script::parse(b"\nmove 1\n\n\nturn 2\n").unwrap();
    assert_eq!(cmds, vec![Command::Move(Scope(0), 1), Command::Turn(Scope(0), 2)]);
}

#[test]
fn parse_counts_indentation_as_scope() {
    let cmds = Script::parse(b"move 1\n\tmove 2\n\t\trepeat 3").unwrap();
    assert_eq!(
        cmds,
        vec![
            Command::Move(Scope(0), 1),
            Command::Move(Scope(1), 2),
            Command::Repeat(Scope(2), 3),
        ]
    );
}

#[test]
fn parse_signed_arguments() {
    let cmds = Script::parse(b"turn -90\nmove +7").unwrap();
    assert_eq!(cmds, vec![Command::Turn(Scope(0), -90), Command::Move(Scope(0), 7)]);
}

#[test]
fn parse_handles_crlf_line_endings() {
    let cmds = Script::parse(b"move 1\r\nturn 2\r\n").unwrap();
    assert_eq!(cmds, vec![Command::Move(Scope(0), 1), Command::Turn(Scope(0), 2)]);
}

#[test]
fn parse_ignores_extra_tokens() {
    let cmds = Script::parse(b"move 5 onwards").unwrap();
    assert_eq!(cmds, vec![Command::Move(Scope(0), 5)]);
}

#[test]
fn parse_rejects_unknown_keyword() {
    let err = Script::parse(b"hop 5").unwrap_err();
    assert_eq!(err.line, 0);
}

#[test]
fn parse_rejects_missing_argument() {
    assert_eq!(Script::parse(b"move").unwrap_err().line, 0);
    assert_eq!(Script::parse(b"   ").unwrap_err().line, 0);
    assert_eq!(Script::parse(b"\t").unwrap_err().line, 0);
}

#[test]
fn parse_rejects_bad_integers() {
    assert!(Script::parse(b"move 5x").is_err());
    assert!(Script::parse(b"move --3").is_err());
    assert!(Script::parse(b"move -").is_err());
}

#[test]
fn parse_rejects_arguments_out_of_range() {
    assert!(Script::parse(b"move 2147483648").is_err());
    assert!(Script::parse(b"move -2147483649").is_err());
    let cmds = Script::parse(b"move 2147483647\nturn -2147483648").unwrap();
    assert_eq!(
        cmds,
        vec![Command::Move(Scope(0), 2147483647), Command::Turn(Scope(0), -2147483648)]
    );
}

#[test]
fn parse_error_reports_nonblank_line_index() {
    // the offending instruction is the second non-blank line
    let err = Script::parse(b"move 1\n\nmve 2").unwrap_err();
    assert_eq!(err.line, 1);
}

#[test]
fn parse_failure_yields_no_sequence() {
    // a bad script never partially applies: the caller keeps its previous
    // sequence, and nothing of the new text comes through
    assert!(Script::parse(b"move 1\nmove 2\nbad").is_err());
}

#[test]
fn count_indentation_counts_leading_tabs() {
    assert_eq!(count_indentation(b"move 1"), 0);
    assert_eq!(count_indentation(b"\t\tmove 1"), 2);
    assert_eq!(count_indentation(b"\t\t"), 2);
    assert_eq!(count_indentation(b""), 0);
}

#[test]
fn script_update_detects_new_marker() {
    let mut script = Script::new(5);
    assert!(!script.update(5));
    assert!(script.update(7));
    assert_eq!(script.last_modified, 7);
    assert!(!script.update(7));
}
