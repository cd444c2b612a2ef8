use code_editor::state::{Position, Selection, State, TokenKind, ViewId};

fn lines_of(state: &State, view: ViewId) -> Vec<String> {
    let context = state.context(view);
    let mut lines = context.lines();
    let mut out = Vec::new();
    while let Some(line) = lines.next() {
        let mut tokens = line.tokens();
        let mut text = String::new();
        while let Some(token) = tokens.next() {
            text.push_str(token.text);
        }
        out.push(text);
    }
    out
}

fn tokens_of(state: &State, view: ViewId, index: usize) -> Vec<(String, TokenKind)> {
    let context = state.context(view);
    let mut lines = context.lines();
    let mut k = 0;
    while let Some(line) = lines.next() {
        if k == index {
            let mut tokens = line.tokens();
            let mut out = Vec::new();
            while let Some(token) = tokens.next() {
                out.push((token.text.to_string(), token.kind));
            }
            return out;
        }
        k += 1;
    }
    panic!("no line {}", index);
}

#[test]
fn anonymous_view_has_one_empty_line() {
    let mut state = State::new();
    let view = state.create_view(None).unwrap();
    assert_eq!(lines_of(&state, view), vec![String::new()]);
    assert!(tokens_of(&state, view, 0).is_empty());
}

#[test]
fn unopened_path_needs_its_text() {
    let mut state = State::new();
    assert_eq!(state.create_view(Some("src/main.rs")), None);
}

#[test]
fn document_is_split_into_lines_and_tokenized() {
    let mut state = State::new();
    let bytes = b"fn main() {\r\n    /* open\n  close */ let x = \"s\";\n";
    let view = state.create_view_with_bytes(Some("main.rs".to_string()), bytes);
    assert_eq!(
        lines_of(&state, view),
        vec![
            "fn main() {".to_string(),
            "    /* open".to_string(),
            "  close */ let x = \"s\";".to_string(),
        ]
    );
    assert_eq!(
        tokens_of(&state, view, 0),
        vec![
            ("fn".to_string(), TokenKind::Keyword),
            (" ".to_string(), TokenKind::Unknown),
            ("main".to_string(), TokenKind::Identifier),
            ("(".to_string(), TokenKind::Unknown),
            (")".to_string(), TokenKind::Unknown),
            (" ".to_string(), TokenKind::Unknown),
            ("{".to_string(), TokenKind::Unknown),
        ]
    );
    let second = tokens_of(&state, view, 1);
    assert_eq!(second.last(), Some(&("/* open".to_string(), TokenKind::Comment)));
    let third = tokens_of(&state, view, 2);
    assert_eq!(third[0], ("  close */".to_string(), TokenKind::Comment));
    assert_eq!(third.last(), Some(&(";".to_string(), TokenKind::Unknown)));
    assert!(third.contains(&("\"s\"".to_string(), TokenKind::String)));
}

#[test]
fn tokens_rebuild_every_line() {
    let mut state = State::new();
    let text = "let é = \"ü\"; // ok\n\tr#\"ß\"#.len()\n/* ∀ x */ x";
    let view = state.create_view_with_bytes(None, text.as_bytes());
    let expected: Vec<String> = text.lines().map(|l| l.to_string()).collect();
    assert_eq!(lines_of(&state, view), expected);
}

#[test]
fn token_byte_counts_follow_utf8() {
    let mut state = State::new();
    let view = state.create_view_with_bytes(None, "\"é\"x".as_bytes());
    assert_eq!(tokens_of(&state, view, 0), vec![("\"é\"x".to_string(), TokenKind::String)]);
    let view = state.create_view_with_bytes(None, "é+".as_bytes());
    assert_eq!(
        tokens_of(&state, view, 0),
        vec![("é".to_string(), TokenKind::Unknown), ("+".to_string(), TokenKind::Unknown)]
    );
}

#[test]
fn invalid_bytes_are_replaced() {
    let mut state = State::new();
    let view = state.create_view_with_bytes(None, &[b'a', 0xff, b'b']);
    assert_eq!(lines_of(&state, view), vec!["a\u{fffd}b".to_string()]);
}

#[test]
fn no_bytes_give_one_empty_line() {
    let mut state = State::new();
    let view = state.create_view_with_bytes(Some("empty.rs".to_string()), &[]);
    assert_eq!(lines_of(&state, view), vec![String::new()]);
}

#[test]
fn trailing_newline_adds_no_line() {
    let mut state = State::new();
    let view = state.create_view_with_bytes(None, b"a\n\nb\n");
    assert_eq!(lines_of(&state, view), vec!["a".to_string(), String::new(), "b".to_string()]);
}

#[test]
fn views_on_one_path_share_the_document() {
    let mut state = State::new();
    let first = state.create_view_with_bytes(Some("a.rs".to_string()), b"struct A;");
    let second = state.create_view(Some("a.rs")).unwrap();
    assert_ne!(first, second);
    assert_eq!(lines_of(&state, second), vec!["struct A;".to_string()]);
    // The text handed with a path that is already open is not read again.
    let third = state.create_view_with_bytes(Some("a.rs".to_string()), b"other");
    assert_eq!(lines_of(&state, third), vec!["struct A;".to_string()]);
}

#[test]
fn document_lives_while_a_view_refers_to_it() {
    let mut state = State::new();
    let first = state.create_view_with_bytes(Some("a.rs".to_string()), b"x");
    let second = state.create_view(Some("a.rs")).unwrap();
    state.destroy_view(first);
    assert_eq!(lines_of(&state, second), vec!["x".to_string()]);
    assert!(state.create_view(Some("a.rs")).is_some());
}

#[test]
fn closing_the_last_view_forgets_the_path() {
    let mut state = State::new();
    let first = state.create_view_with_bytes(Some("a.rs".to_string()), b"old");
    let second = state.create_view(Some("a.rs")).unwrap();
    state.destroy_view(first);
    state.destroy_view(second);
    assert_eq!(state.create_view(Some("a.rs")), None);
    let again = state.create_view_with_bytes(Some("a.rs".to_string()), b"new");
    assert_eq!(lines_of(&state, again), vec!["new".to_string()]);
}

#[test]
fn anonymous_documents_are_never_shared() {
    let mut state = State::new();
    let first = state.create_view_with_bytes(None, b"one");
    let second = state.create_view_with_bytes(None, b"two");
    assert_eq!(lines_of(&state, first), vec!["one".to_string()]);
    assert_eq!(lines_of(&state, second), vec!["two".to_string()]);
    state.destroy_view(first);
    assert_eq!(lines_of(&state, second), vec!["two".to_string()]);
}

#[test]
fn fresh_state_has_ids_left() {
    assert!(State::new().has_ids_left());
}

#[test]
fn new_view_has_no_selections() {
    let mut state = State::new();
    let view = state.create_view_with_bytes(None, b"a\nb");
    let context = state.context(view);
    let mut lines = context.lines();
    while let Some(line) = lines.next() {
        assert_eq!(line.selections().next(), None);
    }
}

#[test]
fn selection_ends_are_ordered() {
    let selection = Selection {
        anchor: Position { line_index: 3, byte_index: 1 },
        cursor: Position { line_index: 1, byte_index: 7 },
    };
    assert_eq!(selection.start(), Position { line_index: 1, byte_index: 7 });
    assert_eq!(selection.end(), Position { line_index: 3, byte_index: 1 });
    let same_line = Selection {
        anchor: Position { line_index: 2, byte_index: 5 },
        cursor: Position { line_index: 2, byte_index: 4 },
    };
    assert_eq!(same_line.start(), Position { line_index: 2, byte_index: 4 });
    assert_eq!(same_line.end(), Position { line_index: 2, byte_index: 5 });
}

fn all_tokens(state: &State, view: ViewId) -> Vec<Vec<(String, TokenKind)>> {
    let count = lines_of(state, view).len();
    (0..count).map(|k| tokens_of(state, view, k)).collect()
}

#[test]
fn editing_a_line_matches_a_fresh_read() {
    let mut state = State::new();
    let view = state.create_view_with_bytes(None, b"a\n/* b\nc */ d\ne");
    state.set_line(view, 1, "b".to_string());
    let fresh = state.create_view_with_bytes(None, b"a\nb\nc */ d\ne");
    assert_eq!(lines_of(&state, view), lines_of(&state, fresh));
    assert_eq!(all_tokens(&state, view), all_tokens(&state, fresh));
    assert_eq!(tokens_of(&state, view, 2)[0], ("c".to_string(), TokenKind::Identifier));
}

#[test]
fn opening_a_comment_reaches_the_lines_below() {
    let mut state = State::new();
    let view = state.create_view_with_bytes(None, b"x\ny\nz */ w\nv");
    state.set_line(view, 0, "/* x".to_string());
    assert_eq!(tokens_of(&state, view, 1), vec![("y".to_string(), TokenKind::Comment)]);
    assert_eq!(tokens_of(&state, view, 2)[0], ("z */".to_string(), TokenKind::Comment));
    assert_eq!(tokens_of(&state, view, 3), vec![("v".to_string(), TokenKind::Identifier)]);
    let fresh = state.create_view_with_bytes(None, b"/* x\ny\nz */ w\nv");
    assert_eq!(all_tokens(&state, view), all_tokens(&state, fresh));
}

#[test]
fn edit_is_seen_by_every_view_of_the_document() {
    let mut state = State::new();
    let first = state.create_view_with_bytes(Some("e.rs".to_string()), b"let a;\nlet b;");
    let second = state.create_view(Some("e.rs")).unwrap();
    state.set_line(first, 1, "fn b() {}".to_string());
    assert_eq!(
        lines_of(&state, second),
        vec!["let a;".to_string(), "fn b() {}".to_string()]
    );
}

fn position(line_index: usize, byte_index: usize) -> Position {
    Position { line_index, byte_index }
}

fn ranges_per_line(state: &State, view: ViewId) -> Vec<Vec<std::ops::Range<usize>>> {
    let context = state.context(view);
    let mut lines = context.lines();
    let mut out = Vec::new();
    while let Some(line) = lines.next() {
        let mut selections = line.selections();
        let mut ranges = Vec::new();
        while let Some(range) = selections.next() {
            ranges.push(range);
        }
        out.push(ranges);
    }
    out
}

#[test]
fn selections_are_projected_onto_lines() {
    let mut state = State::new();
    let view = state.create_view_with_bytes(None, b"abcd\nef\nghi\njklm");
    state.set_selections(
        view,
        vec![
            Selection { anchor: position(3, 0), cursor: position(3, 2) },
            Selection { anchor: position(2, 1), cursor: position(0, 3) },
        ],
    );
    assert_eq!(
        ranges_per_line(&state, view),
        vec![vec![3..4], vec![0..2], vec![0..1], vec![0..2]]
    );
}

#[test]
fn selection_inside_one_line() {
    let mut state = State::new();
    let view = state.create_view_with_bytes(None, b"one\ntwo\nthree");
    state.set_selections(view, vec![Selection { anchor: position(1, 2), cursor: position(1, 1) }]);
    assert_eq!(ranges_per_line(&state, view), vec![vec![], vec![1..2], vec![]]);
}
