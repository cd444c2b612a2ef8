use code_editor::str_ext::{SplitAtIndices, StrExt};

#[test]
fn boundaries_are_character_boundaries() {
    let text = "aé";
    assert!(text.is_grapheme_boundary(0));
    assert!(text.is_grapheme_boundary(1));
    assert!(!text.is_grapheme_boundary(2));
    assert!(text.is_grapheme_boundary(3));
}

#[test]
fn next_boundary_skips_inside_a_character() {
    let text = "aé€";
    assert_eq!(text.next_grapheme_boundary(0), Some(1));
    assert_eq!(text.next_grapheme_boundary(1), Some(3));
    assert_eq!(text.next_grapheme_boundary(2), Some(3));
    assert_eq!(text.next_grapheme_boundary(3), Some(6));
    assert_eq!(text.next_grapheme_boundary(6), None);
    assert_eq!(text.next_grapheme_boundary(9), None);
}

#[test]
fn graphemes_are_characters() {
    let mut graphemes = "aé€".graphemes();
    assert_eq!(graphemes.next(), Some("a"));
    assert_eq!(graphemes.next(), Some("é"));
    assert_eq!(graphemes.next(), Some("€"));
    assert_eq!(graphemes.next(), None);
    assert_eq!("".graphemes().next(), None);
}

#[test]
fn grapheme_indices_give_byte_offsets() {
    let mut indices = "aé€b".grapheme_indices();
    assert_eq!(indices.next(), Some((0, "a")));
    assert_eq!(indices.next(), Some((1, "é")));
    assert_eq!(indices.next(), Some((3, "€")));
    assert_eq!(indices.next(), Some((6, "b")));
    assert_eq!(indices.next(), None);
}

#[test]
fn whitespace_runs() {
    let mut runs = "ab  \tcd e".split_at_whitespace_boundaries();
    assert_eq!(runs.next(), Some("ab"));
    assert_eq!(runs.next(), Some("  \t"));
    assert_eq!(runs.next(), Some("cd"));
    assert_eq!(runs.next(), Some(" "));
    assert_eq!(runs.next(), Some("e"));
    assert_eq!(runs.next(), None);
}

#[test]
fn whitespace_runs_of_empty_and_blank_text() {
    assert_eq!("".split_at_whitespace_boundaries().next(), None);
    let mut runs = " \u{3000}\n".split_at_whitespace_boundaries();
    assert_eq!(runs.next(), Some(" \u{3000}\n"));
    assert_eq!(runs.next(), None);
}

#[test]
fn split_at_indices_cuts_in_order() {
    let mut pieces = SplitAtIndices::new("héllo wörld", vec![1, 3, 7]);
    assert_eq!(pieces.next(), Some("h"));
    assert_eq!(pieces.next(), Some("é"));
    assert_eq!(pieces.next(), Some("llo "));
    assert_eq!(pieces.next(), Some("wörld"));
    assert_eq!(pieces.next(), None);
}

#[test]
fn split_at_indices_without_indices_gives_the_whole_text() {
    let mut pieces = SplitAtIndices::new("abc", vec![]);
    assert_eq!(pieces.next(), Some("abc"));
    assert_eq!(pieces.next(), None);
    let mut pieces = SplitAtIndices::new("ab", vec![0, 2]);
    assert_eq!(pieces.next(), Some(""));
    assert_eq!(pieces.next(), Some("ab"));
    assert_eq!(pieces.next(), Some(""));
    assert_eq!(pieces.next(), None);
}
