use code_editor::tokenizer::{
    BlockCommentTailState, Cursor, DoubleQuotedStringTailState, InitialState,
    RawDoubleQuotedStringTailState, State, Token, TokenKind,
};

fn lex(state: State, text: &str) -> (Vec<Token>, State) {
    let chars: Vec<char> = text.chars().collect();
    state.tokenize(&chars)
}

fn initial() -> State {
    State::Initial(InitialState)
}

#[test]
fn keyword_needs_a_boundary() {
    let (tokens, end) = lex(initial(), "structure");
    assert_eq!(tokens, vec![Token { len: 9, kind: TokenKind::Identifier }]);
    assert_eq!(end, initial());
}

#[test]
fn reserved_words_are_keywords() {
    let (tokens, _) = lex(initial(), "struct");
    assert_eq!(tokens, vec![Token { len: 6, kind: TokenKind::Keyword }]);
    let (tokens, _) = lex(initial(), "fn main");
    assert_eq!(
        tokens,
        vec![
            Token { len: 2, kind: TokenKind::Keyword },
            Token { len: 1, kind: TokenKind::Unknown },
            Token { len: 4, kind: TokenKind::Identifier },
        ]
    );
    let (tokens, _) = lex(initial(), "async await yield");
    assert_eq!(tokens[0], Token { len: 5, kind: TokenKind::Keyword });
    assert_eq!(tokens[2], Token { len: 5, kind: TokenKind::Keyword });
    assert_eq!(tokens[4], Token { len: 5, kind: TokenKind::Keyword });
}

#[test]
fn identifier_keeps_digits_and_underscores() {
    let (tokens, _) = lex(initial(), "_x1 fn2");
    assert_eq!(
        tokens,
        vec![
            Token { len: 3, kind: TokenKind::Identifier },
            Token { len: 1, kind: TokenKind::Unknown },
            Token { len: 3, kind: TokenKind::Identifier },
        ]
    );
}

#[test]
fn nested_block_comment_on_one_line() {
    let text = "/* a /* b */ c */";
    let (tokens, end) = lex(initial(), text);
    assert_eq!(tokens, vec![Token { len: 17, kind: TokenKind::Comment }]);
    assert_eq!(end, initial());
}

#[test]
fn block_comment_across_lines() {
    let (tokens, end) = lex(initial(), "/* start");
    assert_eq!(tokens, vec![Token { len: 8, kind: TokenKind::Comment }]);
    assert_eq!(end, State::BlockCommentTail(BlockCommentTailState { depth: 0 }));
    let (tokens, end) = lex(end, " end */");
    assert_eq!(tokens, vec![Token { len: 7, kind: TokenKind::Comment }]);
    assert_eq!(end, initial());
}

#[test]
fn nested_comment_stays_open_with_its_depth() {
    let (tokens, end) = lex(initial(), "/* a /* b");
    assert_eq!(tokens, vec![Token { len: 9, kind: TokenKind::Comment }]);
    assert_eq!(end, State::BlockCommentTail(BlockCommentTailState { depth: 1 }));
    let (tokens, end) = lex(end, "*/ x */ y");
    assert_eq!(
        tokens,
        vec![
            Token { len: 7, kind: TokenKind::Comment },
            Token { len: 1, kind: TokenKind::Unknown },
            Token { len: 1, kind: TokenKind::Identifier },
        ]
    );
    assert_eq!(end, initial());
}

#[test]
fn raw_string_with_hashes() {
    let (tokens, end) = lex(initial(), "r##\"hi\"##");
    assert_eq!(tokens, vec![Token { len: 9, kind: TokenKind::String }]);
    assert_eq!(end, initial());
}

#[test]
fn raw_string_ignores_a_quote_with_too_few_hashes() {
    let (tokens, end) = lex(initial(), "r##\"a\"#b\"##");
    assert_eq!(tokens, vec![Token { len: 11, kind: TokenKind::String }]);
    assert_eq!(end, initial());
}

#[test]
fn raw_string_without_hashes() {
    let (tokens, end) = lex(initial(), "r\"x\" y");
    assert_eq!(tokens[0], Token { len: 4, kind: TokenKind::String });
    assert_eq!(end, initial());
}

#[test]
fn raw_string_across_lines() {
    let (tokens, end) = lex(initial(), "r#\"one");
    assert_eq!(tokens, vec![Token { len: 6, kind: TokenKind::String }]);
    assert_eq!(
        end,
        State::RawDoubleQuotedStringTail(RawDoubleQuotedStringTailState { start_hash_count: 1 })
    );
    let (tokens, end) = lex(end, "two\"#;");
    assert_eq!(
        tokens,
        vec![Token { len: 5, kind: TokenKind::String }, Token { len: 1, kind: TokenKind::Unknown }]
    );
    assert_eq!(end, initial());
}

#[test]
fn r_without_quote_is_an_identifier() {
    let (tokens, _) = lex(initial(), "r#x");
    assert_eq!(
        tokens,
        vec![
            Token { len: 1, kind: TokenKind::Identifier },
            Token { len: 1, kind: TokenKind::Unknown },
            Token { len: 1, kind: TokenKind::Identifier },
        ]
    );
}

#[test]
fn string_with_escaped_quote_and_suffix() {
    let (tokens, end) = lex(initial(), "\"a\\\"b\"xyz;");
    assert_eq!(
        tokens,
        vec![Token { len: 9, kind: TokenKind::String }, Token { len: 1, kind: TokenKind::Unknown }]
    );
    assert_eq!(end, initial());
}

#[test]
fn string_across_lines() {
    let (tokens, end) = lex(initial(), "let s = \"abc");
    assert_eq!(tokens.last(), Some(&Token { len: 4, kind: TokenKind::String }));
    assert_eq!(end, State::DoubleQuotedStringTail(DoubleQuotedStringTailState));
    let (tokens, end) = lex(end, "def\";");
    assert_eq!(
        tokens,
        vec![Token { len: 4, kind: TokenKind::String }, Token { len: 1, kind: TokenKind::Unknown }]
    );
    assert_eq!(end, initial());
}

#[test]
fn empty_chunk_has_no_tokens_and_keeps_the_state() {
    let open = State::BlockCommentTail(BlockCommentTailState { depth: 2 });
    let (tokens, end) = lex(open, "");
    assert!(tokens.is_empty());
    assert_eq!(end, open);
}

#[test]
fn unknown_characters_one_at_a_time() {
    let (tokens, _) = lex(initial(), "+é ");
    assert_eq!(
        tokens,
        vec![
            Token { len: 1, kind: TokenKind::Unknown },
            Token { len: 1, kind: TokenKind::Unknown },
            Token { len: 1, kind: TokenKind::Unknown },
        ]
    );
}

#[test]
fn a_nul_character_is_input_like_any_other() {
    let (tokens, _) = lex(initial(), "a\0b");
    assert_eq!(tokens.len(), 3);
    assert_eq!(tokens[1], Token { len: 1, kind: TokenKind::Unknown });
}

#[test]
fn tokens_cover_the_chunk() {
    let text = "fn f(x: &str) -> u8 { /* c */ \"s\" r#\"t\"# 'q' }";
    let (tokens, _) = lex(initial(), text);
    let total: usize = tokens.iter().map(|t| t.len).sum();
    assert_eq!(total, text.chars().count());
    assert!(tokens.iter().all(|t| t.len > 0));
}

#[test]
fn lexing_twice_gives_the_same_result() {
    let text = "/* x */ let y = r\"z\";";
    let first = lex(initial(), text);
    let second = lex(initial(), text);
    assert_eq!(first, second);
    let open = State::DoubleQuotedStringTail(DoubleQuotedStringTailState);
    assert_eq!(lex(open, text), lex(open, text));
}

#[test]
fn next_reads_one_token_at_a_time() {
    let chars: Vec<char> = "ab /*".chars().collect();
    let mut cursor = Cursor::new(&chars);
    let (state, token) = initial().next(&mut cursor);
    assert_eq!(token, Some(Token { len: 2, kind: TokenKind::Identifier }));
    let (state, token) = state.next(&mut cursor);
    assert_eq!(token, Some(Token { len: 1, kind: TokenKind::Unknown }));
    let (state, token) = state.next(&mut cursor);
    assert_eq!(token, Some(Token { len: 2, kind: TokenKind::Comment }));
    assert_eq!(state, State::BlockCommentTail(BlockCommentTailState { depth: 0 }));
    let (last, token) = state.next(&mut cursor);
    assert_eq!(token, None);
    assert_eq!(last, state);
}

#[test]
fn default_state_is_initial() {
    assert_eq!(State::default(), initial());
}
