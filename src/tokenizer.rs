//! A resumable tokenizer for Rust-like source text.
//!
//! The tokenizer works on one chunk of characters at a time (usually a line). Each call of
//! [`State::next`] consumes one token from a [`Cursor`] and hands back the state to resume in.
//! Block comments and strings may stay open at the end of a chunk: the returned state then
//! carries what is needed to continue in the next chunk.
use vstd::prelude::*;

verus! {

// ---------------------------------------------------------------------------------------------
// Character classes
// ---------------------------------------------------------------------------------------------

/// An identifier starts with an ASCII letter or an underscore.
pub open spec fn is_identifier_start(c: char) -> bool {
    ('A' <= c && c <= 'Z') || ('a' <= c && c <= 'z') || c == '_'
}

/// An identifier continues with an ASCII letter, an ASCII digit or an underscore.
pub open spec fn is_identifier_continue(c: char) -> bool {
    is_identifier_start(c) || ('0' <= c && c <= '9')
}

fn char_is_identifier_start(c: char) -> (r: bool)
    ensures
        r == is_identifier_start(c),
{
    match c {
        'A'..='Z' | '_' | 'a'..='z' => true,
        _ => false,
    }
}

fn char_is_identifier_continue(c: char) -> (r: bool)
    ensures
        r == is_identifier_continue(c),
{
    match c {
        '0'..='9' | 'A'..='Z' | '_' | 'a'..='z' => true,
        _ => false,
    }
}

// ---------------------------------------------------------------------------------------------
// Reserved words
// ---------------------------------------------------------------------------------------------

/// Number of entries in the reserved-word table.
pub const KEYWORD_COUNT: usize = 49;

/// The `k`-th entry of the reserved-word table.
pub open spec fn keyword_text(k: int) -> Seq<char> {
    if k == 0 { "abstract"@ }
    else if k == 1 { "as"@ }
    else if k == 2 { "async"@ }
    else if k == 3 { "await"@ }
    else if k == 4 { "become"@ }
    else if k == 5 { "box"@ }
    else if k == 6 { "break"@ }
    else if k == 7 { "const"@ }
    else if k == 8 { "continue"@ }
    else if k == 9 { "crate"@ }
    else if k == 10 { "do"@ }
    else if k == 11 { "dyn"@ }
    else if k == 12 { "else"@ }
    else if k == 13 { "enum"@ }
    else if k == 14 { "extern"@ }
    else if k == 15 { "false"@ }
    else if k == 16 { "final"@ }
    else if k == 17 { "fn"@ }
    else if k == 18 { "for"@ }
    else if k == 19 { "if"@ }
    else if k == 20 { "impl"@ }
    else if k == 21 { "in"@ }
    else if k == 22 { "let"@ }
    else if k == 23 { "loop"@ }
    else if k == 24 { "macro"@ }
    else if k == 25 { "match"@ }
    else if k == 26 { "mod"@ }
    else if k == 27 { "move"@ }
    else if k == 28 { "mut"@ }
    else if k == 29 { "override"@ }
    else if k == 30 { "priv"@ }
    else if k == 31 { "pub"@ }
    else if k == 32 { "ref"@ }
    else if k == 33 { "return"@ }
    else if k == 34 { "self"@ }
    else if k == 35 { "static"@ }
    else if k == 36 { "struct"@ }
    else if k == 37 { "super"@ }
    else if k == 38 { "trait"@ }
    else if k == 39 { "true"@ }
    else if k == 40 { "type"@ }
    else if k == 41 { "typeof"@ }
    else if k == 42 { "unsafe"@ }
    else if k == 43 { "unsized"@ }
    else if k == 44 { "use"@ }
    else if k == 45 { "virtual"@ }
    else if k == 46 { "where"@ }
    else if k == 47 { "while"@ }
    else { "yield"@ }
}

/// A word is reserved when it is one of the table's entries.
pub open spec fn is_keyword(word: Seq<char>) -> bool {
    exists|k: int| 0 <= k < KEYWORD_COUNT && #[trigger] keyword_text(k) == word
}

fn keyword(k: usize) -> (r: &'static str)
    requires
        k < KEYWORD_COUNT,
    ensures
        r@ == keyword_text(k as int),
{
    match k {
        0 => "abstract",
        1 => "as",
        2 => "async",
        3 => "await",
        4 => "become",
        5 => "box",
        6 => "break",
        7 => "const",
        8 => "continue",
        9 => "crate",
        10 => "do",
        11 => "dyn",
        12 => "else",
        13 => "enum",
        14 => "extern",
        15 => "false",
        16 => "final",
        17 => "fn",
        18 => "for",
        19 => "if",
        20 => "impl",
        21 => "in",
        22 => "let",
        23 => "loop",
        24 => "macro",
        25 => "match",
        26 => "mod",
        27 => "move",
        28 => "mut",
        29 => "override",
        30 => "priv",
        31 => "pub",
        32 => "ref",
        33 => "return",
        34 => "self",
        35 => "static",
        36 => "struct",
        37 => "super",
        38 => "trait",
        39 => "true",
        40 => "type",
        41 => "typeof",
        42 => "unsafe",
        43 => "unsized",
        44 => "use",
        45 => "virtual",
        46 => "where",
        47 => "while",
        _ => "yield",
    }
}

/// Whether `chars[start..end]` spells `word`.
fn spells(chars: &[char], start: usize, end: usize, word: &str) -> (r: bool)
    requires
        start <= end <= chars@.len(),
    ensures
        r == (chars@.subrange(start as int, end as int) == word@),
{
    let n = word.unicode_len();
    if n != end - start {
        return false;
    }
    let mut p: usize = 0;
    while p < n
        invariant
            start <= end <= chars@.len(),
            n == end - start,
            n == word@.len(),
            p <= n,
            forall|q: int| 0 <= q < p ==> chars@[start + q] == word@[q],
        decreases n - p,
    {
        if chars[start + p] != word.get_char(p) {
            assert(chars@.subrange(start as int, end as int)[p as int] != word@[p as int]);
            return false;
        }
        p = p + 1;
    }
    assert(chars@.subrange(start as int, end as int) =~= word@);
    true
}

/// Looks `chars[start..end]` up in the reserved-word table.
fn lookup_keyword(chars: &[char], start: usize, end: usize) -> (r: bool)
    requires
        start <= end <= chars@.len(),
    ensures
        r == is_keyword(chars@.subrange(start as int, end as int)),
{
    let ghost word = chars@.subrange(start as int, end as int);
    let mut k: usize = 0;
    while k < KEYWORD_COUNT
        invariant
            start <= end <= chars@.len(),
            word == chars@.subrange(start as int, end as int),
            k <= KEYWORD_COUNT,
            forall|j: int| 0 <= j < k ==> keyword_text(j) != word,
        decreases KEYWORD_COUNT - k,
    {
        if spells(chars, start, end, keyword(k)) {
            return true;
        }
        k = k + 1;
    }
    assert(!is_keyword(word)) by {
        assert forall|j: int| 0 <= j < KEYWORD_COUNT implies #[trigger] keyword_text(j) != word by {}
    }
    false
}

// ---------------------------------------------------------------------------------------------
// The model: how far each kind of token reaches
// ---------------------------------------------------------------------------------------------

/// The character at `i`, or `None` past either end of `s`.
pub open spec fn char_at(s: Seq<char>, i: int) -> Option<char> {
    if 0 <= i < s.len() {
        Some(s[i])
    } else {
        None
    }
}

/// Whether `s` holds `c` at `i`.
pub open spec fn char_is(s: Seq<char>, i: int, c: char) -> bool {
    char_at(s, i) == Some(c)
}

/// The end of the run of identifier-continue characters that starts at `i`.
pub open spec fn identifier_end(s: Seq<char>, i: int) -> int
    decreases s.len() - i,
{
    if 0 <= i < s.len() && is_identifier_continue(s[i]) {
        identifier_end(s, i + 1)
    } else {
        i
    }
}

/// The end of an optional type suffix (an identifier) that may follow a string at `i`.
pub open spec fn suffix_end(s: Seq<char>, i: int) -> int {
    if 0 <= i < s.len() && is_identifier_start(s[i]) {
        identifier_end(s, i + 1)
    } else {
        i
    }
}

/// The end of the run of `#` characters that starts at `i`.
pub open spec fn hash_run_end(s: Seq<char>, i: int) -> int
    decreases s.len() - i,
{
    if 0 <= i < s.len() && s[i] == '#' {
        hash_run_end(s, i + 1)
    } else {
        i
    }
}

/// A nesting depth one deeper; the count stops at `usize::MAX`, which no text held in memory
/// can reach.
pub open spec fn deeper(depth: usize) -> usize {
    if depth < usize::MAX {
        (depth + 1) as usize
    } else {
        depth
    }
}

/// Scans the rest of a block comment from `i`, inside `depth` unmatched inner openers.
/// Gives the state after the scan and where it stopped.
pub open spec fn block_comment_scan(s: Seq<char>, i: int, depth: usize) -> (State, int)
    decreases s.len() - i,
{
    if i < 0 || i >= s.len() {
        (State::BlockCommentTail(BlockCommentTailState { depth }), i)
    } else if s[i] == '/' && char_is(s, i + 1, '*') {
        block_comment_scan(s, i + 2, deeper(depth))
    } else if s[i] == '*' && char_is(s, i + 1, '/') {
        if depth == 0 {
            (State::Initial(InitialState), i + 2)
        } else {
            block_comment_scan(s, i + 2, (depth - 1) as usize)
        }
    } else {
        block_comment_scan(s, i + 1, depth)
    }
}

/// Scans the rest of a double-quoted string from `i`.
pub open spec fn string_scan(s: Seq<char>, i: int) -> (State, int)
    decreases s.len() - i,
{
    if i < 0 || i >= s.len() {
        (State::DoubleQuotedStringTail(DoubleQuotedStringTailState), i)
    } else if s[i] == '"' {
        (State::Initial(InitialState), suffix_end(s, i + 1))
    } else if s[i] == '\\' && char_is(s, i + 1, '"') {
        string_scan(s, i + 2)
    } else {
        string_scan(s, i + 1)
    }
}

/// Whether a raw string opened with `n` hashes closes at `i`: a `"` followed by `n` hashes.
pub open spec fn closes_raw(s: Seq<char>, i: int, n: usize) -> bool {
    &&& char_is(s, i, '"')
    &&& i + 1 + n <= s.len()
    &&& forall|k: int| i + 1 <= k < i + 1 + n ==> s[k] == '#'
}

/// Scans the rest of a raw string opened with `n` hashes from `i`.
pub open spec fn raw_string_scan(s: Seq<char>, i: int, n: usize) -> (State, int)
    decreases s.len() - i,
{
    if i < 0 || i >= s.len() {
        (
            State::RawDoubleQuotedStringTail(RawDoubleQuotedStringTailState { start_hash_count: n }),
            i,
        )
    } else if closes_raw(s, i, n) {
        (State::Initial(InitialState), suffix_end(s, i + 1 + n))
    } else {
        raw_string_scan(s, i + 1, n)
    }
}

/// Whether a raw string opens at `i`: an `r`, any number of hashes, then a `"`.
pub open spec fn opens_raw(s: Seq<char>, i: int) -> bool {
    char_is(s, i, 'r') && char_is(s, hash_run_end(s, i + 1), '"')
}

/// One token read from `i` outside any open construct: the state after it, its kind and its end.
pub open spec fn initial_step(s: Seq<char>, i: int) -> (State, TokenKind, int) {
    if char_is(s, i, '/') && char_is(s, i + 1, '*') {
        let (next, end) = block_comment_scan(s, i + 2, 0);
        (next, TokenKind::Comment, end)
    } else if char_is(s, i, '"') {
        let (next, end) = string_scan(s, i + 1);
        (next, TokenKind::String, end)
    } else if opens_raw(s, i) {
        let quote = hash_run_end(s, i + 1);
        let (next, end) = raw_string_scan(s, quote + 1, (quote - (i + 1)) as usize);
        (next, TokenKind::String, end)
    } else if 0 <= i < s.len() && is_identifier_start(s[i]) {
        let end = identifier_end(s, i + 1);
        let kind = if is_keyword(s.subrange(i, end)) {
            TokenKind::Keyword
        } else {
            TokenKind::Identifier
        };
        (State::Initial(InitialState), kind, end)
    } else {
        (State::Initial(InitialState), TokenKind::Unknown, i + 1)
    }
}

/// One token read from `i` in state `state`: the state after it, its kind and its end.
pub open spec fn step(state: State, s: Seq<char>, i: int) -> (State, TokenKind, int) {
    match state {
        State::Initial(_) => initial_step(s, i),
        State::BlockCommentTail(tail) => {
            let (next, end) = block_comment_scan(s, i, tail.depth);
            (next, TokenKind::Comment, end)
        },
        State::DoubleQuotedStringTail(_) => {
            let (next, end) = string_scan(s, i);
            (next, TokenKind::String, end)
        },
        State::RawDoubleQuotedStringTail(tail) => {
            let (next, end) = raw_string_scan(s, i, tail.start_hash_count);
            (next, TokenKind::String, end)
        },
    }
}

/// The tokens of `s` from `i` on, read from state `state`, and the state at the end of `s`.
pub open spec fn lex(state: State, s: Seq<char>, i: int) -> (Seq<Token>, State)
    decreases s.len() - i,
{
    if i < 0 || i >= s.len() {
        (Seq::empty(), state)
    } else {
        let taken = step(state, s, i);
        if taken.2 <= i || taken.2 > s.len() {
            (Seq::empty(), state)
        } else {
            let rest = lex(taken.0, s, taken.2);
            (seq![Token { len: (taken.2 - i) as usize, kind: taken.1 }] + rest.0, rest.1)
        }
    }
}

/// The tokens of a whole chunk `s` read from `state`, and the state to resume in.
#[verifier::opaque]
pub open spec fn lex_chunk(state: State, s: Seq<char>) -> (Seq<Token>, State) {
    lex(state, s, 0)
}

/// The total length of a token sequence.
pub open spec fn total_len(tokens: Seq<Token>) -> int
    decreases tokens.len(),
{
    if tokens.len() == 0 {
        0
    } else {
        tokens[0].len + total_len(tokens.drop_first())
    }
}

// ---------------------------------------------------------------------------------------------
// Proofs about the model
// ---------------------------------------------------------------------------------------------

proof fn lemma_identifier_end(s: Seq<char>, i: int)
    requires
        0 <= i <= s.len(),
    ensures
        i <= identifier_end(s, i) <= s.len(),
        forall|k: int| i <= k < identifier_end(s, i) ==> is_identifier_continue(s[k]),
    decreases s.len() - i,
{
    if i < s.len() && is_identifier_continue(s[i]) {
        lemma_identifier_end(s, i + 1);
    }
}

proof fn lemma_suffix_end(s: Seq<char>, i: int)
    requires
        0 <= i <= s.len(),
    ensures
        i <= suffix_end(s, i) <= s.len(),
{
    if i < s.len() && is_identifier_start(s[i]) {
        lemma_identifier_end(s, i + 1);
    }
}

proof fn lemma_hash_run_end(s: Seq<char>, i: int)
    requires
        0 <= i <= s.len(),
    ensures
        i <= hash_run_end(s, i) <= s.len(),
        forall|k: int| i <= k < hash_run_end(s, i) ==> s[k] == '#',
        !char_is(s, hash_run_end(s, i), '#'),
    decreases s.len() - i,
{
    if i < s.len() && s[i] == '#' {
        lemma_hash_run_end(s, i + 1);
    }
}

proof fn lemma_block_comment_scan(s: Seq<char>, i: int, depth: usize)
    requires
        0 <= i <= s.len(),
    ensures
        i <= block_comment_scan(s, i, depth).1 <= s.len(),
        i < s.len() ==> i < block_comment_scan(s, i, depth).1,
    decreases s.len() - i,
{
    if i < s.len() {
        if s[i] == '/' && char_is(s, i + 1, '*') {
            lemma_block_comment_scan(s, i + 2, deeper(depth));
        } else if s[i] == '*' && char_is(s, i + 1, '/') {
            if depth != 0 {
                lemma_block_comment_scan(s, i + 2, (depth - 1) as usize);
            }
        } else {
            lemma_block_comment_scan(s, i + 1, depth);
        }
    }
}

proof fn lemma_string_scan(s: Seq<char>, i: int)
    requires
        0 <= i <= s.len(),
    ensures
        i <= string_scan(s, i).1 <= s.len(),
        i < s.len() ==> i < string_scan(s, i).1,
    decreases s.len() - i,
{
    if i < s.len() {
        if s[i] == '"' {
            lemma_suffix_end(s, i + 1);
        } else if s[i] == '\\' && char_is(s, i + 1, '"') {
            lemma_string_scan(s, i + 2);
        } else {
            lemma_string_scan(s, i + 1);
        }
    }
}

proof fn lemma_raw_string_scan(s: Seq<char>, i: int, n: usize)
    requires
        0 <= i <= s.len(),
    ensures
        i <= raw_string_scan(s, i, n).1 <= s.len(),
        i < s.len() ==> i < raw_string_scan(s, i, n).1,
    decreases s.len() - i,
{
    if i < s.len() {
        if closes_raw(s, i, n) {
            lemma_suffix_end(s, i + 1 + n);
        } else {
            lemma_raw_string_scan(s, i + 1, n);
        }
    }
}

/// Every step reads at least one character and stays inside the chunk.
pub proof fn lemma_step_progress(state: State, s: Seq<char>, i: int)
    requires
        0 <= i < s.len(),
    ensures
        i < step(state, s, i).2 <= s.len(),
{
    match state {
        State::Initial(_) => {
            if char_is(s, i, '/') && char_is(s, i + 1, '*') {
                lemma_block_comment_scan(s, i + 2, 0);
            } else if char_is(s, i, '"') {
                lemma_string_scan(s, i + 1);
            } else if opens_raw(s, i) {
                lemma_hash_run_end(s, i + 1);
                let quote = hash_run_end(s, i + 1);
                lemma_raw_string_scan(s, quote + 1, (quote - (i + 1)) as usize);
            } else if is_identifier_start(s[i]) {
                lemma_identifier_end(s, i + 1);
            }
        },
        State::BlockCommentTail(tail) => lemma_block_comment_scan(s, i, tail.depth),
        State::DoubleQuotedStringTail(_) => lemma_string_scan(s, i),
        State::RawDoubleQuotedStringTail(tail) => lemma_raw_string_scan(
            s,
            i,
            tail.start_hash_count,
        ),
    }
}

/// The tokens read from `i` on have positive lengths that add up to the rest of the chunk:
/// no gap, no overlap.
pub proof fn lemma_lex_covers(state: State, s: Seq<char>, i: int)
    requires
        0 <= i <= s.len(),
        s.len() <= usize::MAX,
    ensures
        total_len(lex(state, s, i).0) == s.len() - i,
        forall|k: int| 0 <= k < lex(state, s, i).0.len() ==> #[trigger] lex(state, s, i).0[k].len > 0,
    decreases s.len() - i,
{
    if i < s.len() {
        lemma_step_progress(state, s, i);
        let (next, kind, end) = step(state, s, i);
        lemma_lex_covers(next, s, end);
        let rest = lex(next, s, end).0;
        let tokens = lex(state, s, i).0;
        assert(tokens.drop_first() =~= rest);
        assert forall|k: int| 0 <= k < tokens.len() implies #[trigger] tokens[k].len > 0 by {
            if k > 0 {
                assert(tokens[k] == rest[k - 1]);
            }
        }
    }
}

/// Total coverage: the tokens of a chunk have positive lengths that add up to its length.
pub proof fn lemma_chunk_coverage(state: State, s: Seq<char>)
    requires
        s.len() <= usize::MAX,
    ensures
        total_len(lex_chunk(state, s).0) == s.len(),
        forall|k: int| 0 <= k < lex_chunk(state, s).0.len() ==> #[trigger] lex_chunk(state, s).0[k].len > 0,
{
    reveal(lex_chunk);
    lemma_lex_covers(state, s, 0);
}

/// Determinism: two readings of the same characters from the same state, each one what
/// [`State::tokenize`] gives, have the same tokens and end in the same state.
pub proof fn lemma_lex_deterministic(
    state1: State,
    s1: Seq<char>,
    r1: (Seq<Token>, State),
    state2: State,
    s2: Seq<char>,
    r2: (Seq<Token>, State),
)
    requires
        r1 == lex_chunk(state1, s1),
        r2 == lex_chunk(state2, s2),
        state1 == state2,
        s1 == s2,
    ensures
        r1 == r2,
{
}

// ---------------------------------------------------------------------------------------------
// Executable tokenizer
// ---------------------------------------------------------------------------------------------

/// What a token is.
#[derive(Clone, Copy, Debug, PartialEq, Eq, Structural)]
pub enum TokenKind {
    Comment,
    Identifier,
    Keyword,
    String,
    Unknown,
}

/// One token: how many characters it spans, and what it is.
#[derive(Clone, Copy, Debug, PartialEq, Eq, Structural)]
pub struct Token {
    pub len: usize,
    pub kind: TokenKind,
}

/// Where tokenization stands between two tokens, and so between two chunks.
#[derive(Clone, Copy, Debug, PartialEq, Eq, Structural)]
pub enum State {
    /// No construct is open.
    Initial(InitialState),
    /// Inside a block comment.
    BlockCommentTail(BlockCommentTailState),
    /// Inside a double-quoted string.
    DoubleQuotedStringTail(DoubleQuotedStringTailState),
    /// Inside a raw string.
    RawDoubleQuotedStringTail(RawDoubleQuotedStringTailState),
}

/// No construct is open.
#[derive(Clone, Copy, Debug, PartialEq, Eq, Structural)]
pub struct InitialState;

/// Inside a block comment, with `depth` inner comments opened and not yet closed.
#[derive(Clone, Copy, Debug, PartialEq, Eq, Structural)]
pub struct BlockCommentTailState {
    pub depth: usize,
}

/// Inside a double-quoted string.
#[derive(Clone, Copy, Debug, PartialEq, Eq, Structural)]
pub struct DoubleQuotedStringTailState;

/// Inside a raw string that was opened with `start_hash_count` hashes.
#[derive(Clone, Copy, Debug, PartialEq, Eq, Structural)]
pub struct RawDoubleQuotedStringTailState {
    pub start_hash_count: usize,
}

impl Default for State {
    fn default() -> (r: State)
        ensures
            r == State::Initial(InitialState),
    {
        State::Initial(InitialState)
    }
}

/// A read position in a chunk of characters.
pub struct Cursor<'a> {
    chars: &'a [char],
    index: usize,
}

impl<'a> Cursor<'a> {
    /// The characters of the chunk.
    pub closed spec fn text(&self) -> Seq<char> {
        self.chars@
    }

    /// How many characters have been read.
    pub closed spec fn index(&self) -> int {
        self.index as int
    }

    /// The read position lies inside the chunk or at its end.
    pub closed spec fn wf(&self) -> bool {
        self.index <= self.chars@.len() <= usize::MAX
    }

    /// Whether the whole chunk has been read.
    pub open spec fn at_end(&self) -> bool {
        self.index() >= self.text().len()
    }

    /// A cursor at the start of `chars`.
    pub fn new(chars: &'a [char]) -> (r: Cursor<'a>)
        ensures
            r.wf(),
            r.text() == chars@,
            r.index() == 0,
    {
        let _len = chars.len();
        Cursor { chars, index: 0 }
    }

    /// The character `k` places ahead, or `None` past the end of the chunk.
    fn peek(&self, k: usize) -> (r: Option<char>)
        requires
            self.wf(),
        ensures
            r == char_at(self.text(), self.index() + k),
    {
        if k < self.chars.len() - self.index {
            Some(self.chars[self.index + k])
        } else {
            None
        }
    }

    fn skip(&mut self, count: usize)
        requires
            old(self).wf(),
            old(self).index() + count <= old(self).text().len(),
        ensures
            final(self).wf(),
            final(self).text() == old(self).text(),
            final(self).index() == old(self).index() + count,
    {
        self.index = self.index + count;
    }

    fn skip_if_char(&mut self, c: char) -> (r: bool)
        requires
            old(self).wf(),
        ensures
            final(self).wf(),
            final(self).text() == old(self).text(),
            r == char_is(old(self).text(), old(self).index(), c),
            final(self).index() == old(self).index() + if r { 1int } else { 0int },
    {
        if self.peek(0) == Some(c) {
            self.skip(1);
            true
        } else {
            false
        }
    }

    fn skip_if_identifier_continue(&mut self) -> (r: bool)
        requires
            old(self).wf(),
        ensures
            final(self).wf(),
            final(self).text() == old(self).text(),
            r == (!old(self).at_end() && is_identifier_continue(
                old(self).text()[old(self).index()],
            )),
            final(self).index() == old(self).index() + if r { 1int } else { 0int },
    {
        match self.peek(0) {
            Some(c) => {
                if char_is_identifier_continue(c) {
                    self.skip(1);
                    true
                } else {
                    false
                }
            },
            None => false,
        }
    }

    /// Reads the rest of an identifier.
    #[verifier::loop_isolation(false)]
    fn skip_identifier_tail(&mut self)
        requires
            old(self).wf(),
        ensures
            final(self).wf(),
            final(self).text() == old(self).text(),
            final(self).index() == identifier_end(old(self).text(), old(self).index()),
    {
        let ghost s = self.text();
        let ghost i0 = self.index();
        while self.skip_if_identifier_continue()
            invariant
                self.wf(),
                self.text() == s,
                identifier_end(s, self.index()) == identifier_end(s, i0),
            decreases s.len() - self.index(),
        {
        }
    }

    /// Reads an optional type suffix after a string.
    fn skip_suffix(&mut self)
        requires
            old(self).wf(),
        ensures
            final(self).wf(),
            final(self).text() == old(self).text(),
            final(self).index() == suffix_end(old(self).text(), old(self).index()),
    {
        match self.peek(0) {
            Some(c) => {
                if char_is_identifier_start(c) {
                    self.skip(1);
                    self.skip_identifier_tail();
                }
            },
            None => {},
        }
    }

    /// Whether a raw string opened with `n` hashes closes here.
    fn at_raw_close(&self, n: usize) -> (r: bool)
        requires
            self.wf(),
        ensures
            r == closes_raw(self.text(), self.index(), n),
    {
        if self.peek(0) != Some('"') {
            return false;
        }
        let mut j: usize = 0;
        while j < n
            invariant
                self.wf(),
                j <= n,
                char_is(self.text(), self.index(), '"'),
                forall|k: int|
                    self.index() + 1 <= k < self.index() + 1 + j ==> char_is(self.text(), k, '#'),
            decreases n - j,
        {
            if self.peek(1 + j) != Some('#') {
                proof {
                    let k = self.index() + 1 + j;
                    if k < self.text().len() {
                        assert(self.text()[k] != '#');
                    }
                }
                return false;
            }
            j = j + 1;
        }
        proof {
            let s = self.text();
            let i = self.index();
            if n > 0 {
                assert(char_is(s, i + n, '#'));
            }
            assert forall|k: int| i + 1 <= k < i + 1 + n implies s[k] == '#' by {
                assert(char_is(s, k, '#'));
            }
        }
        true
    }
}

impl State {
    /// Reads one token from `cursor`.
    ///
    /// At the end of the chunk it gives back the state unchanged and no token. Otherwise it
    /// consumes at least one character and gives the state to resume in and the token read.
    pub fn next(self, cursor: &mut Cursor) -> (r: (State, Option<Token>))
        requires
            old(cursor).wf(),
        ensures
            final(cursor).wf(),
            final(cursor).text() == old(cursor).text(),
            old(cursor).at_end() ==> r == (self, None::<Token>) && final(cursor).index()
                == old(cursor).index(),
            !old(cursor).at_end() ==> {
                let (next, kind, end) = step(self, old(cursor).text(), old(cursor).index());
                &&& old(cursor).index() < end <= old(cursor).text().len()
                &&& final(cursor).index() == end
                &&& r == (next, Some(Token { len: (end - old(cursor).index()) as usize, kind }))
            },
    {
        if cursor.peek(0).is_none() {
            return (self, None);
        }
        proof {
            lemma_step_progress(self, cursor.text(), cursor.index());
        }
        let start = cursor.index;
        let (next_state, kind) = match self {
            State::Initial(state) => state.next(cursor),
            State::BlockCommentTail(state) => state.next(cursor),
            State::DoubleQuotedStringTail(state) => state.next(cursor),
            State::RawDoubleQuotedStringTail(state) => state.next(cursor),
        };
        let end = cursor.index;
        (next_state, Some(Token { len: end - start, kind }))
    }

    /// Reads a whole chunk from this state: its tokens, and the state to resume in with the
    /// next chunk.
    pub fn tokenize(self, chars: &[char]) -> (r: (Vec<Token>, State))
        ensures
            (r.0@, r.1) == lex_chunk(self, chars@),
    {
        reveal(lex_chunk);
        let mut cursor = Cursor::new(chars);
        let mut state = self;
        let mut tokens: Vec<Token> = Vec::new();
        loop
            invariant
                cursor.wf(),
                cursor.text() == chars@,
                0 <= cursor.index() <= chars@.len(),
                lex_chunk(self, chars@) == (
                    tokens@ + lex(state, chars@, cursor.index()).0,
                    lex(state, chars@, cursor.index()).1,
                ),
            decreases chars@.len() - cursor.index(),
        {
            let ghost i = cursor.index();
            let (next_state, token) = state.next(&mut cursor);
            match token {
                Some(token) => {
                    let ghost rest = lex(next_state, chars@, cursor.index());
                    assert(lex(state, chars@, i).0 == seq![token] + rest.0);
                    assert(tokens@.push(token) + rest.0 =~= tokens@ + (seq![token] + rest.0));
                    tokens.push(token);
                    state = next_state;
                },
                None => {
                    assert(tokens@ + Seq::<Token>::empty() =~= tokens@);
                    return (tokens, state);
                },
            }
        }
    }
}

impl InitialState {
    fn next(self, cursor: &mut Cursor) -> (r: (State, TokenKind))
        requires
            old(cursor).wf(),
            !old(cursor).at_end(),
        ensures
            final(cursor).wf(),
            final(cursor).text() == old(cursor).text(),
            (r.0, r.1, final(cursor).index()) == initial_step(
                old(cursor).text(),
                old(cursor).index(),
            ),
    {
        let c0 = cursor.peek(0);
        let c1 = cursor.peek(1);
        if c0 == Some('/') && c1 == Some('*') {
            self.block_comment(cursor)
        } else if c0 == Some('"') {
            self.string(cursor)
        } else if c0 == Some('r') && cursor.opens_raw_string() {
            self.raw_string(cursor)
        } else {
            match c0 {
                Some(c) if char_is_identifier_start(c) => self.identifier_or_keyword(cursor),
                _ => {
                    cursor.skip(1);
                    (State::Initial(InitialState), TokenKind::Unknown)
                },
            }
        }
    }

    fn block_comment(self, cursor: &mut Cursor) -> (r: (State, TokenKind))
        requires
            old(cursor).wf(),
            char_is(old(cursor).text(), old(cursor).index(), '/'),
            char_is(old(cursor).text(), old(cursor).index() + 1, '*'),
        ensures
            final(cursor).wf(),
            final(cursor).text() == old(cursor).text(),
            (r.0, final(cursor).index()) == block_comment_scan(
                old(cursor).text(),
                old(cursor).index() + 2,
                0,
            ),
            r.1 == TokenKind::Comment,
    {
        cursor.skip(2);
        BlockCommentTailState { depth: 0 }.next(cursor)
    }

    /// Reads an identifier, and tells a reserved word from other identifiers: the whole run of
    /// identifier characters must be an entry of the table.
    #[verifier::loop_isolation(false)]
    fn identifier_or_keyword(self, cursor: &mut Cursor) -> (r: (State, TokenKind))
        requires
            old(cursor).wf(),
            !old(cursor).at_end(),
            is_identifier_start(old(cursor).text()[old(cursor).index()]),
            !opens_raw(old(cursor).text(), old(cursor).index()),
        ensures
            final(cursor).wf(),
            final(cursor).text() == old(cursor).text(),
            (r.0, r.1, final(cursor).index()) == initial_step(
                old(cursor).text(),
                old(cursor).index(),
            ),
    {
        let ghost s = cursor.text();
        let start = cursor.index;
        cursor.skip(1);
        self.identifier_tail(cursor);
        let end = cursor.index;
        proof {
            lemma_identifier_end(s, start + 1);
        }
        if lookup_keyword(cursor.chars, start, end) {
            (State::Initial(InitialState), TokenKind::Keyword)
        } else {
            (State::Initial(InitialState), TokenKind::Identifier)
        }
    }

    fn identifier_tail(self, cursor: &mut Cursor) -> (r: (State, TokenKind))
        requires
            old(cursor).wf(),
        ensures
            final(cursor).wf(),
            final(cursor).text() == old(cursor).text(),
            final(cursor).index() == identifier_end(old(cursor).text(), old(cursor).index()),
            r == (State::Initial(InitialState), TokenKind::Identifier),
    {
        cursor.skip_identifier_tail();
        (State::Initial(InitialState), TokenKind::Identifier)
    }

    fn string(self, cursor: &mut Cursor) -> (r: (State, TokenKind))
        requires
            old(cursor).wf(),
            char_is(old(cursor).text(), old(cursor).index(), '"'),
        ensures
            final(cursor).wf(),
            final(cursor).text() == old(cursor).text(),
            (r.0, final(cursor).index()) == string_scan(
                old(cursor).text(),
                old(cursor).index() + 1,
            ),
            r.1 == TokenKind::String,
    {
        self.double_quoted_string(cursor)
    }

    fn double_quoted_string(self, cursor: &mut Cursor) -> (r: (State, TokenKind))
        requires
            old(cursor).wf(),
            char_is(old(cursor).text(), old(cursor).index(), '"'),
        ensures
            final(cursor).wf(),
            final(cursor).text() == old(cursor).text(),
            (r.0, final(cursor).index()) == string_scan(
                old(cursor).text(),
                old(cursor).index() + 1,
            ),
            r.1 == TokenKind::String,
    {
        cursor.skip(1);
        DoubleQuotedStringTailState.next(cursor)
    }

    fn raw_string(self, cursor: &mut Cursor) -> (r: (State, TokenKind))
        requires
            old(cursor).wf(),
            opens_raw(old(cursor).text(), old(cursor).index()),
        ensures
            final(cursor).wf(),
            final(cursor).text() == old(cursor).text(),
            ({
                let s = old(cursor).text();
                let i = old(cursor).index();
                let quote = hash_run_end(s, i + 1);
                (r.0, final(cursor).index()) == raw_string_scan(
                    s,
                    quote + 1,
                    (quote - (i + 1)) as usize,
                )
            }),
            r.1 == TokenKind::String,
    {
        cursor.skip(1);
        self.raw_double_quoted_string(cursor)
    }

    #[verifier::loop_isolation(false)]
    fn raw_double_quoted_string(self, cursor: &mut Cursor) -> (r: (State, TokenKind))
        requires
            old(cursor).wf(),
            char_is(old(cursor).text(), hash_run_end(old(cursor).text(), old(cursor).index()), '"'),
        ensures
            final(cursor).wf(),
            final(cursor).text() == old(cursor).text(),
            ({
                let s = old(cursor).text();
                let i = old(cursor).index();
                let quote = hash_run_end(s, i);
                (r.0, final(cursor).index()) == raw_string_scan(s, quote + 1, (quote - i) as usize)
            }),
            r.1 == TokenKind::String,
    {
        let ghost s = cursor.text();
        let ghost i0 = cursor.index();
        let mut start_hash_count: usize = 0;
        while cursor.skip_if_char('#')
            invariant
                cursor.wf(),
                cursor.text() == s,
                cursor.index() == i0 + start_hash_count,
                hash_run_end(s, cursor.index()) == hash_run_end(s, i0),
            decreases s.len() - cursor.index(),
        {
            start_hash_count = start_hash_count + 1;
        }
        cursor.skip(1);
        RawDoubleQuotedStringTailState { start_hash_count }.next(cursor)
    }
}

impl<'a> Cursor<'a> {
    /// Whether a raw string opens here: an `r`, any number of hashes, then a `"`.
    fn opens_raw_string(&self) -> (r: bool)
        requires
            self.wf(),
        ensures
            r == opens_raw(self.text(), self.index()),
    {
        if self.peek(0) != Some('r') {
            return false;
        }
        let mut k: usize = 1;
        loop
            invariant
                self.wf(),
                1 <= k,
                self.index() + k <= self.text().len(),
                char_is(self.text(), self.index(), 'r'),
                hash_run_end(self.text(), self.index() + k) == hash_run_end(
                    self.text(),
                    self.index() + 1,
                ),
            decreases self.text().len() - self.index() - k,
        {
            match self.peek(k) {
                Some('#') => {
                    k = k + 1;
                },
                Some(c) => {
                    return c == '"';
                },
                None => {
                    return false;
                },
            }
        }
    }
}

impl BlockCommentTailState {
    #[verifier::loop_isolation(false)]
    fn next(self, cursor: &mut Cursor) -> (r: (State, TokenKind))
        requires
            old(cursor).wf(),
        ensures
            final(cursor).wf(),
            final(cursor).text() == old(cursor).text(),
            (r.0, final(cursor).index()) == block_comment_scan(
                old(cursor).text(),
                old(cursor).index(),
                self.depth,
            ),
            r.1 == TokenKind::Comment,
    {
        let ghost s = cursor.text();
        let ghost goal = block_comment_scan(s, cursor.index(), self.depth);
        let mut depth = self.depth;
        loop
            invariant
                cursor.wf(),
                cursor.text() == s,
                block_comment_scan(s, cursor.index(), depth) == goal,
            decreases s.len() - cursor.index(),
        {
            let c0 = cursor.peek(0);
            let c1 = cursor.peek(1);
            if c0.is_none() {
                return (State::BlockCommentTail(BlockCommentTailState { depth }), TokenKind::Comment);
            } else if c0 == Some('/') && c1 == Some('*') {
                cursor.skip(2);
                if depth < usize::MAX {
                    depth = depth + 1;
                }
            } else if c0 == Some('*') && c1 == Some('/') {
                cursor.skip(2);
                if depth == 0 {
                    return (State::Initial(InitialState), TokenKind::Comment);
                }
                depth = depth - 1;
            } else {
                cursor.skip(1);
            }
        }
    }
}

impl DoubleQuotedStringTailState {
    #[verifier::loop_isolation(false)]
    fn next(self, cursor: &mut Cursor) -> (r: (State, TokenKind))
        requires
            old(cursor).wf(),
        ensures
            final(cursor).wf(),
            final(cursor).text() == old(cursor).text(),
            (r.0, final(cursor).index()) == string_scan(old(cursor).text(), old(cursor).index()),
            r.1 == TokenKind::String,
    {
        let ghost s = cursor.text();
        let ghost goal = string_scan(s, cursor.index());
        loop
            invariant
                cursor.wf(),
                cursor.text() == s,
                string_scan(s, cursor.index()) == goal,
            decreases s.len() - cursor.index(),
        {
            let c0 = cursor.peek(0);
            if c0.is_none() {
                return (
                    State::DoubleQuotedStringTail(DoubleQuotedStringTailState),
                    TokenKind::String,
                );
            } else if c0 == Some('"') {
                cursor.skip(1);
                cursor.skip_suffix();
                return (State::Initial(InitialState), TokenKind::String);
            } else if c0 == Some('\\') && cursor.peek(1) == Some('"') {
                cursor.skip(2);
            } else {
                cursor.skip(1);
            }
        }
    }
}

impl RawDoubleQuotedStringTailState {
    #[verifier::loop_isolation(false)]
    fn next(self, cursor: &mut Cursor) -> (r: (State, TokenKind))
        requires
            old(cursor).wf(),
        ensures
            final(cursor).wf(),
            final(cursor).text() == old(cursor).text(),
            (r.0, final(cursor).index()) == raw_string_scan(
                old(cursor).text(),
                old(cursor).index(),
                self.start_hash_count,
            ),
            r.1 == TokenKind::String,
    {
        let ghost s = cursor.text();
        let ghost goal = raw_string_scan(s, cursor.index(), self.start_hash_count);
        let n = self.start_hash_count;
        loop
            invariant
                cursor.wf(),
                cursor.text() == s,
                raw_string_scan(s, cursor.index(), n) == goal,
            decreases s.len() - cursor.index(),
        {
            if cursor.peek(0).is_none() {
                return (State::RawDoubleQuotedStringTail(self), TokenKind::String);
            } else if cursor.at_raw_close(n) {
                cursor.skip(1 + n);
                cursor.skip_suffix();
                return (State::Initial(InitialState), TokenKind::String);
            } else {
                cursor.skip(1);
            }
        }
    }
}

} // verus!
