//! The text of a document and its token tables.
//!
//! A document holds its text line by line and, for each line, a table of token lengths in
//! bytes. The tables store no text: a token's text is found again by slicing its line at a
//! running byte offset. Lines are tokenized from the top, each line starting in the state in
//! which the line above ended.
use vstd::prelude::*;
use vstd::utf8::*;

use crate::encoding::{
    byte_len, chars_of, lemma_byte_len_first, lemma_byte_len_split,
    lemma_char_byte_len, lemma_encode_concat, lemma_encode_injective, lemma_prefix_boundary,
    lemma_prefix_chars, prefix_chars, utf8_width,
};
use crate::state::{Token, TokenKind};
use crate::tokenizer;
use crate::tokenizer::{lemma_chunk_coverage, lex_chunk, total_len};

verus! {

// ---------------------------------------------------------------------------------------------
// Decoding and splitting into lines
// ---------------------------------------------------------------------------------------------

/// The text that `String::from_utf8_lossy` makes of `bytes`.
pub uninterp spec fn lossy_utf8(bytes: Seq<u8>) -> Seq<char>;

/// Relies on `String::from_utf8_lossy`: it never fails, replaces each invalid sequence, and
/// keeps valid UTF-8 as it is.
#[verifier::external_body]
fn decode_lossy(bytes: &[u8]) -> (r: String)
    ensures
        r@ == lossy_utf8(bytes@),
        valid_utf8(bytes@) ==> r@ == decode_utf8(bytes@),
{
    String::from_utf8_lossy(bytes).into_owned()
}

/// A line without the carriage return that ended it, if any.
pub open spec fn strip_cr(line: Seq<char>) -> Seq<char> {
    if line.len() > 0 && line.last() == '\r' {
        line.drop_last()
    } else {
        line
    }
}

/// The lines of `s` from `i` on, the current one starting at `start`. A line ends at a line
/// feed, or a carriage return and a line feed; the last line needs no terminator, and an
/// empty last line is no line.
pub open spec fn lines_from(s: Seq<char>, start: int, i: int) -> Seq<Seq<char>>
    decreases s.len() - i,
{
    if i < 0 || i >= s.len() {
        if 0 <= start < s.len() {
            seq![s.subrange(start, s.len() as int)]
        } else {
            Seq::empty()
        }
    } else if s[i] == '\n' {
        seq![strip_cr(s.subrange(start, i))] + lines_from(s, i + 1, i + 1)
    } else {
        lines_from(s, start, i + 1)
    }
}

/// The lines of `s`.
pub open spec fn lines_of(s: Seq<char>) -> Seq<Seq<char>> {
    lines_from(s, 0, 0)
}

/// The lines of a document read from `bytes`: at least one, even for no bytes at all.
pub open spec fn document_lines(bytes: Seq<u8>) -> Seq<Seq<char>> {
    let lines = lines_of(lossy_utf8(bytes));
    if lines.len() == 0 {
        seq![Seq::empty()]
    } else {
        lines
    }
}

/// The views of a sequence of strings.
pub open spec fn string_views(strings: Seq<String>) -> Seq<Seq<char>> {
    strings.map_values(|s: String| s@)
}

proof fn lemma_byte_len_subrange(s: Seq<char>, a: int, b: int)
    requires
        0 <= a <= b <= s.len(),
    ensures
        byte_len(s.subrange(a, b)) <= byte_len(s),
{
    lemma_byte_len_split(s, a);
    lemma_byte_len_split(s.skip(a), b - a);
    assert(s.skip(a).take(b - a) =~= s.subrange(a, b));
}

/// Bytes taken by `chars[from..to]`.
fn byte_len_of(chars: &[char], from: usize, to: usize) -> (r: usize)
    requires
        from <= to <= chars@.len(),
        byte_len(chars@) <= usize::MAX,
    ensures
        r == byte_len(chars@.subrange(from as int, to as int)),
{
    let mut bytes: usize = 0;
    let mut q: usize = from;
    while q < to
        invariant
            from <= q <= to <= chars@.len(),
            byte_len(chars@) <= usize::MAX,
            bytes == byte_len(chars@.subrange(from as int, q as int)),
        decreases to - q,
    {
        let ghost before = chars@.subrange(from as int, q as int);
        let ghost after = chars@.subrange(from as int, q + 1);
        proof {
            assert(after =~= before + seq![chars@[q as int]]);
            lemma_encode_concat(before, seq![chars@[q as int]]);
            lemma_byte_len_first(seq![chars@[q as int]]);
            assert(seq![chars@[q as int]].drop_first() =~= Seq::<char>::empty());
            lemma_byte_len_subrange(chars@, from as int, q + 1);
        }
        bytes = bytes + utf8_width(chars[q]);
        q = q + 1;
    }
    bytes
}

/// Splits `s` after its first `k` characters, which take `b` bytes.
pub(crate) fn split_chars<'a>(s: &'a str, k: Ghost<int>, b: usize) -> (r: (&'a str, &'a str))
    requires
        0 <= k@ <= s@.len(),
        b == byte_len(s@.take(k@)),
    ensures
        r.0@ == s@.take(k@),
        r.1@ == s@.skip(k@),
{
    proof {
        lemma_prefix_boundary(s@, k@);
        lemma_byte_len_split(s@, k@);
    }
    let r = s.split_at(b);
    proof {
        let bytes = encode_utf8(s@);
        assert(encode_utf8(r.0@) =~= encode_utf8(s@.take(k@)));
        assert(encode_utf8(r.1@) =~= encode_utf8(s@.skip(k@)));
        lemma_encode_injective(r.0@, s@.take(k@));
        lemma_encode_injective(r.1@, s@.skip(k@));
    }
    r
}

/// Splits `text` into lines (see [`lines_of`]).
pub fn split_lines(text: &str) -> (r: Vec<String>)
    ensures
        string_views(r@) == lines_of(text@),
{
    let chars = chars_of(text);
    let _bytes = text.as_bytes().len();
    let mut rest: &str = text;
    let mut lines: Vec<String> = Vec::new();
    let mut start: usize = 0;
    let mut i: usize = 0;
    while i < chars.len()
        invariant
            chars@ == text@,
            byte_len(text@) <= usize::MAX,
            start <= i <= chars@.len(),
            rest@ == chars@.skip(start as int),
            lines_of(text@) == string_views(lines@) + lines_from(chars@, start as int, i as int),
        decreases chars@.len() - i,
    {
        if chars[i] == '\n' {
            let ghost s = chars@;
            let ghost k = i - start;
            let b = byte_len_of(chars.as_slice(), start, i);
            proof {
                assert(rest@.take(k) =~= s.subrange(start as int, i as int));
                assert(rest@.take(k + 1) =~= s.subrange(start as int, i + 1));
                assert(s.subrange(start as int, i + 1) =~= s.subrange(start as int, i as int)
                    + seq!['\n']);
                lemma_encode_concat(s.subrange(start as int, i as int), seq!['\n']);
                lemma_byte_len_first(seq!['\n']);
                lemma_char_byte_len('\n');
                assert(seq!['\n'].drop_first() =~= Seq::<char>::empty());
                lemma_byte_len_subrange(s, start as int, i + 1);
            }
            let line = if i > start && chars[i - 1] == '\r' {
                proof {
                    assert(s.subrange(start as int, i as int) =~= s.subrange(start as int, i - 1)
                        + seq!['\r']);
                    lemma_encode_concat(s.subrange(start as int, i - 1), seq!['\r']);
                    lemma_byte_len_first(seq!['\r']);
                    lemma_char_byte_len('\r');
                    assert(seq!['\r'].drop_first() =~= Seq::<char>::empty());
                    assert(rest@.take(k - 1) =~= s.subrange(start as int, i - 1));
                    assert(strip_cr(s.subrange(start as int, i as int)) =~= s.subrange(
                        start as int,
                        i - 1,
                    ));
                }
                split_chars(rest, Ghost(k - 1), b - 1).0
            } else {
                proof {
                    assert(strip_cr(s.subrange(start as int, i as int)) =~= s.subrange(
                        start as int,
                        i as int,
                    ));
                }
                split_chars(rest, Ghost(k), b).0
            };
            let owned = line.to_owned();
            let tail = split_chars(rest, Ghost(k + 1), b + 1).1;
            proof {
                assert(tail@ =~= s.skip(i + 1));
                assert(string_views(lines@.push(owned)) =~= string_views(lines@) + seq![owned@]);
            }
            lines.push(owned);
            rest = tail;
            start = i + 1;
        }
        i = i + 1;
    }
    if start < chars.len() {
        proof {
            assert(rest@ =~= chars@.subrange(start as int, chars@.len() as int));
        }
        let owned = rest.to_owned();
        proof {
            assert(string_views(lines@.push(owned)) =~= string_views(lines@) + seq![owned@]);
        }
        lines.push(owned);
    } else {
        assert(string_views(lines@) + Seq::<Seq<char>>::empty() =~= string_views(lines@));
    }
    lines
}

/// The lines of a document read from `bytes`.
pub fn read_lines(bytes: &[u8]) -> (r: Vec<String>)
    ensures
        string_views(r@) == document_lines(bytes@),
        r@.len() >= 1,
        bytes@.len() == 0 ==> string_views(r@) == seq![Seq::<char>::empty()],
{
    let text = decode_lossy(bytes);
    proof {
        if bytes@.len() == 0 {
            assert(valid_utf8(bytes@));
            assert(decode_utf8(bytes@) =~= Seq::<char>::empty());
        }
    }
    let mut lines = split_lines(text.as_str());
    if lines.len() == 0 {
        let empty = String::new();
        lines.push(empty);
        assert(string_views(lines@) =~= seq![Seq::<char>::empty()]);
    }
    lines
}

// ---------------------------------------------------------------------------------------------
// Token tables
// ---------------------------------------------------------------------------------------------

/// How a token kind of the tokenizer is shown in a table.
pub open spec fn kind_of(kind: tokenizer::TokenKind) -> TokenKind {
    match kind {
        tokenizer::TokenKind::Comment => TokenKind::Comment,
        tokenizer::TokenKind::Identifier => TokenKind::Identifier,
        tokenizer::TokenKind::Keyword => TokenKind::Keyword,
        tokenizer::TokenKind::String => TokenKind::String,
        tokenizer::TokenKind::Unknown => TokenKind::Unknown,
    }
}

fn convert_kind(kind: tokenizer::TokenKind) -> (r: TokenKind)
    ensures
        r == kind_of(kind),
{
    match kind {
        tokenizer::TokenKind::Comment => TokenKind::Comment,
        tokenizer::TokenKind::Identifier => TokenKind::Identifier,
        tokenizer::TokenKind::Keyword => TokenKind::Keyword,
        tokenizer::TokenKind::String => TokenKind::String,
        tokenizer::TokenKind::Unknown => TokenKind::Unknown,
    }
}

/// The table of `tokens` read from `s`: each token's length in bytes, and its kind.
pub open spec fn byte_table(s: Seq<char>, tokens: Seq<tokenizer::Token>) -> Seq<Token>
    decreases tokens.len(),
{
    if tokens.len() == 0 {
        Seq::empty()
    } else {
        let n = tokens[0].len as int;
        seq![Token { byte_count: byte_len(s.take(n)) as usize, kind: kind_of(tokens[0].kind) }]
            + byte_table(s.skip(n), tokens.drop_first())
    }
}

/// The byte counts of `table` cut `s` into non-empty pieces of whole characters, with
/// nothing left over.
pub open spec fn table_fits(s: Seq<char>, table: Seq<Token>) -> bool
    decreases table.len(),
{
    if table.len() == 0 {
        s.len() == 0
    } else {
        let k = prefix_chars(s, table[0].byte_count as int);
        &&& 0 < k <= s.len()
        &&& byte_len(s.take(k)) == table[0].byte_count
        &&& table_fits(s.skip(k), table.drop_first())
    }
}

/// The pieces of `s` that the byte counts of `table` cut out, in order.
pub open spec fn table_pieces(s: Seq<char>, table: Seq<Token>) -> Seq<Seq<char>>
    decreases table.len(),
{
    if table.len() == 0 {
        Seq::empty()
    } else {
        let k = prefix_chars(s, table[0].byte_count as int);
        seq![s.take(k)] + table_pieces(s.skip(k), table.drop_first())
    }
}

/// The sum of the byte counts of a table.
pub open spec fn table_bytes(table: Seq<Token>) -> int
    decreases table.len(),
{
    if table.len() == 0 {
        0
    } else {
        table[0].byte_count + table_bytes(table.drop_first())
    }
}

/// Pieces of text put back together, in order.
pub open spec fn concat_all(pieces: Seq<Seq<char>>) -> Seq<char>
    decreases pieces.len(),
{
    if pieces.len() == 0 {
        Seq::empty()
    } else {
        pieces[0] + concat_all(pieces.drop_first())
    }
}

/// A table built from tokens that cover `s` fits `s`.
pub proof fn lemma_byte_table_fits(s: Seq<char>, tokens: Seq<tokenizer::Token>)
    requires
        total_len(tokens) == s.len(),
        forall|k: int| 0 <= k < tokens.len() ==> #[trigger] tokens[k].len > 0,
        byte_len(s) <= usize::MAX,
    ensures
        table_fits(s, byte_table(s, tokens)),
        byte_table(s, tokens).len() == tokens.len(),
    decreases tokens.len(),
{
    if tokens.len() > 0 {
        let n = tokens[0].len as int;
        let rest = tokens.drop_first();
        assert forall|k: int| 0 <= k < rest.len() implies #[trigger] rest[k].len > 0 by {
            assert(rest[k] == tokens[k + 1]);
        }
        lemma_total_len_nonneg(rest);
        lemma_byte_len_split(s, n);
        lemma_prefix_chars(s, n);
        lemma_byte_table_fits(s.skip(n), rest);
        let table = byte_table(s, tokens);
        assert(table.drop_first() =~= byte_table(s.skip(n), rest));
    }
}

/// Total coverage: the byte counts of a fitting table add up to the byte length of the text.
pub proof fn lemma_table_covers(s: Seq<char>, table: Seq<Token>)
    requires
        table_fits(s, table),
    ensures
        table_bytes(table) == byte_len(s),
    decreases table.len(),
{
    if table.len() > 0 {
        let k = prefix_chars(s, table[0].byte_count as int);
        lemma_byte_len_split(s, k);
        lemma_table_covers(s.skip(k), table.drop_first());
    }
}

/// Round trip: the pieces that a fitting table cuts out give back the text, put together in
/// order.
pub proof fn lemma_table_round_trip(s: Seq<char>, table: Seq<Token>)
    requires
        table_fits(s, table),
    ensures
        concat_all(table_pieces(s, table)) == s,
        table_pieces(s, table).len() == table.len(),
    decreases table.len(),
{
    if table.len() == 0 {
        assert(concat_all(table_pieces(s, table)) =~= s);
    } else {
        let k = prefix_chars(s, table[0].byte_count as int);
        let pieces = table_pieces(s, table);
        lemma_table_round_trip(s.skip(k), table.drop_first());
        assert(pieces.drop_first() =~= table_pieces(s.skip(k), table.drop_first()));
        assert(s =~= s.take(k) + s.skip(k));
    }
}

/// The table of a line of `s` tokenized from `state`.
#[verifier::opaque]
pub open spec fn line_table(state: tokenizer::State, s: Seq<char>) -> Seq<Token> {
    byte_table(s, lex_chunk(state, s).0)
}

/// The table of a line always fits the line.
pub proof fn lemma_line_table_fits(state: tokenizer::State, s: Seq<char>)
    requires
        byte_len(s) <= usize::MAX,
    ensures
        table_fits(s, line_table(state, s)),
{
    reveal(line_table);
    lemma_encode_len_bound(s);
    lemma_chunk_coverage(state, s);
    lemma_byte_table_fits(s, lex_chunk(state, s).0);
}

proof fn lemma_encode_len_bound(s: Seq<char>)
    ensures
        s.len() <= byte_len(s),
    decreases s.len(),
{
    if s.len() > 0 {
        lemma_byte_len_first(s);
        lemma_char_byte_len(s[0]);
        lemma_encode_len_bound(s.drop_first());
    }
}

/// Builds the table of `tokens` read from `chars`.
fn table_of(chars: &[char], tokens: &Vec<tokenizer::Token>) -> (r: Vec<Token>)
    requires
        total_len(tokens@) == chars@.len(),
        forall|k: int| 0 <= k < tokens@.len() ==> #[trigger] tokens@[k].len > 0,
        byte_len(chars@) <= usize::MAX,
    ensures
        r@ == byte_table(chars@, tokens@),
{
    let mut table: Vec<Token> = Vec::new();
    let mut p: usize = 0;
    let mut k: usize = 0;
    let _len = chars.len();
    assert(tokens@.skip(0) =~= tokens@);
    assert(chars@.skip(0) =~= chars@);
    assert(table@ + byte_table(chars@, tokens@) =~= byte_table(chars@, tokens@));
    while k < tokens.len()
        invariant
            k <= tokens@.len(),
            p <= chars@.len() <= usize::MAX,
            forall|j: int| 0 <= j < tokens@.len() ==> #[trigger] tokens@[j].len > 0,
            byte_len(chars@) <= usize::MAX,
            total_len(tokens@.skip(k as int)) == chars@.len() - p,
            byte_table(chars@, tokens@) == table@ + byte_table(
                chars@.skip(p as int),
                tokens@.skip(k as int),
            ),
        decreases tokens@.len() - k,
    {
        let n = tokens[k].len;
        let ghost rest = tokens@.skip(k as int);
        proof {
            assert(rest.drop_first() =~= tokens@.skip(k + 1));
            assert(rest[0] == tokens@[k as int]);
            assert(total_len(rest) == rest[0].len + total_len(rest.drop_first()));
            lemma_total_len_nonneg(tokens@.skip(k + 1));
            assert(chars@.skip(p as int).take(n as int) =~= chars@.subrange(p as int, p + n));
            assert(chars@.skip(p as int).skip(n as int) =~= chars@.skip(p + n));
        }
        let bytes = byte_len_of(chars, p, p + n);
        let token = Token { byte_count: bytes, kind: convert_kind(tokens[k].kind) };
        proof {
            assert(table@.push(token) + byte_table(chars@.skip(p + n), tokens@.skip(k + 1))
                =~= table@ + byte_table(chars@.skip(p as int), rest));
        }
        table.push(token);
        p = p + n;
        k = k + 1;
    }
    proof {
        assert(table@ + byte_table(chars@.skip(p as int), tokens@.skip(k as int)) =~= table@);
    }
    table
}

proof fn lemma_total_len_nonneg(tokens: Seq<tokenizer::Token>)
    ensures
        total_len(tokens) >= 0,
    decreases tokens.len(),
{
    if tokens.len() > 0 {
        lemma_total_len_nonneg(tokens.drop_first());
    }
}

/// Tokenizes one line from `state`: its table, and the state in which the next line begins.
pub fn tokenize_line(state: tokenizer::State, line: &str) -> (r: (Vec<Token>, tokenizer::State))
    ensures
        r.0@ == line_table(state, line@),
        r.1 == lex_chunk(state, line@).1,
        table_fits(line@, r.0@),
{
    let chars = chars_of(line);
    let _chars = chars.len();
    let _bytes = line.as_bytes().len();
    let (tokens, next) = state.tokenize(chars.as_slice());
    proof {
        reveal(line_table);
        lemma_chunk_coverage(state, line@);
        lemma_line_table_fits(state, line@);
    }
    let table = table_of(chars.as_slice(), &tokens);
    (table, next)
}


// ---------------------------------------------------------------------------------------------
// Tokenizing a whole document
// ---------------------------------------------------------------------------------------------

/// The state in which line `k` of `lines` begins: the first line begins in the initial state,
/// every other line in the state in which the line above ended.
pub open spec fn start_state(lines: Seq<Seq<char>>, k: int) -> tokenizer::State
    decreases k,
{
    if k <= 0 {
        tokenizer::State::Initial(tokenizer::InitialState)
    } else {
        lex_chunk(start_state(lines, k - 1), lines[k - 1]).1
    }
}

/// The token tables of `lines`, each line tokenized from the state in which it begins.
pub open spec fn tables_of(lines: Seq<Seq<char>>) -> Seq<Seq<Token>> {
    Seq::new(lines.len(), |k: int| line_table(start_state(lines, k), lines[k]))
}

/// For each line of `lines`, the state in which it ends.
pub open spec fn end_states_of(lines: Seq<Seq<char>>) -> Seq<tokenizer::State> {
    Seq::new(lines.len(), |k: int| start_state(lines, k + 1))
}

/// The views of a sequence of tables.
pub open spec fn table_views(tables: Seq<Vec<Token>>) -> Seq<Seq<Token>> {
    tables.map_values(|t: Vec<Token>| t@)
}

/// Tokenizes every line of `text` from the top: the tables, and for each line the state in
/// which it ends.
pub fn tokenize_lines(text: &Vec<String>) -> (r: (Vec<Vec<Token>>, Vec<tokenizer::State>))
    ensures
        table_views(r.0@) == tables_of(string_views(text@)),
        r.1@ == end_states_of(string_views(text@)),
        forall|k: int|
            0 <= k < text@.len() ==> table_fits(#[trigger] string_views(text@)[k], table_views(r.0@)[k]),
{
    let ghost lines = string_views(text@);
    let mut tables: Vec<Vec<Token>> = Vec::new();
    let mut ends: Vec<tokenizer::State> = Vec::new();
    let mut state = tokenizer::State::Initial(tokenizer::InitialState);
    let mut k: usize = 0;
    while k < text.len()
        invariant
            lines == string_views(text@),
            k <= text@.len(),
            tables@.len() == k,
            ends@.len() == k,
            state == start_state(lines, k as int),
            table_views(tables@) == tables_of(lines).take(k as int),
            ends@ == Seq::new(k as nat, |j: int| start_state(lines, j + 1)),
            forall|j: int| 0 <= j < k ==> table_fits(#[trigger] lines[j], table_views(tables@)[j]),
        decreases text@.len() - k,
    {
        let (table, next) = tokenize_line(state, text[k].as_str());
        proof {
            assert(text@[k as int]@ == lines[k as int]);
        }
        tables.push(table);
        ends.push(next);
        state = next;
        k = k + 1;
        proof {
            assert(table_views(tables@) =~= tables_of(lines).take(k as int));
            assert(ends@ =~= Seq::new(k as nat, |j: int| start_state(lines, j + 1)));
            assert forall|j: int| 0 <= j < k implies table_fits(
                #[trigger] lines[j],
                table_views(tables@)[j],
            ) by {
                if j < k - 1 {
                    assert(table_views(tables@)[j] == table_views(tables@).take(k - 1)[j]);
                }
            }
        }
    }
    proof {
        assert(table_views(tables@) =~= tables_of(lines));
        assert(ends@ =~= end_states_of(lines));
    }
    (tables, ends)
}


/// The state in which a line begins depends only on the lines above it.
pub proof fn lemma_start_state_prefix(a: Seq<Seq<char>>, b: Seq<Seq<char>>, i: int)
    requires
        0 <= i <= a.len(),
        i <= b.len(),
        forall|m: int| 0 <= m < i ==> a[m] == b[m],
    ensures
        start_state(a, i) == start_state(b, i),
    decreases i,
{
    if i > 0 {
        lemma_start_state_prefix(a, b, i - 1);
    }
}

/// Once two texts begin a line in the same state and agree from there on, they begin every
/// later line in the same state.
pub proof fn lemma_start_state_suffix(a: Seq<Seq<char>>, b: Seq<Seq<char>>, j: int, i: int)
    requires
        a.len() == b.len(),
        0 <= j <= i <= a.len(),
        start_state(a, j) == start_state(b, j),
        forall|m: int| j <= m < a.len() ==> a[m] == b[m],
    ensures
        start_state(a, i) == start_state(b, i),
    decreases i - j,
{
    if i > j {
        lemma_start_state_suffix(a, b, j, i - 1);
    }
}

} // verus!
