//! Cutting text into user-perceived units and into runs of whitespace and non-whitespace.
//!
//! Unit boundaries are approximated by character boundaries: a unit is one `char`.
use vstd::prelude::*;
use vstd::utf8::*;

use crate::document::split_chars;
use crate::encoding::{
    byte_len, chars_of, lemma_byte_len_first, lemma_byte_len_split, lemma_char_byte_len,
    lemma_prefix_boundary,
};

verus! {

/// Whether `char::is_whitespace` holds of `c`.
pub uninterp spec fn white_space(c: char) -> bool;

/// Relies on `char::is_whitespace`: whether `c` has the Unicode White_Space property.
#[verifier::external_body]
fn char_is_whitespace(c: char) -> (r: bool)
    ensures
        r == white_space(c),
{
    c.is_whitespace()
}

/// Whether `index` is a unit boundary of `s`: a character boundary of its UTF-8 encoding.
pub open spec fn is_boundary(s: Seq<char>, index: int) -> bool {
    is_char_boundary(encode_utf8(s), index)
}

/// The length of the run at the front of `s` whose characters are all whitespace or all not.
pub open spec fn run_len(s: Seq<char>) -> int {
    if s.len() == 0 {
        0
    } else {
        1 + same_kind_len(s.drop_first(), white_space(s[0]))
    }
}

/// The length of the run at the front of `s` whose whitespace-ness is `kind`.
pub open spec fn same_kind_len(s: Seq<char>, kind: bool) -> int
    decreases s.len(),
{
    if s.len() == 0 || white_space(s[0]) != kind {
        0
    } else {
        1 + same_kind_len(s.drop_first(), kind)
    }
}

proof fn lemma_same_kind_len_exact(s: Seq<char>, kind: bool, n: int)
    requires
        0 <= n <= s.len(),
        forall|k: int| 0 <= k < n ==> white_space(#[trigger] s[k]) == kind,
        n == s.len() || white_space(s[n]) != kind,
    ensures
        same_kind_len(s, kind) == n,
    decreases n,
{
    if n > 0 {
        let t = s.drop_first();
        assert forall|k: int| 0 <= k < n - 1 implies white_space(#[trigger] t[k]) == kind by {
            assert(t[k] == s[k + 1]);
        }
        if n < s.len() {
            assert(t[n - 1] == s[n]);
        }
        assert(white_space(s[0]) == kind);
        lemma_same_kind_len_exact(t, kind, n - 1);
    }
}

/// The first character boundary is the end of the first character.
proof fn lemma_first_boundary(s: Seq<char>, m: int)
    requires
        s.len() > 0,
        0 < m < byte_len(s.take(1)),
    ensures
        !is_boundary(s, m),
{
    let bytes = encode_utf8(s);
    encode_utf8_valid_utf8(s);
    encode_utf8_first_scalar(s);
    assert(s.take(1).drop_first() =~= Seq::<char>::empty());
    assert(s.take(1)[0] == s[0]);
    lemma_byte_len_first(s.take(1));
    lemma_byte_len_split(s, 1);
    assert(length_of_first_scalar(bytes) == byte_len(s.take(1)));
    assert(m <= bytes.len());
    assert(is_char_boundary(bytes, m) == is_char_boundary(
        pop_first_scalar(bytes),
        m - length_of_first_scalar(bytes),
    ));
}

/// Text cut into units and runs.
pub trait StrExt {
    /// The characters of the text.
    spec fn chars_view(&self) -> Seq<char>;

    /// Whether `index` is a unit boundary.
    fn is_grapheme_boundary(&self, index: usize) -> (r: bool)
        ensures
            r == is_boundary(self.chars_view(), index as int),
    ;

    /// The first unit boundary after `index`; none when `index` is at the end or after it.
    fn next_grapheme_boundary(&self, index: usize) -> (r: Option<usize>)
        ensures
            index >= byte_len(self.chars_view()) ==> r is None,
            index < byte_len(self.chars_view()) ==> (r matches Some(b) && {
                &&& index < b <= byte_len(self.chars_view())
                &&& is_boundary(self.chars_view(), b as int)
                &&& forall|m: int|
                    index < m < b ==> !#[trigger] is_boundary(self.chars_view(), m)
            }),
    ;

    /// The units of the text, one after the other.
    fn graphemes(&self) -> (r: Graphemes<'_>)
        ensures
            r.rest() == self.chars_view(),
    ;

    /// The units of the text with their byte offsets.
    fn grapheme_indices(&self) -> (r: GraphemeIndices<'_>)
        ensures
            r.rest() == self.chars_view(),
            r.offset() == 0,
    ;

    /// The runs of whitespace and of non-whitespace in the text, one after the other.
    fn split_at_whitespace_boundaries(&self) -> (r: SplitAtWhitespaceBoundaries<'_>)
        ensures
            r.rest() == self.chars_view(),
    ;
}

impl StrExt for str {
    open spec fn chars_view(&self) -> Seq<char> {
        self@
    }

    fn is_grapheme_boundary(&self, index: usize) -> (r: bool) {
        self.is_char_boundary(index)
    }

    fn next_grapheme_boundary(&self, index: usize) -> (r: Option<usize>) {
        let len = self.as_bytes().len();
        if index >= len {
            return None;
        }
        proof {
            encode_utf8_valid_utf8(self@);
            is_char_boundary_start_end_of_seq(encode_utf8(self@));
        }
        let mut next = index;
        loop
            invariant
                len == byte_len(self@),
                is_boundary(self@, len as int),
                index <= next < len,
                forall|m: int| index < m <= next ==> !#[trigger] is_boundary(self@, m),
            decreases len - next,
        {
            next = next + 1;
            if self.is_grapheme_boundary(next) {
                return Some(next);
            }
        }
    }

    fn graphemes(&self) -> (r: Graphemes<'_>) {
        Graphemes { string: self }
    }

    fn grapheme_indices(&self) -> (r: GraphemeIndices<'_>) {
        GraphemeIndices { offset: 0, graphemes: self.graphemes() }
    }

    fn split_at_whitespace_boundaries(&self) -> (r: SplitAtWhitespaceBoundaries<'_>) {
        SplitAtWhitespaceBoundaries { string: self }
    }
}

/// The units of a text, one after the other.
#[derive(Debug)]
pub struct Graphemes<'a> {
    string: &'a str,
}

impl<'a> Graphemes<'a> {
    /// The text not handed out yet.
    pub closed spec fn rest(&self) -> Seq<char> {
        self.string@
    }

    /// The next unit: the first character of the rest.
    pub fn next(&mut self) -> (r: Option<&'a str>)
        ensures
            old(self).rest().len() == 0 ==> r is None && final(self).rest() == old(self).rest(),
            old(self).rest().len() > 0 ==> (r matches Some(g) && g@ == old(self).rest().take(1)
                && final(self).rest() == old(self).rest().drop_first()),
    {
        let ghost s = self.string@;
        let index = match self.string.next_grapheme_boundary(0) {
            Some(index) => index,
            None => {
                proof {
                    if s.len() > 0 {
                        lemma_byte_len_first(s);
                        lemma_char_byte_len(s[0]);
                    }
                }
                return None;
            },
        };
        proof {
            lemma_byte_len_first(s);
            lemma_char_byte_len(s[0]);
            lemma_byte_len_split(s, 1);
            lemma_prefix_boundary(s, 1);
            if index < byte_len(s.take(1)) {
                lemma_first_boundary(s, index as int);
            }
            if index > byte_len(s.take(1)) {
                assert(!is_boundary(s, byte_len(s.take(1)) as int));
            }
            assert(s.drop_first() =~= s.skip(1));
        }
        let (grapheme, rest) = split_chars(self.string, Ghost(1), index);
        self.string = rest;
        Some(grapheme)
    }
}

/// The units of a text with their byte offsets.
#[derive(Debug)]
pub struct GraphemeIndices<'a> {
    offset: usize,
    graphemes: Graphemes<'a>,
}

impl<'a> GraphemeIndices<'a> {
    /// The text not handed out yet.
    pub closed spec fn rest(&self) -> Seq<char> {
        self.graphemes.rest()
    }

    /// The byte offset of the rest in the whole text.
    pub closed spec fn offset(&self) -> int {
        self.offset as int
    }

    /// The next unit, with its byte offset.
    pub fn next(&mut self) -> (r: Option<(usize, &'a str)>)
        requires
            old(self).offset() + byte_len(old(self).rest()) <= usize::MAX,
        ensures
            final(self).offset() + byte_len(final(self).rest()) <= usize::MAX,
            old(self).rest().len() == 0 ==> r is None && final(self).rest() == old(self).rest(),
            old(self).rest().len() > 0 ==> (r matches Some((i, g)) && i == old(self).offset()
                && g@ == old(self).rest().take(1) && final(self).rest() == old(
                self,
            ).rest().drop_first() && final(self).offset() == old(self).offset() + byte_len(g@)),
    {
        let ghost s = self.graphemes.rest();
        let grapheme = match self.graphemes.next() {
            Some(g) => g,
            None => {
                return None;
            },
        };
        proof {
            lemma_byte_len_split(s, 1);
            assert(s.drop_first() =~= s.skip(1));
        }
        let offset = self.offset;
        self.offset = self.offset + grapheme.as_bytes().len();
        Some((offset, grapheme))
    }
}

/// The runs of whitespace and of non-whitespace in a text, one after the other.
#[derive(Debug)]
pub struct SplitAtWhitespaceBoundaries<'a> {
    string: &'a str,
}

impl<'a> SplitAtWhitespaceBoundaries<'a> {
    /// The text not handed out yet.
    pub closed spec fn rest(&self) -> Seq<char> {
        self.string@
    }

    /// The next run: the longest piece at the front of the rest whose characters are all
    /// whitespace or all not.
    pub fn next(&mut self) -> (r: Option<&'a str>)
        ensures
            old(self).rest().len() == 0 ==> r is None && final(self).rest() == old(self).rest(),
            old(self).rest().len() > 0 ==> (r matches Some(run) && run@ == old(self).rest().take(
                run_len(old(self).rest()),
            ) && final(self).rest() == old(self).rest().skip(run_len(old(self).rest()))),
    {
        if self.string.is_empty() {
            return None;
        }
        let chars = chars_of(self.string);
        let _bytes = self.string.as_bytes().len();
        let ghost s = chars@;
        let first_is_whitespace = char_is_whitespace(chars[0]);
        let mut end: usize = 1;
        let mut bytes: usize = crate::encoding::utf8_width(chars[0]);
        proof {
            assert(s.take(1).drop_first() =~= Seq::<char>::empty());
            lemma_byte_len_first(s.take(1));
            lemma_byte_len_split(s, 1);
        }
        let mut done = false;
        while !done && end < chars.len()
            invariant
                s == chars@,
                s == self.string@,
                byte_len(s) <= usize::MAX,
                1 <= end <= s.len(),
                first_is_whitespace == white_space(s[0]),
                bytes == byte_len(s.take(end as int)),
                forall|k: int| 1 <= k < end ==> white_space(#[trigger] s[k]) == first_is_whitespace,
                done ==> end < s.len() && white_space(s[end as int]) != first_is_whitespace,
            decreases s.len() - end + if done { 0int } else { 1int },
        {
            if char_is_whitespace(chars[end]) != first_is_whitespace {
                done = true;
                continue;
            }
            proof {
                let t = s.take(end + 1);
                assert(t =~= s.take(end as int) + seq![s[end as int]]);
                crate::encoding::lemma_encode_concat(s.take(end as int), seq![s[end as int]]);
                lemma_byte_len_first(seq![s[end as int]]);
                assert(seq![s[end as int]].drop_first() =~= Seq::<char>::empty());
                lemma_byte_len_split(s, end + 1);
            }
            bytes = bytes + crate::encoding::utf8_width(chars[end]);
            end = end + 1;
        }
        proof {
            let t = s.drop_first();
            assert forall|k: int| 0 <= k < end - 1 implies white_space(#[trigger] t[k])
                == first_is_whitespace by {
                assert(t[k] == s[k + 1]);
            }
            if end < s.len() {
                assert(t[end - 1] == s[end as int]);
            }
            lemma_same_kind_len_exact(t, first_is_whitespace, end - 1);
        }
        let (run, rest) = split_chars(self.string, Ghost(end as int), bytes);
        self.string = rest;
        Some(run)
    }
}

} // verus!

verus! {

/// A character boundary is the byte length of some run of leading characters.
proof fn lemma_boundary_chars(s: Seq<char>, i: int)
    requires
        is_boundary(s, i),
    ensures
        exists|k: int| 0 <= k <= s.len() && #[trigger] byte_len(s.take(k)) == i,
    decreases s.len(),
{
    let bytes = encode_utf8(s);
    encode_utf8_valid_utf8(s);
    if i == 0 {
        assert(s.take(0) =~= Seq::<char>::empty());
        assert(byte_len(s.take(0)) == 0);
    } else {
        encode_utf8_first_scalar(s);
        let rest = s.drop_first();
        assert(pop_first_scalar(bytes) =~= encode_utf8(rest));
        let w = length_of_first_scalar(bytes);
        assert(is_boundary(rest, i - w));
        lemma_boundary_chars(rest, i - w);
        let k = choose|k: int| 0 <= k <= rest.len() && #[trigger] byte_len(rest.take(k)) == i - w;
        assert(s.take(k + 1).drop_first() =~= rest.take(k));
        assert(s.take(k + 1)[0] == s[0]);
        lemma_byte_len_first(s.take(k + 1));
        assert(byte_len(s.take(k + 1)) == i);
    }
}

/// Whether `cuts` are byte offsets of `s` in order, each one a character boundary.
pub open spec fn cuts_in_order(s: Seq<char>, from: int, cuts: Seq<usize>) -> bool {
    &&& forall|j: int| 0 <= j < cuts.len() ==> #[trigger] is_boundary(s, cuts[j] as int)
    &&& forall|j: int| 0 <= j < cuts.len() ==> from <= #[trigger] cuts[j]
    &&& forall|a: int, b: int| 0 <= a < b < cuts.len() ==> cuts[a] <= cuts[b]
}

/// A text cut at byte offsets given in order: the pieces between one offset and the next,
/// from the start of the text to its end.
#[derive(Debug)]
pub struct SplitAtIndices<'a> {
    string: &'a str,
    start: usize,
    indices: Vec<usize>,
    position: usize,
    finished: bool,
}

impl<'a> SplitAtIndices<'a> {
    /// The whole text.
    pub closed spec fn text(&self) -> Seq<char> {
        self.string@
    }

    /// Where the next piece begins.
    pub closed spec fn start(&self) -> int {
        self.start as int
    }

    /// The offsets not used yet, in order, the end of the text last; empty once the last
    /// piece has been handed out.
    pub closed spec fn rest_cuts(&self) -> Seq<int> {
        if self.finished {
            Seq::empty()
        } else {
            self.indices@.skip(self.position as int).map_values(|i: usize| i as int).push(
                byte_len(self.string@) as int,
            )
        }
    }

    /// The offsets are in order and fall on character boundaries.
    pub closed spec fn wf(&self) -> bool {
        &&& byte_len(self.string@) <= usize::MAX
        &&& is_boundary(self.string@, self.start as int)
        &&& self.position <= self.indices@.len()
        &&& cuts_in_order(
            self.string@,
            self.start as int,
            self.indices@.skip(self.position as int),
        )
        &&& forall|j: int|
            0 <= j < self.indices@.len() ==> #[trigger] self.indices@[j] <= byte_len(self.string@)
    }

    /// Cuts `string` at `indices`.
    pub fn new(string: &'a str, indices: Vec<usize>) -> (r: SplitAtIndices<'a>)
        requires
            cuts_in_order(string@, 0, indices@),
            forall|j: int| 0 <= j < indices@.len() ==> #[trigger] indices@[j] <= byte_len(string@),
        ensures
            r.wf(),
            r.text() == string@,
            r.start() == 0,
            r.rest_cuts() == indices@.map_values(|i: usize| i as int).push(byte_len(string@) as int),
    {
        let _bytes = string.as_bytes().len();
        proof {
            encode_utf8_valid_utf8(string@);
            is_char_boundary_start_end_of_seq(encode_utf8(string@));
            assert(indices@.skip(0) =~= indices@);
        }
        SplitAtIndices { string, start: 0, indices, position: 0, finished: false }
    }

    /// The next piece: from where the last one ended to the next offset.
    pub fn next(&mut self) -> (r: Option<&'a str>)
        requires
            old(self).wf(),
        ensures
            final(self).wf(),
            final(self).text() == old(self).text(),
            old(self).rest_cuts().len() == 0 ==> r is None,
            old(self).rest_cuts().len() > 0 ==> (r matches Some(piece) && {
                let end = old(self).rest_cuts()[0];
                &&& encode_utf8(piece@) == encode_utf8(old(self).text()).subrange(
                    old(self).start(),
                    end,
                )
                &&& final(self).start() == end
                &&& final(self).rest_cuts() == old(self).rest_cuts().drop_first()
            }),
    {
        let ghost s = self.string@;
        let len = self.string.as_bytes().len();
        if self.finished {
            return None;
        }
        let end = if self.position < self.indices.len() {
            self.indices[self.position]
        } else {
            len
        };
        proof {
            encode_utf8_valid_utf8(s);
            is_char_boundary_start_end_of_seq(encode_utf8(s));
            if self.position < self.indices@.len() {
                assert(self.indices@.skip(self.position as int)[0] == end);
            }
            lemma_boundary_chars(s, end as int);
            lemma_boundary_chars(s, self.start as int);
        }
        let ghost k2 = choose|k: int| 0 <= k <= s.len() && #[trigger] byte_len(s.take(k)) == end;
        let ghost k1 = choose|k: int| 0 <= k <= s.len() && #[trigger] byte_len(s.take(k))
            == self.start;
        proof {
            lemma_byte_len_split(s, k1);
            lemma_byte_len_split(s, k2);
            if k1 > k2 {
                lemma_byte_len_split(s.take(k1), k2);
                assert(s.take(k1).take(k2) =~= s.take(k2));
                crate::encoding::lemma_byte_len_positive(s.take(k1).skip(k2));
            }
            assert(s.take(k2).take(k1) =~= s.take(k1));
        }
        let (head, _) = split_chars(self.string, Ghost(k2), end);
        let (_, piece) = split_chars(head, Ghost(k1), self.start);
        proof {
            lemma_byte_len_split(s.take(k2), k1);
            assert(s.take(k2).skip(k1) =~= s.subrange(k1, k2));
            assert(s =~= s.take(k1) + s.subrange(k1, k2) + s.skip(k2));
            crate::encoding::lemma_encode_concat(s.take(k1) + s.subrange(k1, k2), s.skip(k2));
            crate::encoding::lemma_encode_concat(s.take(k1), s.subrange(k1, k2));
            assert(encode_utf8(piece@) =~= encode_utf8(s).subrange(self.start as int, end as int));
        }
        self.start = end;
        if self.position < self.indices.len() {
            self.position = self.position + 1;
            proof {
                assert(self.indices@.skip(self.position as int) =~= old(self).indices@.skip(
                    old(self).position as int,
                ).drop_first());
                assert(self.rest_cuts() =~= old(self).rest_cuts().drop_first());
            }
        } else {
            self.finished = true;
            proof {
                assert(old(self).rest_cuts().len() == 1);
                assert(self.rest_cuts() =~= old(self).rest_cuts().drop_first());
            }
        }
        Some(piece)
    }
}

} // verus!
