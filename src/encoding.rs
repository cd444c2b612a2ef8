//! Byte lengths of text: the link between the characters the tokenizer reads and the byte
//! offsets at which a line is sliced.
use vstd::prelude::*;
use vstd::utf8::*;

verus! {

/// How many bytes the UTF-8 encoding of `s` takes.
pub open spec fn byte_len(s: Seq<char>) -> nat {
    encode_utf8(s).len()
}

/// How many bytes the UTF-8 encoding of `c` takes.
pub open spec fn char_byte_len(c: char) -> nat {
    encode_scalar(c as u32).len()
}

/// The number of leading characters of `s` whose encoding fills the first `bytes` bytes.
pub open spec fn prefix_chars(s: Seq<char>, bytes: int) -> int
    decreases s.len(),
{
    if bytes <= 0 || s.len() == 0 {
        0
    } else {
        1 + prefix_chars(s.drop_first(), bytes - char_byte_len(s[0]))
    }
}

/// How many bytes the UTF-8 encoding of `c` takes.
pub fn utf8_width(c: char) -> (r: usize)
    ensures
        r == char_byte_len(c),
        1 <= r <= 4,
{
    proof {
        char_is_scalar(c);
    }
    let v = c as u32;
    if v < 0x80 {
        1
    } else if v < 0x800 {
        2
    } else if v < 0x10000 {
        3
    } else {
        4
    }
}

pub proof fn lemma_char_byte_len(c: char)
    ensures
        1 <= char_byte_len(c) <= 4,
        c == '\r' || c == '\n' ==> char_byte_len(c) == 1,
{
    char_is_scalar(c);
}

/// A text with one more character at the front.
pub proof fn lemma_byte_len_first(s: Seq<char>)
    requires
        s.len() > 0,
    ensures
        byte_len(s) == char_byte_len(s[0]) + byte_len(s.drop_first()),
{
}

/// A text with characters takes at least one byte.
pub proof fn lemma_byte_len_positive(s: Seq<char>)
    requires
        s.len() > 0,
    ensures
        byte_len(s) > 0,
{
    lemma_char_byte_len(s[0]);
}

/// The encoding of two texts put together is the two encodings put together.
pub proof fn lemma_encode_concat(a: Seq<char>, b: Seq<char>)
    ensures
        encode_utf8(a + b) == encode_utf8(a) + encode_utf8(b),
        byte_len(a + b) == byte_len(a) + byte_len(b),
    decreases a.len(),
{
    if a.len() == 0 {
        assert(a + b =~= b);
        assert(encode_utf8(a) + encode_utf8(b) =~= encode_utf8(b));
    } else {
        assert((a + b).drop_first() =~= a.drop_first() + b);
        assert((a + b)[0] == a[0]);
        lemma_encode_concat(a.drop_first(), b);
        assert(encode_utf8(a + b) =~= encode_utf8(a) + encode_utf8(b));
    }
}

/// Byte length of a text split in two.
pub proof fn lemma_byte_len_split(s: Seq<char>, k: int)
    requires
        0 <= k <= s.len(),
    ensures
        byte_len(s) == byte_len(s.take(k)) + byte_len(s.skip(k)),
        encode_utf8(s) == encode_utf8(s.take(k)) + encode_utf8(s.skip(k)),
{
    assert(s =~= s.take(k) + s.skip(k));
    lemma_encode_concat(s.take(k), s.skip(k));
}

/// Different texts have different encodings.
pub proof fn lemma_encode_injective(a: Seq<char>, b: Seq<char>)
    requires
        encode_utf8(a) == encode_utf8(b),
    ensures
        a == b,
{
    encode_utf8_decode_utf8(a);
    encode_utf8_decode_utf8(b);
}

/// The encoded length of the first `k` characters is a character boundary.
pub proof fn lemma_prefix_boundary(s: Seq<char>, k: int)
    requires
        0 <= k <= s.len(),
    ensures
        is_char_boundary(encode_utf8(s), byte_len(s.take(k)) as int),
    decreases k,
{
    let bytes = encode_utf8(s);
    encode_utf8_valid_utf8(s);
    if k == 0 {
        assert(s.take(0) =~= Seq::<char>::empty());
    } else {
        let rest = s.drop_first();
        encode_utf8_first_scalar(s);
        assert(pop_first_scalar(bytes) =~= encode_utf8(rest));
        assert(s.take(k).drop_first() =~= rest.take(k - 1));
        lemma_byte_len_first(s.take(k));
        lemma_char_byte_len(s[0]);
        lemma_byte_len_split(s, k);
        lemma_prefix_boundary(rest, k - 1);
    }
}

/// Counting the characters of an encoded prefix gives back its length in characters.
pub proof fn lemma_prefix_chars(s: Seq<char>, k: int)
    requires
        0 <= k <= s.len(),
    ensures
        prefix_chars(s, byte_len(s.take(k)) as int) == k,
    decreases k,
{
    if k == 0 {
        assert(s.take(0) =~= Seq::<char>::empty());
    } else {
        assert(s.take(k).drop_first() =~= s.drop_first().take(k - 1));
        lemma_byte_len_first(s.take(k));
        lemma_char_byte_len(s[0]);
        lemma_prefix_chars(s.drop_first(), k - 1);
    }
}

/// The characters of `s`.
pub fn chars_of(s: &str) -> (r: Vec<char>)
    ensures
        r@ == s@,
{
    let mut r: Vec<char> = Vec::new();
    for c in it: s.chars()
        invariant
            r@ == it.seq().take(it.index() as int),
    {
        r.push(c);
        assert(r@ =~= it.seq().take(it.index() + 1));
    }
    r
}

} // verus!
