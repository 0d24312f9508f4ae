//! Characters, their classes, and byte offsets into UTF-8 text.
use vstd::prelude::*;
use vstd::utf8::*;

verus! {

/// The characters that carry the Unicode `White_Space` property.
pub open spec fn is_white_space(c: char) -> bool {
    ||| '\u{9}' <= c <= '\u{d}'
    ||| c == ' '
    ||| c == '\u{85}'
    ||| c == '\u{a0}'
    ||| c == '\u{1680}'
    ||| '\u{2000}' <= c <= '\u{200a}'
    ||| c == '\u{2028}'
    ||| c == '\u{2029}'
    ||| c == '\u{202f}'
    ||| c == '\u{205f}'
    ||| c == '\u{3000}'
}

/// A character that may stand inside an unquoted word: not a quote, not the escape character,
/// and not whitespace.
pub open spec fn is_word_char(c: char) -> bool {
    c != '\'' && c != '"' && c != '\\' && !is_white_space(c)
}

/// Membership in the whitespace class (`ws`) or in the word class (`!ws`).
pub open spec fn in_class(c: char, ws: bool) -> bool {
    if ws {
        is_white_space(c)
    } else {
        is_word_char(c)
    }
}

/// The number of leading characters of `r` that belong to the class.
pub open spec fn run_len(r: Seq<char>, ws: bool) -> nat
    decreases r.len(),
{
    if r.len() > 0 && in_class(r[0], ws) {
        1 + run_len(r.drop_first(), ws)
    } else {
        0
    }
}

/// The number of bytes that the UTF-8 encoding of `cs` takes.
pub open spec fn utf8_len(cs: Seq<char>) -> nat {
    encode_utf8(cs).len()
}

/// The byte offset at which the character with index `i` of `s` begins.
pub open spec fn byte_offset(s: Seq<char>, i: int) -> nat {
    utf8_len(s.take(i))
}

/// Relies on `char::is_whitespace`: true exactly for the characters with the Unicode
/// `White_Space` property.
#[verifier::external_body]
pub(crate) fn white_space(c: char) -> (r: bool)
    ensures
        r == is_white_space(c),
{
    c.is_whitespace()
}

/// Whether `c` may stand inside an unquoted word.
pub fn is_word_character(c: char) -> (r: bool)
    ensures
        r == is_word_char(c),
{
    c != '\'' && c != '"' && c != '\\' && !white_space(c)
}

/// The number of bytes of the UTF-8 encoding of `c`.
pub fn char_utf8_len(c: char) -> (n: usize)
    ensures
        n == utf8_len(seq![c]),
        1 <= n <= 4,
{
    proof {
        lemma_utf8_len_single(c);
    }
    let u = c as u32;
    if u <= 0x7f {
        1
    } else if u <= 0x7ff {
        2
    } else if u <= 0xffff {
        3
    } else {
        4
    }
}

/// The byte length of a single character, by the range of its scalar value.
pub proof fn lemma_utf8_len_single(c: char)
    ensures
        utf8_len(seq![c]) == (if (c as u32) <= 0x7f {
            1nat
        } else if (c as u32) <= 0x7ff {
            2nat
        } else if (c as u32) <= 0xffff {
            3nat
        } else {
            4nat
        }),
{
    char_is_scalar(c);
    let s = seq![c];
    assert(s.drop_first() =~= Seq::<char>::empty());
    assert(encode_utf8(s.drop_first()) =~= Seq::<u8>::empty());
    assert(encode_utf8(s) =~= encode_scalar(c as u32));
}

/// Encoding distributes over concatenation.
pub proof fn lemma_encode_concat(p: Seq<char>, q: Seq<char>)
    ensures
        encode_utf8(p + q) == encode_utf8(p) + encode_utf8(q),
    decreases p.len(),
{
    if p.len() == 0 {
        assert(p + q =~= q);
        assert(encode_utf8(p) =~= Seq::<u8>::empty());
        assert(encode_utf8(p) + encode_utf8(q) =~= encode_utf8(q));
    } else {
        assert((p + q).drop_first() =~= p.drop_first() + q);
        assert((p + q)[0] == p[0]);
        lemma_encode_concat(p.drop_first(), q);
        let e = encode_scalar(p[0] as u32);
        assert(encode_utf8(p + q) == e + encode_utf8(p.drop_first() + q));
        assert(encode_utf8(p) == e + encode_utf8(p.drop_first()));
        assert(e + (encode_utf8(p.drop_first()) + encode_utf8(q)) =~= (e + encode_utf8(
            p.drop_first(),
        )) + encode_utf8(q));
    }
}

/// The encoding of a prefix ends on a character boundary.
proof fn lemma_prefix_boundary(p: Seq<char>, q: Seq<char>)
    ensures
        is_char_boundary(encode_utf8(p + q), encode_utf8(p).len() as int),
    decreases p.len(),
{
    let b = encode_utf8(p + q);
    encode_utf8_valid_utf8(p + q);
    if p.len() == 0 {
        assert(encode_utf8(p) =~= Seq::<u8>::empty());
    } else {
        let pd = p.drop_first();
        assert((p + q).drop_first() =~= pd + q);
        assert((p + q)[0] == p[0]);
        encode_utf8_first_scalar(p + q);
        char_is_scalar(p[0]);
        let e = encode_scalar(p[0] as u32);
        assert(e.len() >= 1);
        lemma_encode_concat(p, q);
        lemma_encode_concat(pd, q);
        assert(b == e + encode_utf8(pd + q));
        assert(pop_first_scalar(b) =~= encode_utf8(pd + q));
        assert(encode_utf8(p) == e + encode_utf8(pd));
        lemma_prefix_boundary(pd, q);
    }
}

/// Splits `s` after its first `k` characters, which take `n` bytes.
pub(crate) fn split_chars<'a>(s: &'a str, n: usize, Ghost(k): Ghost<int>) -> (r: (&'a str, &'a str))
    requires
        0 <= k <= s@.len(),
        n == utf8_len(s@.take(k)),
    ensures
        r.0@ == s@.take(k),
        r.1@ == s@.skip(k),
{
    let ghost p = s@.take(k);
    let ghost q = s@.skip(k);
    proof {
        assert(s@ =~= p + q);
        lemma_prefix_boundary(p, q);
        lemma_encode_concat(p, q);
        assert(encode_utf8(s@).subrange(0, n as int) =~= encode_utf8(p));
        assert(encode_utf8(s@).subrange(n as int, encode_utf8(s@).len() as int) =~= encode_utf8(
            q,
        ));
    }
    let r = s.split_at(n);
    proof {
        encode_utf8_decode_utf8(r.0@);
        encode_utf8_decode_utf8(r.1@);
        encode_utf8_decode_utf8(p);
        encode_utf8_decode_utf8(q);
    }
    r
}

/// Byte offsets add up along the characters between them.
pub proof fn lemma_byte_offset_step(s: Seq<char>, i: int, j: int)
    requires
        0 <= i <= j <= s.len(),
    ensures
        byte_offset(s, j) == byte_offset(s, i) + utf8_len(s.subrange(i, j)),
        byte_offset(s, j) <= utf8_len(s),
{
    assert(s.take(j) =~= s.take(i) + s.subrange(i, j));
    lemma_encode_concat(s.take(i), s.subrange(i, j));
    assert(s =~= s.take(j) + s.skip(j));
    lemma_encode_concat(s.take(j), s.skip(j));
}

/// The characters of `s` from index `i` up to index `j`, which begin at bytes `lo` and `hi`.
pub(crate) fn substring<'a>(s: &'a str, lo: usize, hi: usize, Ghost(i): Ghost<int>, Ghost(j): Ghost<int>) -> (r: &'a str)
    requires
        0 <= i <= j <= s@.len(),
        lo == byte_offset(s@, i),
        hi == byte_offset(s@, j),
    ensures
        r@ == s@.subrange(i, j),
{
    let (head, _) = split_chars(s, hi, Ghost(j));
    proof {
        assert(head@.take(i) =~= s@.take(i));
    }
    let (_, mid) = split_chars(head, lo, Ghost(i));
    proof {
        assert(mid@ =~= s@.subrange(i, j));
    }
    mid
}

} // verus!
