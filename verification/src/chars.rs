//! Character-level primitives: the ASCII digit test, the Unicode case tests,
//! the lowercase mapping, and byte positions inside a text's UTF-8 encoding.

use vstd::prelude::*;

verus! {

use vstd::utf8::encode_utf8;
use vstd::utf8::encode_scalar;
use vstd::utf8::char_is_scalar;

/// Whether `c` is an ASCII decimal digit, `'0'` through `'9'`.
pub open spec fn is_digit_char(c: char) -> bool {
    '0' <= c && c <= '9'
}

/// ASCII-only digit test: exactly the characters `'0'` through `'9'` count,
/// never any other numeral.
pub fn char_is_digit(c: char) -> (r: bool)
    ensures
        r == is_digit_char(c),
{
    let u = c as u32;
    48 <= u && u <= 57
}

/// Whether `c` has the Unicode property Lowercase.
pub uninterp spec fn unicode_lowercase(c: char) -> bool;

/// Whether `c` has the Unicode property Uppercase.
pub uninterp spec fn unicode_uppercase(c: char) -> bool;

/// The Unicode lowercase mapping of a text.
pub uninterp spec fn lower_chars(s: Seq<char>) -> Seq<char>;

/// Relies on char::is_lowercase: whether the character has the Unicode
/// derived property Lowercase; a pure function of the character alone.
#[verifier::external_body]
pub fn char_is_lowercase(c: char) -> (r: bool)
    ensures
        r == unicode_lowercase(c),
{
    c.is_lowercase()
}

/// Relies on char::is_uppercase: whether the character has the Unicode
/// derived property Uppercase; a pure function of the character alone.
#[verifier::external_body]
pub fn char_is_uppercase(c: char) -> (r: bool)
    ensures
        r == unicode_uppercase(c),
{
    c.is_uppercase()
}

/// Relies on str::to_lowercase: the Unicode lowercase mapping of the text,
/// a function of its characters alone (no locale is consulted).
#[verifier::external_body]
pub fn to_lowercase(s: &str) -> (r: String)
    ensures
        r@ == lower_chars(s@),
{
    s.to_lowercase()
}

/// The length in bytes of the UTF-8 encoding of `s`.
pub fn str_byte_len(s: &str) -> (n: usize)
    ensures
        n == encode_utf8(s@).len(),
{
    let bytes = s.as_bytes();
    proof {
        vstd::slice::axiom_spec_len::<u8>(bytes);
    }
    bytes.len()
}

/// Byte offset at which the `i`-th character of `s` starts in the UTF-8
/// encoding of `s`.
pub open spec fn byte_index(s: Seq<char>, i: int) -> int {
    encode_utf8(s.take(i)).len() as int
}

/// Width in bytes of the UTF-8 encoding of one character.
pub fn char_utf8_len(c: char) -> (n: usize)
    ensures
        n == encode_scalar(c as u32).len(),
        1 <= n <= 4,
{
    proof {
        char_is_scalar(c);
    }
    let u = c as u32;
    if u < 0x80 {
        1
    } else if u < 0x800 {
        2
    } else if u < 0x10000 {
        3
    } else {
        4
    }
}

proof fn lemma_encode_utf8_push(s: Seq<char>, c: char)
    ensures
        encode_utf8(s.push(c)) == encode_utf8(s) + encode_scalar(c as u32),
    decreases s.len(),
{
    if s.len() == 0 {
        let p = s.push(c);
        assert(p.len() == 1);
        assert(p[0] == c);
        assert(p.drop_first() =~= Seq::<char>::empty());
        assert(encode_utf8(p) == encode_scalar(c as u32) + encode_utf8(p.drop_first()));
        assert(encode_utf8(p.drop_first()).len() == 0);
        assert(encode_utf8(s).len() == 0);
        assert(encode_utf8(p) =~= encode_utf8(s) + encode_scalar(c as u32));
    } else {
        assert(s.push(c)[0] == s[0]);
        assert(s.push(c).drop_first() =~= s.drop_first().push(c));
        lemma_encode_utf8_push(s.drop_first(), c);
        let head = encode_scalar(s[0] as u32);
        let tail = encode_utf8(s.drop_first());
        let last = encode_scalar(c as u32);
        assert(encode_utf8(s.push(c)) == head + encode_utf8(s.drop_first().push(c)));
        assert(encode_utf8(s.drop_first().push(c)) == tail + last);
        assert(head + (tail + last) =~= (head + tail) + last);
        assert(encode_utf8(s) == head + tail);
    }
}

/// Stepping one character forward advances the byte offset by that
/// character's encoded width.
pub proof fn lemma_byte_index_step(s: Seq<char>, i: int)
    requires
        0 <= i < s.len(),
    ensures
        byte_index(s, i + 1) == byte_index(s, i) + encode_scalar(s[i] as u32).len(),
{
    assert(s.take(i + 1) =~= s.take(i).push(s[i]));
    lemma_encode_utf8_push(s.take(i), s[i]);
}

/// Every character occupies at least one and at most four bytes.
pub proof fn lemma_scalar_len_bounds(c: char)
    ensures
        1 <= encode_scalar(c as u32).len() <= 4,
{
    char_is_scalar(c);
}

/// Byte offsets grow strictly with the character index.
pub proof fn lemma_byte_index_mono(s: Seq<char>, i: int, j: int)
    requires
        0 <= i <= j <= s.len(),
    ensures
        byte_index(s, i) <= byte_index(s, j),
        i < j ==> byte_index(s, i) < byte_index(s, j),
    decreases j - i,
{
    if i < j {
        lemma_byte_index_step(s, j - 1);
        lemma_scalar_len_bounds(s[j - 1]);
        lemma_byte_index_mono(s, i, j - 1);
    }
}

/// The byte offset past the last character is the full encoded length.
pub proof fn lemma_byte_index_full(s: Seq<char>)
    ensures
        byte_index(s, s.len() as int) == encode_utf8(s).len(),
        byte_index(s, 0) == 0,
{
    assert(s.take(s.len() as int) =~= s);
    assert(s.take(0) =~= Seq::<char>::empty());
}

/// Two character indices with the same byte offset are the same index.
pub proof fn lemma_byte_index_injective(s: Seq<char>, i: int, j: int)
    requires
        0 <= i <= s.len(),
        0 <= j <= s.len(),
        byte_index(s, i) == byte_index(s, j),
    ensures
        i == j,
{
    if i < j {
        lemma_byte_index_mono(s, i, j);
    }
    if j < i {
        lemma_byte_index_mono(s, j, i);
    }
}

} // verus!
