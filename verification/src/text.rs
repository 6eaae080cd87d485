//! Characters and byte offsets of a path.

use vstd::prelude::*;
use vstd::utf8::*;

verus! {

/// Whether a character has the Unicode `Uppercase` property.
pub uninterp spec fn char_is_uppercase(c: char) -> bool;

/// The lowercase mapping of a character, in the order in which it is yielded.
pub uninterp spec fn char_lowercase(c: char) -> Seq<char>;

/// `char::is_uppercase`: the answer depends on the character alone and is
/// named by [`char_is_uppercase`]; nothing more is claimed of it.
#[verifier::external_body]
pub(crate) fn is_uppercase(c: char) -> (b: bool)
    ensures
        b == char_is_uppercase(c),
{
    c.is_uppercase()
}

/// `char::to_lowercase`: the characters that the returned iterator yields,
/// collected in order. They depend on the character alone and are named by
/// [`char_lowercase`]; the mapping is documented to hold one or more
/// characters.
#[verifier::external_body]
pub(crate) fn to_lowercase(c: char) -> (lower: Vec<char>)
    ensures
        lower@ == char_lowercase(c),
        lower@.len() >= 1,
{
    c.to_lowercase().collect()
}

/// `String::push`: appends one character to the end of the string.
#[verifier::external_body]
pub(crate) fn push_char(s: &mut String, c: char)
    ensures
        final(s)@ == old(s)@.push(c),
{
    s.push(c)
}

/// The characters of `source`, in order.
pub fn characters(source: &str) -> (chars: Vec<char>)
    ensures
        chars@ == source@,
{
    let mut chars: Vec<char> = Vec::new();
    for c in it: source.chars()
        invariant
            it.seq() == source@,
            chars@ == it.seq().take(it.index()),
    {
        chars.push(c);
        assert(it.seq().take(it.index() + 1) =~= it.seq().take(it.index()).push(c));
    }
    assert(chars@ =~= source@);
    chars
}

/// The `i`-th of `chars`.
pub(crate) fn char_at(chars: &Vec<char>, i: usize) -> (c: char)
    requires
        i < chars@.len(),
    ensures
        c == chars@[i as int],
{
    chars[i]
}

/// A number that stands for a text where it is looked up: equal texts have
/// equal digests.
pub open spec fn digest(key: Seq<char>) -> u64
    decreases key.len(),
{
    if key.len() == 0 {
        0
    } else {
        ((digest(key.drop_last()) * 31 + key.last() as u32) % 0x1_0000_0000_0000_0000) as u64
    }
}

/// Whether `i` is among `places`.
pub open spec fn holds(places: Seq<usize>, i: int) -> bool {
    exists|k: int| 0 <= k < places.len() && #[trigger] places[k] == i
}

/// The digest of `key`.
pub fn digest_of(key: &String) -> (h: u64)
    ensures
        h == digest(key@),
{
    let text = key.as_str();
    let mut h: u64 = 0;
    assert(key@.take(0) =~= Seq::<char>::empty());
    for c in it: text.chars()
        invariant
            it.seq() == key@,
            h == digest(key@.take(it.index())),
    {
        proof {
            assert(key@.take(it.index() + 1).drop_last() =~= key@.take(it.index()));
            assert(key@.take(it.index() + 1).last() == c);
        }
        let wide: u128 = (h as u128) * 31 + (c as u32 as u128);
        h = (wide % 0x1_0000_0000_0000_0000) as u64;
    }
    assert(key@.take(key@.len() as int) =~= key@);
    h
}

/// The number of bytes that the UTF-8 encoding of `c` takes.
pub open spec fn utf8_width(c: char) -> nat {
    encode_scalar(c as u32).len()
}

/// The number of bytes that the UTF-8 encoding of `s` takes.
pub open spec fn byte_length(s: Seq<char>) -> nat {
    encode_utf8(s).len()
}

/// A path is short enough for every offset and score derived from it to fit
/// a machine word.
pub open spec fn path_fits(path: Seq<char>) -> bool {
    byte_length(path) + 5 <= usize::MAX
}

/// The number of bytes that `c` takes in UTF-8.
pub fn width(c: char) -> (w: usize)
    ensures
        w == utf8_width(c),
        1 <= w <= 4,
{
    proof {
        char_is_scalar(c);
    }
    let v: u32 = c as u32;
    if v < 0x80 {
        1
    } else if v < 0x800 {
        2
    } else if v < 0x10000 {
        3
    } else {
        4
    }
}

/// Whether `path` is short enough to be analysed.
pub fn fits(path: &str) -> (b: bool)
    ensures
        b == path_fits(path@),
{
    let bytes = path.as_bytes();
    bytes.len() <= usize::MAX - 5
}

/// Encoding distributes over concatenation.
pub proof fn lemma_encode_concat(a: Seq<char>, b: Seq<char>)
    ensures
        encode_utf8(a + b) =~= encode_utf8(a) + encode_utf8(b),
    decreases a.len(),
{
    if a.len() == 0 {
        assert(a + b =~= b);
    } else {
        assert((a + b).drop_first() =~= a.drop_first() + b);
        lemma_encode_concat(a.drop_first(), b);
    }
}

/// Appending a character lengthens the encoding by that character's width.
pub proof fn lemma_byte_length_push(s: Seq<char>, c: char)
    ensures
        byte_length(s.push(c)) == byte_length(s) + utf8_width(c),
        1 <= utf8_width(c) <= 4,
{
    lemma_encode_concat(s, seq![c]);
    assert(s.push(c) =~= s + seq![c]);
    assert(seq![c].drop_first() =~= Seq::<char>::empty());
    assert(encode_utf8(seq![c]) =~= encode_scalar(c as u32)) by {
        reveal_with_fuel(encode_utf8, 2);
    }
    char_is_scalar(c);
}

/// A string has at least one byte per character, and a prefix is no longer
/// than the whole.
pub proof fn lemma_byte_length_prefix(s: Seq<char>, k: int)
    requires
        0 <= k <= s.len(),
    ensures
        k <= byte_length(s.take(k)) <= byte_length(s),
    decreases k,
{
    assert(s =~= s.take(k) + s.skip(k));
    lemma_encode_concat(s.take(k), s.skip(k));
    if k > 0 {
        lemma_byte_length_prefix(s, k - 1);
        assert(s.take(k) =~= s.take(k - 1).push(s[k - 1]));
        lemma_byte_length_push(s.take(k - 1), s[k - 1]);
    } else {
        assert(s.take(0) =~= Seq::<char>::empty());
    }
}

/// A longer prefix takes at least one more byte for each character more.
pub proof fn lemma_byte_length_grows(s: Seq<char>, a: int, b: int)
    requires
        0 <= a <= b <= s.len(),
    ensures
        byte_length(s.take(a)) + (b - a) <= byte_length(s.take(b)),
{
    let rest = s.subrange(a, b);
    assert(s.take(b) =~= s.take(a) + rest);
    lemma_encode_concat(s.take(a), rest);
    lemma_byte_length_prefix(rest, rest.len() as int);
    assert(rest.take(rest.len() as int) =~= rest);
}

} // verus!
