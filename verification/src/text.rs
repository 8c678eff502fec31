//! Character-level helpers: getting at the characters of a `str`, building
//! `String`s, and measuring UTF-8 byte offsets.

use vstd::prelude::*;
use vstd::std_specs::iter::IteratorSpec;
use vstd::utf8::*;

verus! {

broadcast use vstd::string::group_string_axioms;

/// The characters of `source`, in order.
pub fn chars_of(source: &str) -> (chars: Vec<char>)
    ensures
        chars@ == source@,
{
    let mut chars: Vec<char> = Vec::new();
    let mut it = source.chars();
    loop
        invariant
            chars@ + it.remaining() == source@,
            it.decrease() is Some,
        decreases it.decrease()->0,
    {
        let ghost before = it.remaining();
        match it.next() {
            Some(c) => {
                chars.push(c);
                assert(chars@ + it.remaining() =~= source@) by {
                    assert(before =~= seq![c] + it.remaining());
                }
            },
            None => {
                assert(chars@ =~= source@);
                return chars;
            },
        }
    }
}


/// Appends one character to a `String` (`String::push`).
#[verifier::external_body]
fn push_char(out: &mut String, c: char)
    ensures
        final(out)@ == old(out)@.push(c),
{
    out.push(c);
}

/// Appends `chars[start..end]` to `out`.
pub fn push_range(out: &mut String, chars: &Vec<char>, start: usize, end: usize)
    requires
        start <= end <= chars@.len(),
    ensures
        final(out)@ == old(out)@ + chars@.subrange(start as int, end as int),
{
    let mut i = start;
    while i < end
        invariant
            start <= i <= end <= chars@.len(),
            out@ == old(out)@ + chars@.subrange(start as int, i as int),
        decreases end - i,
    {
        push_char(out, chars[i]);
        i += 1;
        assert(out@ =~= old(out)@ + chars@.subrange(start as int, i as int));
    }
}

/// Appends one character to `out`.
pub fn push_one(out: &mut String, c: char)
    ensures
        final(out)@ == old(out)@.push(c),
{
    push_char(out, c);
}

/// A new `String` holding `chars[start..end]`.
pub fn string_from(chars: &Vec<char>, start: usize, end: usize) -> (s: String)
    requires
        start <= end <= chars@.len(),
    ensures
        s@ == chars@.subrange(start as int, end as int),
{
    let mut s = String::new();
    push_range(&mut s, chars, start, end);
    assert(s@ =~= chars@.subrange(start as int, end as int));
    s
}

/// The number of bytes of the UTF-8 encoding of `chars`.
pub open spec fn utf8_len(chars: Seq<char>) -> nat {
    encode_utf8(chars).len()
}

/// The UTF-8 encoding of a concatenation is the concatenation of the encodings.
pub proof fn lemma_encode_utf8_concat(a: Seq<char>, b: Seq<char>)
    ensures
        encode_utf8(a + b) == encode_utf8(a) + encode_utf8(b),
    decreases a.len(),
{
    if a.len() == 0 {
        assert(a + b =~= b);
        assert(encode_utf8(a) + encode_utf8(b) =~= encode_utf8(b));
    } else {
        lemma_encode_utf8_concat(a.drop_first(), b);
        assert((a + b).drop_first() =~= a.drop_first() + b);
        assert((a + b)[0] == a[0]);
        assert(encode_utf8(a + b) =~= encode_scalar(a[0] as u32) + (encode_utf8(a.drop_first())
            + encode_utf8(b)));
    }
}

/// The UTF-8 encoding of a prefix is no longer than that of the whole.
pub proof fn lemma_utf8_len_prefix(chars: Seq<char>, p: int)
    requires
        0 <= p <= chars.len(),
    ensures
        utf8_len(chars.take(p)) <= utf8_len(chars),
{
    lemma_encode_utf8_concat(chars.take(p), chars.skip(p));
    assert(chars.take(p) + chars.skip(p) =~= chars);
}

/// The number of bytes in the UTF-8 encoding of `c`.
pub fn char_width(c: char) -> (w: usize)
    ensures
        w == encode_scalar(c as u32).len(),
        1 <= w <= 4,
{
    let v = c as u32;
    proof {
        char_is_scalar(c);
    }
    if v < 0x80 {
        1
    } else if v < 0x800 {
        2
    } else if v < 0x10000 {
        3
    } else {
        4
    }
}

/// The first byte of the UTF-8 encoding of `c`.
pub fn leading_byte(c: char) -> (b: u8)
    ensures
        b == encode_scalar(c as u32)[0],
{
    let v = c as u32;
    proof {
        char_is_scalar(c);
    }
    if v < 0x80 {
        (v & 0x7F) as u8
    } else if v < 0x800 {
        0xC0 | ((v >> 6) & 0x1F) as u8
    } else if v < 0x10000 {
        0xE0 | ((v >> 12) & 0x0F) as u8
    } else {
        0xF0 | ((v >> 18) & 0x7) as u8
    }
}

/// The byte offset of character `p` in a text whose characters are `chars`
/// and whose UTF-8 encoding is `total` bytes long.
pub fn byte_offset(chars: &Vec<char>, p: usize, total: usize) -> (offset: usize)
    requires
        p <= chars@.len(),
        total == utf8_len(chars@),
    ensures
        offset == utf8_len(chars@.take(p as int)),
{
    let mut i: usize = 0;
    let mut acc: usize = 0;
    while i < p
        invariant
            i <= p <= chars@.len(),
            total == utf8_len(chars@),
            acc == utf8_len(chars@.take(i as int)),
        decreases p - i,
    {
        let w = char_width(chars[i]);
        proof {
            lemma_encode_utf8_concat(chars@.take(i as int), seq![chars@[i as int]]);
            assert(chars@.take(i as int) + seq![chars@[i as int]] =~= chars@.take(i + 1));
            assert(encode_utf8(seq![chars@[i as int]]) =~= encode_scalar(chars@[i as int] as u32)) by {
                let one = seq![chars@[i as int]];
                assert(one.drop_first() =~= Seq::<char>::empty());
                assert(encode_utf8(one.drop_first()) =~= Seq::<u8>::empty());
                assert(encode_utf8(one) == encode_scalar(one[0] as u32) + encode_utf8(one.drop_first()));
            }
            lemma_utf8_len_prefix(chars@, i + 1);
        }
        acc = acc + w;
        i = i + 1;
    }
    acc
}

} // verus!
