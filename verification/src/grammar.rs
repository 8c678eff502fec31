//! The accepted text, and the sorted text that each accepted value stands
//! for, as functions on character sequences.
//!
//! A document is a value between two runs of trivia (whitespace, `//` line
//! comments and `/* */` block comments). Values are JSON values; trivia may
//! stand around every token. Sorting keeps every character of the text but
//! reorders the members of each object by their decoded keys, stably, while
//! the trivia before and after each member stays at its position.

use vstd::prelude::*;
use crate::decode::json_string_value;
use crate::fault::{Fault, Literal};
use crate::text::utf8_len;

verus! {

/// The character at `p`, if there is one.
pub open spec fn at(s: Seq<char>, p: int) -> Option<char> {
    if 0 <= p < s.len() {
        Some(s[p])
    } else {
        None
    }
}

/// The byte offset of character `p` in the UTF-8 encoding of `s`.
pub open spec fn byte_pos(s: Seq<char>, p: int) -> usize {
    utf8_len(s.take(p)) as usize
}

/// The whitespace of JSON (and of `u8::is_ascii_whitespace`).
pub open spec fn is_space(c: char) -> bool {
    c == ' ' || c == '\t' || c == '\n' || c == '\r' || c == '\x0C'
}

pub open spec fn is_digit(c: char) -> bool {
    '0' <= c <= '9'
}

/// Whether `s` holds `a` then `b` at `p`.
pub open spec fn starts_pair(s: Seq<char>, p: int, a: char, b: char) -> bool {
    at(s, p) == Some(a) && at(s, p + 1) == Some(b)
}

// ------------------------------------------------------------------ trivia

/// The first position at or after `p` that holds no whitespace.
pub open spec fn space_end(s: Seq<char>, p: int) -> int
    decreases s.len() - p,
{
    if 0 <= p < s.len() && is_space(s[p]) {
        space_end(s, p + 1)
    } else {
        p
    }
}

/// The first position at or after `p` that holds a line feed, or the end.
pub open spec fn line_end(s: Seq<char>, p: int) -> int
    decreases s.len() - p,
{
    if 0 <= p < s.len() && s[p] != '\n' {
        line_end(s, p + 1)
    } else {
        p
    }
}

/// The position just after the first `*/` that starts at or after `p`.
pub open spec fn block_end(s: Seq<char>, p: int) -> Option<int>
    decreases s.len() - p,
{
    if 0 <= p && p + 1 < s.len() {
        if s[p] == '*' && s[p + 1] == '/' {
            Some(p + 2)
        } else {
            block_end(s, p + 1)
        }
    } else {
        None
    }
}

pub proof fn lemma_space_end(s: Seq<char>, p: int)
    ensures
        p <= space_end(s, p),
        0 <= p <= s.len() ==> space_end(s, p) <= s.len(),
        at(s, space_end(s, p)) matches Some(c) ==> !is_space(c),
        forall|i: int| p <= i < space_end(s, p) ==> #[trigger] is_space(s[i]),
    decreases s.len() - p,
{
    if 0 <= p < s.len() && is_space(s[p]) {
        lemma_space_end(s, p + 1);
    }
}

pub proof fn lemma_line_end(s: Seq<char>, p: int)
    ensures
        p <= line_end(s, p),
        0 <= p <= s.len() ==> line_end(s, p) <= s.len(),
        forall|i: int| p <= i < line_end(s, p) ==> #[trigger] s[i] != '\n',
        0 <= p <= s.len() ==> (line_end(s, p) == s.len() || at(s, line_end(s, p)) == Some('\n')),
    decreases s.len() - p,
{
    if 0 <= p < s.len() && s[p] != '\n' {
        lemma_line_end(s, p + 1);
    }
}

pub proof fn lemma_block_end(s: Seq<char>, p: int)
    ensures
        block_end(s, p) matches Some(e) ==> p + 2 <= e <= s.len(),
    decreases s.len() - p,
{
    if 0 <= p && p + 1 < s.len() && !(s[p] == '*' && s[p + 1] == '/') {
        lemma_block_end(s, p + 1);
    }
}

/// The end of the run of trivia that starts at `p`, or `None` where a block
/// comment in it is not closed.
#[verifier::opaque]
pub open spec fn trivia_end(s: Seq<char>, p: int) -> Option<int>
    decreases s.len() - p,
{
    let q = space_end(s, p);
    if 0 <= p <= s.len() && starts_pair(s, q, '/', '/') {
        proof {
            lemma_space_end(s, p);
            lemma_line_end(s, q + 2);
        }
        trivia_end(s, line_end(s, q + 2))
    } else if 0 <= p <= s.len() && starts_pair(s, q, '/', '*') {
        proof {
            lemma_space_end(s, p);
            lemma_block_end(s, q + 2);
        }
        match block_end(s, q + 2) {
            Some(e) => trivia_end(s, e),
            None => None,
        }
    } else {
        Some(q)
    }
}

pub proof fn lemma_trivia_end(s: Seq<char>, p: int)
    requires
        0 <= p,
    ensures
        trivia_end(s, p) matches Some(e) ==> p <= e && (p <= s.len() ==> e <= s.len()),
    decreases s.len() - p,
{
    reveal(trivia_end);
    let q = space_end(s, p);
    lemma_space_end(s, p);
    if p > s.len() {
    } else if starts_pair(s, q, '/', '/') {
        lemma_line_end(s, q + 2);
        lemma_trivia_end(s, line_end(s, q + 2));
    } else if starts_pair(s, q, '/', '*') {
        lemma_block_end(s, q + 2);
        if let Some(e) = block_end(s, q + 2) {
            lemma_trivia_end(s, e);
        }
    }
}

// ---------------------------------------------------------------- tokens

/// The fault of needing `expected` at `p`.
pub open spec fn expect_fault(s: Seq<char>, p: int, expected: char) -> Fault {
    match at(s, p) {
        Some(c) => Fault::ExpectedByte {
            expected,
            found: vstd::utf8::encode_scalar(c as u32)[0],
            at: byte_pos(s, p),
        },
        None => Fault::ExpectedByteAtEnd { expected },
    }
}

/// The position after `expected` at `p`.
pub open spec fn expect(s: Seq<char>, p: int, expected: char) -> Result<int, Fault> {
    if at(s, p) == Some(expected) {
        Ok(p + 1)
    } else {
        Err(expect_fault(s, p, expected))
    }
}

/// Scans the inside of a string literal opened at `start`, from `p`: the
/// position after the closing quote, and whether a backslash was met.
pub open spec fn string_scan(s: Seq<char>, start: int, p: int, escaped: bool) -> Result<
    (int, bool),
    Fault,
>
    decreases s.len() - p,
{
    if p < 0 || p >= s.len() {
        Err(Fault::UnterminatedString)
    } else if s[p] == '"' {
        Ok((p + 1, escaped))
    } else if s[p] == '\\' {
        if p + 1 >= s.len() {
            Err(Fault::UnterminatedEscape { at: byte_pos(s, p + 1) })
        } else {
            string_scan(s, start, p + 2, true)
        }
    } else if (s[p] as u32) < 0x20 {
        Err(Fault::InvalidStringLiteral { at: byte_pos(s, start) })
    } else {
        string_scan(s, start, p + 1, escaped)
    }
}

/// A string literal at `p`: the position after it and the string it denotes.
/// Literals with a backslash are decoded by the string decoder; the others
/// denote the characters between their quotes.
#[verifier::opaque]
pub open spec fn string_token(s: Seq<char>, p: int) -> Result<(int, Seq<char>), Fault> {
    match expect(s, p, '"') {
        Err(f) => Err(f),
        Ok(q) => match string_scan(s, p, q, false) {
            Err(f) => Err(f),
            Ok((end, escaped)) => if escaped {
                match json_string_value(s.subrange(p, end)) {
                    Some(v) => Ok((end, v)),
                    None => Err(Fault::InvalidEscapedString { at: byte_pos(s, p) }),
                }
            } else {
                Ok((end, s.subrange(p + 1, end - 1)))
            },
        },
    }
}

/// The first position at or after `p` that holds no digit.
pub open spec fn digits_end(s: Seq<char>, p: int) -> int
    decreases s.len() - p,
{
    if 0 <= p < s.len() && is_digit(s[p]) {
        digits_end(s, p + 1)
    } else {
        p
    }
}

/// After the integer part of a number, which ends at `p`: its fraction.
pub open spec fn number_fraction(s: Seq<char>, p: int) -> Result<int, Fault> {
    if at(s, p) == Some('.') {
        if at(s, p + 1) matches Some(c) && is_digit(c) {
            Ok(digits_end(s, p + 1))
        } else {
            Err(Fault::InvalidFraction { at: byte_pos(s, p + 1) })
        }
    } else {
        Ok(p)
    }
}

/// After the fraction of a number, which ends at `p`: its exponent.
pub open spec fn number_exponent(s: Seq<char>, p: int) -> Result<int, Fault> {
    if at(s, p) == Some('e') || at(s, p) == Some('E') {
        let q = if at(s, p + 1) == Some('+') || at(s, p + 1) == Some('-') {
            p + 2
        } else {
            p + 1
        };
        if at(s, q) matches Some(c) && is_digit(c) {
            Ok(digits_end(s, q))
        } else {
            Err(Fault::InvalidExponent { at: byte_pos(s, q) })
        }
    } else {
        Ok(p)
    }
}

/// A number at `p`: the position after it.
#[verifier::opaque]
pub open spec fn number_token(s: Seq<char>, p: int) -> Result<int, Fault> {
    let q = if at(s, p) == Some('-') {
        p + 1
    } else {
        p
    };
    let int_end = if at(s, q) == Some('0') {
        Ok(q + 1)
    } else if at(s, q) matches Some(c) && '1' <= c <= '9' {
        Ok(digits_end(s, q + 1))
    } else {
        Err(Fault::InvalidNumber { at: byte_pos(s, p) })
    };
    match int_end {
        Err(f) => Err(f),
        Ok(i) => match number_fraction(s, i) {
            Err(f) => Err(f),
            Ok(j) => number_exponent(s, j),
        },
    }
}

/// How a literal is spelled.
pub open spec fn literal_text(literal: Literal) -> Seq<char> {
    match literal {
        Literal::True => seq!['t', 'r', 'u', 'e'],
        Literal::False => seq!['f', 'a', 'l', 's', 'e'],
        Literal::Null => seq!['n', 'u', 'l', 'l'],
    }
}

/// The literal `literal` at `p`: the position after it.
#[verifier::opaque]
pub open spec fn literal_token(s: Seq<char>, p: int, literal: Literal) -> Result<int, Fault> {
    let text = literal_text(literal);
    if 0 <= p && p + text.len() <= s.len() && s.subrange(p, p + text.len()) == text {
        Ok(p + text.len())
    } else {
        Err(Fault::ExpectedLiteral { literal, at: byte_pos(s, p) })
    }
}

// ----------------------------------------------------- members and items

/// A member of an object or an item of an array, as it stands in the sorted
/// text: the trivia before it, its key (empty for items), its text (for a
/// member: the key literal, the colon with its trivia, and the sorted value),
/// and the trivia after it.
pub struct Part {
    pub leading: Seq<char>,
    pub key: Seq<char>,
    pub body: Seq<char>,
    pub after: Seq<char>,
}

/// The text of one part.
pub open spec fn part_text(p: Part) -> Seq<char> {
    p.leading + p.body + p.after
}

/// The parts, in order, separated by commas.
pub open spec fn render_parts(ps: Seq<Part>) -> Seq<char>
    decreases ps.len(),
{
    if ps.len() == 0 {
        Seq::empty()
    } else if ps.len() == 1 {
        part_text(ps[0])
    } else {
        render_parts(ps.drop_last()).push(',') + part_text(ps.last())
    }
}

/// Strict lexicographic order of keys, character by character (the order of
/// their UTF-8 encodings too).
pub open spec fn key_lt(a: Seq<char>, b: Seq<char>) -> bool
    decreases a.len(),
{
    if b.len() == 0 {
        false
    } else if a.len() == 0 {
        true
    } else if a[0] != b[0] {
        (a[0] as u32) < (b[0] as u32)
    } else {
        key_lt(a.drop_first(), b.drop_first())
    }
}

/// Inserts `x` into `sorted` after every element whose key is not greater.
pub open spec fn insert_by_key<T>(sorted: Seq<T>, x: T, key: spec_fn(T) -> Seq<char>) -> Seq<T>
    decreases sorted.len(),
{
    if sorted.len() == 0 || !key_lt(key(x), key(sorted.last())) {
        sorted.push(x)
    } else {
        insert_by_key(sorted.drop_last(), x, key).push(sorted.last())
    }
}

/// The stable sort of `s` by `key`.
pub open spec fn sort_by_key<T>(s: Seq<T>, key: spec_fn(T) -> Seq<char>) -> Seq<T>
    decreases s.len(),
{
    if s.len() == 0 {
        s
    } else {
        insert_by_key(sort_by_key(s.drop_last(), key), s.last(), key)
    }
}

/// The key of a part.
pub open spec fn part_key(p: Part) -> Seq<char> {
    p.key
}

/// The members of an object after sorting: keys and texts sorted stably by
/// key, while each position keeps its own leading and trailing trivia.
pub open spec fn arrange(ps: Seq<Part>) -> Seq<Part> {
    let sorted = sort_by_key(ps, |p: Part| part_key(p));
    Seq::new(
        ps.len(),
        |i: int|
            Part {
                leading: ps[i].leading,
                key: sorted[i].key,
                body: sorted[i].body,
                after: ps[i].after,
            },
    )
}

// ---------------------------------------------------------------- values

/// The value at `p`: its sorted text and how many characters it takes.
pub open spec fn value(s: Seq<char>, p: int) -> Result<(Seq<char>, nat), Fault>
    decreases s.len() - p, 3int,
{
    match at(s, p) {
        None => Err(Fault::UnexpectedEnd),
        Some(c) => if c == '{' {
            object(s, p)
        } else if c == '[' {
            array(s, p)
        } else if c == '"' {
            match string_token(s, p) {
                Err(f) => Err(f),
                Ok((e, _)) => Ok((s.subrange(p, e), (e - p) as nat)),
            }
        } else if c == '-' || is_digit(c) {
            token_value(s, p, number_token(s, p))
        } else if c == 't' {
            token_value(s, p, literal_token(s, p, Literal::True))
        } else if c == 'f' {
            token_value(s, p, literal_token(s, p, Literal::False))
        } else if c == 'n' {
            token_value(s, p, literal_token(s, p, Literal::Null))
        } else {
            Err(
                Fault::UnexpectedByte {
                    found: vstd::utf8::encode_scalar(c as u32)[0],
                    at: byte_pos(s, p),
                },
            )
        },
    }
}

/// A token that ends at `end` (or its fault) as a value: its own text.
pub open spec fn token_value(s: Seq<char>, p: int, end: Result<int, Fault>) -> Result<
    (Seq<char>, nat),
    Fault,
> {
    match end {
        Err(f) => Err(f),
        Ok(e) => Ok((s.subrange(p, e), (e - p) as nat)),
    }
}

/// The object whose `{` is at `p`, or the fault of a missing `{`.
pub open spec fn object(s: Seq<char>, p: int) -> Result<(Seq<char>, nat), Fault>
    decreases s.len() - p, 2int,
{
    if expect(s, p, '{') is Ok {
        match trivia_end(s, p + 1) {
            None => Err(Fault::UnterminatedComment),
            Some(q) => {
                proof {
                    lemma_trivia_end(s, p + 1);
                }
                if at(s, q) == Some('}') {
                    Ok((seq!['{'] + s.subrange(p + 1, q) + seq!['}'], (q + 1 - p) as nat))
                } else {
                    match object_members(s, p + 1, q) {
                        Err(f) => Err(f),
                        Ok((ms, n)) => Ok(
                            (seq!['{'] + render_parts(arrange(ms)) + seq!['}'], (q + n - p) as nat),
                        ),
                    }
                }
            },
        }
    } else {
        Err(expect_fault(s, p, '{'))
    }
}

/// The member whose key is at `p`, up to the end of the trivia after its
/// value: its key, how far its value starts after `p`, the value's sorted
/// text, how many characters the value takes, and how many the trivia after
/// it takes.
pub open spec fn member_head(s: Seq<char>, p: int) -> Result<
    (Seq<char>, nat, Seq<char>, nat, nat),
    Fault,
>
    decreases s.len() - p, 0int,
{
    match string_token(s, p) {
        Err(f) => Err(f),
        Ok((key_end, key)) => {
            proof {
                lemma_string_token(s, p);
                lemma_trivia_end(s, key_end);
            }
            match trivia_end(s, key_end) {
                None => Err(Fault::UnterminatedComment),
                Some(c) => match expect(s, c, ':') {
                    Err(f) => Err(f),
                    Ok(c1) => {
                        proof {
                            lemma_trivia_end(s, c1);
                        }
                        match trivia_end(s, c1) {
                            None => Err(Fault::UnterminatedComment),
                            Some(v0) => match value(s, v0) {
                                Err(f) => Err(f),
                                Ok((vt, vn)) => match trivia_end(s, v0 + vn) {
                                    None => Err(Fault::UnterminatedComment),
                                    Some(a) => Ok(
                                        (key, (v0 - p) as nat, vt, vn, (a - (v0 + vn)) as nat),
                                    ),
                                },
                            },
                        }
                    },
                },
            }
        },
    }
}

/// The members of an object from the one whose key is at `p` and whose
/// leading trivia starts at `lead`: the members in text order, and how many
/// characters from `p` up to and with the closing `}` they take.
pub open spec fn object_members(s: Seq<char>, lead: int, p: int) -> Result<(Seq<Part>, nat), Fault>
    decreases s.len() - p, 1int,
{
    match member_head(s, p) {
        Err(f) => Err(f),
        Ok((key, d0, vt, vn, da)) => {
            let v0 = p + d0;
            let v_end = v0 + vn;
            let a = v_end + da;
            let part = Part {
                leading: s.subrange(lead, p),
                key,
                body: s.subrange(p, v0) + vt,
                after: s.subrange(v_end, a),
            };
            if at(s, a) == Some(',') {
                proof {
                    lemma_trivia_end(s, a + 1);
                }
                match trivia_end(s, a + 1) {
                    None => Err(Fault::UnterminatedComment),
                    Some(n) => match object_members(s, a + 1, n) {
                        Err(f) => Err(f),
                        Ok((rest, m)) => Ok((seq![part] + rest, (n + m - p) as nat)),
                    },
                }
            } else if at(s, a) == Some('}') {
                Ok((seq![part], (a + 1 - p) as nat))
            } else {
                Err(Fault::ExpectedCommaOrBrace { at: byte_pos(s, a) })
            }
        },
    }
}

/// The array whose `[` is at `p`, or the fault of a missing `[`.
pub open spec fn array(s: Seq<char>, p: int) -> Result<(Seq<char>, nat), Fault>
    decreases s.len() - p, 2int,
{
    if expect(s, p, '[') is Ok {
        match trivia_end(s, p + 1) {
            None => Err(Fault::UnterminatedComment),
            Some(q) => {
                proof {
                    lemma_trivia_end(s, p + 1);
                }
                if at(s, q) == Some(']') {
                    Ok((seq!['['] + s.subrange(p + 1, q) + seq![']'], (q + 1 - p) as nat))
                } else {
                    match array_items(s, p + 1, q) {
                        Err(f) => Err(f),
                        Ok((its, n)) => Ok(
                            (seq!['['] + render_parts(its) + seq![']'], (q + n - p) as nat),
                        ),
                    }
                }
            },
        }
    } else {
        Err(expect_fault(s, p, '['))
    }
}

/// The item at `p`, up to the end of the trivia after it: its sorted text,
/// how many characters it takes, and how many the trivia after it takes.
pub open spec fn item_head(s: Seq<char>, p: int) -> Result<(Seq<char>, nat, nat), Fault>
    decreases s.len() - p, 4int,
{
    match value(s, p) {
        Err(f) => Err(f),
        Ok((vt, vn)) => match trivia_end(s, p + vn) {
            None => Err(Fault::UnterminatedComment),
            Some(a) => Ok((vt, vn, (a - (p + vn)) as nat)),
        },
    }
}

/// The items of an array from the one at `p`, whose leading trivia starts
/// at `lead`: the items in order, and how many characters from `p` up to
/// and with the closing `]` they take.
pub open spec fn array_items(s: Seq<char>, lead: int, p: int) -> Result<(Seq<Part>, nat), Fault>
    decreases s.len() - p, 5int,
{
    match item_head(s, p) {
        Err(f) => Err(f),
        Ok((vt, vn, da)) => {
            let v_end = p + vn;
            let a = v_end + da;
            let part = Part {
                leading: s.subrange(lead, p),
                key: Seq::empty(),
                body: vt,
                after: s.subrange(v_end, a),
            };
            if at(s, a) == Some(',') {
                proof {
                    lemma_trivia_end(s, a + 1);
                }
                match trivia_end(s, a + 1) {
                    None => Err(Fault::UnterminatedComment),
                    Some(n) => match array_items(s, a + 1, n) {
                        Err(f) => Err(f),
                        Ok((rest, m)) => Ok((seq![part] + rest, (n + m - p) as nat)),
                    },
                }
            } else if at(s, a) == Some(']') {
                Ok((seq![part], (a + 1 - p) as nat))
            } else {
                Err(Fault::ExpectedCommaOrBracket { at: byte_pos(s, a) })
            }
        },
    }
}

/// The sorted text of the document that takes the rest of `s` from `p`:
/// trivia, a value, trivia and nothing more; or its first fault.
pub open spec fn document_from(s: Seq<char>, p: int) -> Result<Seq<char>, Fault> {
    match trivia_end(s, p) {
        None => Err(Fault::UnterminatedComment),
        Some(a) => match value(s, a) {
            Err(f) => Err(f),
            Ok((vt, n)) => match trivia_end(s, a + n) {
                None => Err(Fault::UnterminatedComment),
                Some(c) => if c != s.len() {
                    Err(Fault::UnexpectedContent { at: byte_pos(s, c) })
                } else {
                    Ok(s.subrange(p, a) + vt + s.subrange(a + n, c))
                },
            },
        },
    }
}

/// The sorted text of a whole document, or its first fault.
pub open spec fn document(s: Seq<char>) -> Result<Seq<char>, Fault> {
    document_from(s, 0)
}

pub proof fn lemma_string_scan(s: Seq<char>, start: int, p: int, escaped: bool)
    ensures
        string_scan(s, start, p, escaped) matches Ok((e, _)) ==> p < e <= s.len(),
    decreases s.len() - p,
{
    if 0 <= p < s.len() && s[p] != '"' {
        if s[p] == '\\' {
            if p + 1 < s.len() {
                lemma_string_scan(s, start, p + 2, true);
            }
        } else if (s[p] as u32) >= 0x20 {
            lemma_string_scan(s, start, p + 1, escaped);
        }
    }
}

pub proof fn lemma_string_token(s: Seq<char>, p: int)
    ensures
        string_token(s, p) matches Ok((e, _)) ==> 0 <= p && p + 2 <= e <= s.len() && at(s, p)
            == Some('"'),
{
    reveal(string_token);
    lemma_string_scan(s, p, p + 1, false);
}

} // verus!
