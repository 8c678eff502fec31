//! What the lexical rules accept, stated on characters and positions alone:
//! the order of keys, the whitespace of trivia, where a string literal ends,
//! which numbers are read whole, and which arguments are glob patterns.

use vstd::prelude::*;
use crate::grammar::{
    at, block_end, digits_end, key_lt, line_end, literal_token, number_token, space_end,
    string_scan, string_token, trivia_end, value,
};
use crate::fault::Literal;
use crate::decode::json_string_value;
use crate::inputs::glob_like;

verus! {

/// Keys are ordered as Rust orders strings (`String::cmp`): a key comes first
/// when it is a proper prefix of the other, or when, at the first place
/// where they differ, its character has the smaller code point. Length
/// counts for nothing else.
pub proof fn law_keys_in_string_order(a: Seq<char>, b: Seq<char>)
    ensures
        key_lt(a, b) <==> ((a.len() < b.len() && b.take(a.len() as int) == a) || exists|i: int|
            #![trigger a[i], b[i]]
            0 <= i < a.len() && i < b.len() && a.take(i) == b.take(i) && (a[i] as u32) < (
            b[i] as u32)),
    decreases a.len(),
{
    if b.len() == 0 {
    } else if a.len() == 0 {
        assert(b.take(0) =~= a);
    } else if a[0] != b[0] {
        if a.len() < b.len() && b.take(a.len() as int) == a {
            assert(b.take(a.len() as int)[0] == b[0]);
        }
        if (a[0] as u32) < (b[0] as u32) {
            assert(a.take(0) =~= b.take(0));
        }
        assert forall|i: int|
            #![trigger a[i], b[i]]
            0 < i < a.len() && i < b.len() implies a.take(i) != b.take(i) by {
            assert(a.take(i)[0] == a[0]);
            assert(b.take(i)[0] == b[0]);
        }
    } else {
        let a1 = a.drop_first();
        let b1 = b.drop_first();
        law_keys_in_string_order(a1, b1);
        // a proper prefix of `b` is one of `b1` once the shared first
        // character is dropped
        if a.len() < b.len() && b.take(a.len() as int) == a {
            assert(b1.take(a1.len() as int) =~= a1);
        }
        if a1.len() < b1.len() && b1.take(a1.len() as int) == a1 {
            assert(b.take(a.len() as int) =~= a) by {
                assert forall|k: int| 0 <= k < a.len() implies b.take(a.len() as int)[k] == a[k] by {
                    if k > 0 {
                        assert(b1.take(a1.len() as int)[k - 1] == a1[k - 1]);
                    }
                }
            }
        }
        // a first difference in `a`, `b` is one at the place before in `a1`, `b1`
        assert forall|i: int|
            #![trigger a[i], b[i]]
            0 <= i < a.len() && i < b.len() && a.take(i) == b.take(i) && (a[i] as u32) < (
                b[i] as u32) implies i > 0 && a1.take(i - 1) == b1.take(i - 1) && (a1[i - 1] as u32)
            < (b1[i - 1] as u32) by {
            assert(a1.take(i - 1) =~= a.take(i).drop_first());
            assert(b1.take(i - 1) =~= b.take(i).drop_first());
        }
        assert forall|j: int|
            #![trigger a1[j], b1[j]]
            0 <= j < a1.len() && j < b1.len() && a1.take(j) == b1.take(j) && (a1[j] as u32) < (
                b1[j] as u32) implies a.take(j + 1) == b.take(j + 1) && (a[j + 1] as u32) < (b[j
            + 1] as u32) by {
            assert(a.take(j + 1) =~= seq![a[0]] + a1.take(j));
            assert(b.take(j + 1) =~= seq![b[0]] + b1.take(j));
        }
    }
}

/// Whether `c` is one of the characters of `u8::is_ascii_whitespace`.
pub open spec fn ascii_whitespace(c: char) -> bool {
    c == ' ' || c == '\t' || c == '\n' || c == '\r' || c == '\x0C'
}

/// Trivia steps over exactly the whitespace of `u8::is_ascii_whitespace`
/// (space, tab, line feed, carriage return, form feed), and stops at any
/// other character that starts no comment.
pub proof fn law_trivia_skips_ascii_whitespace(s: Seq<char>, p: int)
    requires
        0 <= p < s.len(),
    ensures
        ascii_whitespace(s[p]) ==> trivia_end(s, p) == trivia_end(s, p + 1),
        !ascii_whitespace(s[p]) && s[p] != '/' ==> trivia_end(s, p) == Some(p),
{
    reveal(trivia_end);
}

/// A `//` comment runs to the next line feed, which it leaves to the trivia
/// after it, or to the end of the text: here `n` is that line feed or end.
pub proof fn law_line_comments_run_to_the_line_end(s: Seq<char>, p: int, n: int)
    requires
        0 <= p,
        p + 2 <= n <= s.len(),
        s[p] == '/' && s[p + 1] == '/',
        forall|k: int| p + 2 <= k < n ==> #[trigger] s[k] != '\n',
        n == s.len() || s[n] == '\n',
    ensures
        trivia_end(s, p) == trivia_end(s, n),
{
    reveal(trivia_end);
    assert(space_end(s, p) == p);
    lemma_line_run(s, p + 2, n);
}

proof fn lemma_line_run(s: Seq<char>, from: int, n: int)
    requires
        0 <= from <= n <= s.len(),
        forall|k: int| from <= k < n ==> #[trigger] s[k] != '\n',
        n == s.len() || s[n] == '\n',
    ensures
        line_end(s, from) == n,
    decreases n - from,
{
    if from < n {
        lemma_line_run(s, from + 1, n);
    }
}

/// A `/* */` comment runs to the first `*/` after its opening, and the
/// trivia goes on after it: here the `*/` starts at `c`. A comment that no
/// `*/` closes leaves the trivia unterminated.
pub proof fn law_block_comments_run_to_their_close(s: Seq<char>, p: int, c: int)
    requires
        0 <= p,
        p + 2 <= s.len(),
        s[p] == '/' && s[p + 1] == '*',
    ensures
        p + 2 <= c && c + 1 < s.len() && s[c] == '*' && s[c + 1] == '/' && (forall|k: int|
            p + 2 <= k < c ==> !(#[trigger] s[k] == '*' && s[k + 1] == '/')) ==> trivia_end(s, p)
            == trivia_end(s, c + 2),
        (forall|k: int| p + 2 <= k && k + 1 < s.len() ==> !(#[trigger] s[k] == '*' && s[k + 1]
            == '/')) ==> trivia_end(s, p) is None,
{
    reveal(trivia_end);
    assert(space_end(s, p) == p);
    if p + 2 <= c && c + 1 < s.len() && s[c] == '*' && s[c + 1] == '/' && (forall|k: int|
        p + 2 <= k < c ==> !(#[trigger] s[k] == '*' && s[k + 1] == '/')) {
        lemma_block_run(s, p + 2, c);
    }
    if forall|k: int| p + 2 <= k && k + 1 < s.len() ==> !(#[trigger] s[k] == '*' && s[k + 1]
        == '/') {
        lemma_block_open(s, p + 2);
    }
}

proof fn lemma_block_run(s: Seq<char>, from: int, c: int)
    requires
        0 <= from <= c,
        c + 1 < s.len(),
        s[c] == '*' && s[c + 1] == '/',
        forall|k: int| from <= k < c ==> !(#[trigger] s[k] == '*' && s[k + 1] == '/'),
    ensures
        block_end(s, from) == Some(c + 2),
    decreases c - from,
{
    if from < c {
        assert(!(s[from] == '*' && s[from + 1] == '/'));
        lemma_block_run(s, from + 1, c);
    }
}

proof fn lemma_block_open(s: Seq<char>, from: int)
    requires
        0 <= from,
        forall|k: int| from <= k && k + 1 < s.len() ==> !(#[trigger] s[k] == '*' && s[k + 1] == '/'),
    ensures
        block_end(s, from) is None,
    decreases s.len() - from,
{
    if from + 1 < s.len() {
        assert(!(s[from] == '*' && s[from + 1] == '/'));
        lemma_block_open(s, from + 1);
    }
}

/// How many backslashes stand right before position `j`, back to `lo`.
pub open spec fn backslashes_before(s: Seq<char>, lo: int, j: int) -> nat
    decreases j - lo,
{
    if lo < j && s[j - 1] == '\\' {
        1 + backslashes_before(s, lo, j - 1)
    } else {
        0
    }
}

/// A string literal ends at the first quote that no backslash escapes: the
/// closing quote has an even run of backslashes before it, and every quote
/// inside the literal an odd one, so `"x \"y\""` is read whole. A control
/// character stands in it only right after an escaping backslash. Without a
/// backslash the literal denotes the characters between its quotes; with
/// one, what the string decoder makes of it.
pub proof fn law_strings_end_at_an_unescaped_quote(s: Seq<char>, p: int)
    requires
        string_token(s, p) is Ok,
    ensures
        ({
            let (e, v) = string_token(s, p)->Ok_0;
            &&& 0 <= p && p + 2 <= e <= s.len()
            &&& s[p] == '"' && s[e - 1] == '"'
            &&& backslashes_before(s, p + 1, e - 1) % 2 == 0
            &&& forall|j: int|
                p < j < e - 1 && #[trigger] s[j] == '"' ==> backslashes_before(s, p + 1, j) % 2
                    == 1
            &&& forall|j: int|
                p < j < e - 1 && (#[trigger] s[j] as u32) < 0x20 ==> backslashes_before(
                    s,
                    p + 1,
                    j,
                ) % 2 == 1
            &&& (forall|j: int| p < j < e - 1 ==> #[trigger] s[j] != '\\') ==> v == s.subrange(
                p + 1,
                e - 1,
            )
            &&& (exists|j: int| p < j < e - 1 && #[trigger] s[j] == '\\') ==> Some(v)
                == json_string_value(s.subrange(p, e))
        }),
{
    reveal(string_token);
    crate::grammar::lemma_string_token(s, p);
    lemma_scan_quotes(s, p, p + 1, false);
}

proof fn lemma_scan_quotes(s: Seq<char>, start: int, q: int, escaped: bool)
    requires
        0 <= start < q,
        backslashes_before(s, start + 1, q) % 2 == 0,
        string_scan(s, start, q, escaped) is Ok,
    ensures
        ({
            let (e, esc) = string_scan(s, start, q, escaped)->Ok_0;
            &&& q < e <= s.len()
            &&& s[e - 1] == '"'
            &&& backslashes_before(s, start + 1, e - 1) % 2 == 0
            &&& forall|j: int|
                q <= j < e - 1 && #[trigger] s[j] == '"' ==> backslashes_before(s, start + 1, j)
                    % 2 == 1
            &&& forall|j: int|
                q <= j < e - 1 && (#[trigger] s[j] as u32) < 0x20 ==> backslashes_before(
                    s,
                    start + 1,
                    j,
                ) % 2 == 1
            &&& esc == (escaped || exists|j: int| q <= j < e - 1 && #[trigger] s[j] == '\\')
        }),
    decreases s.len() - q,
{
    if s[q] == '"' {
    } else if s[q] == '\\' {
        assert(backslashes_before(s, start + 1, q + 1) == 1 + backslashes_before(s, start + 1, q));
        if s[q + 1] == '\\' {
            assert(backslashes_before(s, start + 1, q + 2) == 1 + backslashes_before(
                s,
                start + 1,
                q + 1,
            ));
        }
        lemma_scan_quotes(s, start, q + 2, true);
    } else {
        assert(backslashes_before(s, start + 1, q + 1) == 0);
        lemma_scan_quotes(s, start, q + 1, escaped);
        let e = string_scan(s, start, q, escaped)->Ok_0.0;
        if exists|j: int| q <= j < e - 1 && #[trigger] s[j] == '\\' {
            let j = choose|j: int| q <= j < e - 1 && #[trigger] s[j] == '\\';
            assert(j != q);
            assert(q + 1 <= j);
        }
    }
}

/// Whether `c` is a decimal digit.
pub open spec fn decimal(c: char) -> bool {
    '0' <= c <= '9'
}

/// Whether the digits from `from` run to `to`, where a non-digit or the end
/// stands.
pub open spec fn digit_run(s: Seq<char>, from: int, to: int) -> bool {
    &&& 0 <= from <= to <= s.len()
    &&& forall|k: int| from <= k < to ==> decimal(#[trigger] s[k])
    &&& !(at(s, to) matches Some(c) && decimal(c))
}

proof fn lemma_digit_run(s: Seq<char>, from: int, to: int)
    requires
        digit_run(s, from, to),
    ensures
        digits_end(s, from) == to,
    decreases to - from,
{
    if from < to {
        lemma_digit_run(s, from + 1, to);
    }
}

/// Every number of RFC 8259 is read whole: an optional `-`, an integer part
/// (`0`, or a nonzero digit with more digits), an optional fraction (`.` and
/// digits) and an optional exponent (`e` or `E`, an optional sign, digits),
/// the fraction being read whatever the integer part was. Here the integer
/// part runs from `q` to `i`, the fraction to `f`, the exponent's digits from
/// `g` to `x`, and the number ends at `x`.
pub proof fn law_numbers_are_read_whole(
    s: Seq<char>,
    p: int,
    q: int,
    i: int,
    f: int,
    g: int,
    x: int,
)
    requires
        0 <= p < s.len(),
        q == p || (q == p + 1 && s[p] == '-'),
        q < i <= s.len(),
        forall|k: int| q <= k < i ==> decimal(#[trigger] s[k]),
        s[q] == '0' ==> i == q + 1,
        s[q] != '0' ==> digit_run(s, q, i),
        f == i ==> at(s, i) != Some('.'),
        f != i ==> at(s, i) == Some('.') && i + 1 < f && digit_run(s, i + 1, f),
        x == f ==> at(s, f) != Some('e') && at(s, f) != Some('E'),
        x != f ==> (at(s, f) == Some('e') || at(s, f) == Some('E')) && (g == f + 1 || (g == f + 2
            && (at(s, f + 1) == Some('+') || at(s, f + 1) == Some('-')))) && g < x && digit_run(
            s,
            g,
            x,
        ),
    ensures
        number_token(s, p) == Ok::<int, crate::fault::Fault>(x),
{
    reveal(number_token);
    if s[q] != '0' {
        lemma_digit_run(s, q + 1, i);
    }
    if f != i {
        lemma_digit_run(s, i + 1, f);
    }
    if x != f {
        lemma_digit_run(s, g, x);
    }
}

/// The literals are spelled `true`, `false` and `null`: each is read exactly
/// where those characters stand, and takes that many characters.
pub proof fn law_literals_are_spelled_as_json(s: Seq<char>, p: int)
    requires
        0 <= p,
    ensures
        literal_token(s, p, Literal::True) is Ok <==> (p + 4 <= s.len() && s[p] == 't' && s[p
            + 1] == 'r' && s[p + 2] == 'u' && s[p + 3] == 'e'),
        literal_token(s, p, Literal::False) is Ok <==> (p + 5 <= s.len() && s[p] == 'f' && s[p
            + 1] == 'a' && s[p + 2] == 'l' && s[p + 3] == 's' && s[p + 4] == 'e'),
        literal_token(s, p, Literal::Null) is Ok <==> (p + 4 <= s.len() && s[p] == 'n' && s[p
            + 1] == 'u' && s[p + 2] == 'l' && s[p + 3] == 'l'),
        literal_token(s, p, Literal::True) is Ok ==> literal_token(s, p, Literal::True)->Ok_0 == p
            + 4,
        literal_token(s, p, Literal::False) is Ok ==> literal_token(s, p, Literal::False)->Ok_0
            == p + 5,
        literal_token(s, p, Literal::Null) is Ok ==> literal_token(s, p, Literal::Null)->Ok_0 == p
            + 4,
{
    reveal(literal_token);
    if p + 4 <= s.len() {
        let w = s.subrange(p, p + 4);
        assert(w[0] == s[p] && w[1] == s[p + 1] && w[2] == s[p + 2] && w[3] == s[p + 3]);
        if s[p] == 't' && s[p + 1] == 'r' && s[p + 2] == 'u' && s[p + 3] == 'e' {
            assert(w =~= seq!['t', 'r', 'u', 'e']);
        }
        if s[p] == 'n' && s[p + 1] == 'u' && s[p + 2] == 'l' && s[p + 3] == 'l' {
            assert(w =~= seq!['n', 'u', 'l', 'l']);
        }
    }
    if p + 5 <= s.len() {
        let w = s.subrange(p, p + 5);
        assert(w[0] == s[p] && w[1] == s[p + 1] && w[2] == s[p + 2] && w[3] == s[p + 3] && w[4]
            == s[p + 4]);
        if s[p] == 'f' && s[p + 1] == 'a' && s[p + 2] == 'l' && s[p + 3] == 's' && s[p + 4]
            == 'e' {
            assert(w =~= seq!['f', 'a', 'l', 's', 'e']);
        }
    }
}

/// A value that starts as a string, a number or a literal is that token,
/// as written: `"` starts a string, `-` or a digit a number, and `t`, `f`,
/// `n` the literals `true`, `false`, `null`.
pub proof fn law_values_read_their_tokens(s: Seq<char>, p: int)
    requires
        0 <= p < s.len(),
    ensures
        s[p] == '"' && string_token(s, p) is Ok ==> value(s, p) == Ok::<
            (Seq<char>, nat),
            crate::fault::Fault,
        >(
            (
                s.subrange(p, string_token(s, p)->Ok_0.0),
                (string_token(s, p)->Ok_0.0 - p) as nat,
            ),
        ),
        (s[p] == '-' || decimal(s[p])) && number_token(s, p) is Ok ==> value(s, p) == Ok::<
            (Seq<char>, nat),
            crate::fault::Fault,
        >((s.subrange(p, number_token(s, p)->Ok_0), (number_token(s, p)->Ok_0 - p) as nat)),
        s[p] == 't' && literal_token(s, p, Literal::True) is Ok ==> value(s, p) == Ok::<
            (Seq<char>, nat),
            crate::fault::Fault,
        >((s.subrange(p, p + 4), 4)),
        s[p] == 'f' && literal_token(s, p, Literal::False) is Ok ==> value(s, p) == Ok::<
            (Seq<char>, nat),
            crate::fault::Fault,
        >((s.subrange(p, p + 5), 5)),
        s[p] == 'n' && literal_token(s, p, Literal::Null) is Ok ==> value(s, p) == Ok::<
            (Seq<char>, nat),
            crate::fault::Fault,
        >((s.subrange(p, p + 4), 4)),
{
    law_literals_are_spelled_as_json(s, p);
}

/// An argument is a glob pattern exactly when it holds `*`, `?` or `[`
/// anywhere, its last character included.
pub proof fn law_glob_patterns_hold_wildcards(argument: Seq<char>)
    ensures
        glob_like(argument) <==> (argument.contains('*') || argument.contains('?')
            || argument.contains('[')),
{
    if argument.contains('*') {
        let i = choose|i: int| 0 <= i < argument.len() && argument[i] == '*';
        assert(argument[i] == '*');
    }
    if argument.contains('?') {
        let i = choose|i: int| 0 <= i < argument.len() && argument[i] == '?';
        assert(argument[i] == '?');
    }
    if argument.contains('[') {
        let i = choose|i: int| 0 <= i < argument.len() && argument[i] == '[';
        assert(argument[i] == '[');
    }
}

} // verus!
