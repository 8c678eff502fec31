//! Reading a sorted text again: each token, copied elsewhere with a suitable
//! character after it, reads the same; and every sorted value, so copied,
//! reads as itself.

use vstd::prelude::*;
use crate::decode::json_string_value;
use crate::fault::{Fault, Literal};
use crate::grammar::{
    Part, arrange, array, array_items, at, block_end, digits_end, document, expect, is_digit,
    is_space, item_head, key_lt, lemma_block_end, lemma_line_end, lemma_space_end,
    lemma_string_scan, lemma_string_token, lemma_trivia_end, line_end, literal_text,
    literal_token, member_head, number_exponent, number_fraction, number_token, object,
    object_members, part_key, part_text, render_parts, sort_by_key, space_end, starts_pair,
    string_scan, string_token, token_value, trivia_end, value,
};
use crate::laws::{law_members_in_key_order, law_sorted_members_stay};
use crate::order::{lemma_sort_len, lemma_sort_source};

verus! {

/// `u` holds at `i + d` what `s` holds at `i`, for every `i` from `x` up to `y`.
pub open spec fn agree(s: Seq<char>, x: int, y: int, u: Seq<char>, d: int) -> bool {
    &&& 0 <= x <= y <= s.len()
    &&& 0 <= x + d
    &&& y + d <= u.len()
    &&& forall|i: int| x <= i < y ==> u[i + d] == #[trigger] s[i]
}

/// What stands at `i` in `u` ends a run of trivia.
pub open spec fn stops_trivia(u: Seq<char>, i: int) -> bool {
    at(u, i) matches Some(c) ==> !is_space(c) && c != '/'
}

/// What stands at `i` in `u` ends a number.
pub open spec fn stops_number(u: Seq<char>, i: int) -> bool {
    at(u, i) matches Some(c) ==> !is_digit(c) && c != '.' && c != 'e' && c != 'E'
}

pub proof fn lemma_agree_sub(s: Seq<char>, x: int, y: int, u: Seq<char>, d: int, x2: int, y2: int)
    requires
        agree(s, x, y, u, d),
        x <= x2 <= y2 <= y,
    ensures
        agree(s, x2, y2, u, d),
{
}

pub proof fn lemma_agree_at(s: Seq<char>, x: int, y: int, u: Seq<char>, d: int, i: int)
    requires
        agree(s, x, y, u, d),
        x <= i < y,
    ensures
        at(u, i + d) == at(s, i),
{
    assert(u[i + d] == s[i]);
}

/// Two stretches that agree character by character are equal.
pub proof fn lemma_agree_subrange(s: Seq<char>, x: int, y: int, u: Seq<char>, d: int)
    requires
        agree(s, x, y, u, d),
    ensures
        u.subrange(x + d, y + d) == s.subrange(x, y),
{
    assert forall|i: int| 0 <= i < y - x implies u.subrange(x + d, y + d)[i] == s.subrange(
        x,
        y,
    )[i] by {
        assert(s[x + i] == u[x + i + d]);
    }
    assert(u.subrange(x + d, y + d) =~= s.subrange(x, y));
}

/// A stretch copied into `u` agrees with its source.
pub proof fn lemma_subrange_agree(s: Seq<char>, x: int, y: int, u: Seq<char>, d: int)
    requires
        0 <= x <= y <= s.len(),
        0 <= x + d,
        y + d <= u.len(),
        u.subrange(x + d, y + d) == s.subrange(x, y),
    ensures
        agree(s, x, y, u, d),
{
    assert forall|i: int| x <= i < y implies u[i + d] == #[trigger] s[i] by {
        assert(u.subrange(x + d, y + d)[i - x] == s.subrange(x, y)[i - x]);
        assert(u.subrange(x + d, y + d)[i - x] == u[i + d]);
        assert(s.subrange(x, y)[i - x] == s[i]);
    }
}

// ------------------------------------------------------------------ trivia

pub proof fn lemma_space_local(s: Seq<char>, x: int, y: int, u: Seq<char>, d: int)
    requires
        agree(s, x, y, u, d),
        space_end(s, x) <= y,
        space_end(s, x) < y || (at(u, y + d) matches Some(c) ==> !is_space(c)),
    ensures
        space_end(u, x + d) == space_end(s, x) + d,
    decreases s.len() - x,
{
    if x < s.len() && is_space(s[x]) {
        lemma_space_end(s, x + 1);
        assert(u[x + d] == s[x]);
        lemma_space_local(s, x + 1, y, u, d);
    } else if x < y {
        assert(u[x + d] == s[x]);
    }
}

pub proof fn lemma_line_local(s: Seq<char>, x: int, y: int, u: Seq<char>, d: int)
    requires
        agree(s, x, y, u, d),
        line_end(s, x) <= y,
        line_end(s, x) < y || (y == s.len() && y + d == u.len()),
    ensures
        line_end(u, x + d) == line_end(s, x) + d,
    decreases s.len() - x,
{
    if x < s.len() && s[x] != '\n' {
        lemma_line_end(s, x + 1);
        assert(u[x + d] == s[x]);
        lemma_line_local(s, x + 1, y, u, d);
    } else if x < y {
        assert(u[x + d] == s[x]);
    }
}

pub proof fn lemma_block_local(s: Seq<char>, x: int, y: int, u: Seq<char>, d: int)
    requires
        agree(s, x, y, u, d),
        block_end(s, x) matches Some(e) && e <= y,
    ensures
        block_end(u, x + d) == Some(block_end(s, x)->Some_0 + d),
    decreases s.len() - x,
{
    lemma_block_end(s, x);
    assert(u[x + d] == s[x]);
    assert(u[x + 1 + d] == s[x + 1]);
    if !(s[x] == '*' && s[x + 1] == '/') {
        lemma_block_end(s, x + 1);
        lemma_block_local(s, x + 1, y, u, d);
    }
}

/// Where a run of trivia ends, no whitespace stands.
pub proof fn lemma_trivia_stop(s: Seq<char>, x: int)
    requires
        0 <= x,
    ensures
        trivia_end(s, x) matches Some(b) ==> (at(s, b) matches Some(c) ==> !is_space(c)),
    decreases s.len() - x,
{
    reveal(trivia_end);
    let q = space_end(s, x);
    lemma_space_end(s, x);
    if x > s.len() {
    } else if starts_pair(s, q, '/', '/') {
        lemma_line_end(s, q + 2);
        lemma_trivia_stop(s, line_end(s, q + 2));
    } else if starts_pair(s, q, '/', '*') {
        lemma_block_end(s, q + 2);
        if let Some(e) = block_end(s, q + 2) {
            lemma_trivia_stop(s, e);
        }
    }
}

/// A run of trivia that is not empty starts with whitespace or a slash.
pub proof fn lemma_trivia_start(s: Seq<char>, x: int)
    requires
        0 <= x,
        trivia_end(s, x) matches Some(b) && b > x,
    ensures
        is_space(s[x]) || s[x] == '/',
{
    reveal(trivia_end);
    lemma_space_end(s, x);
}

/// A run of trivia reads the same wherever it is copied, when what follows
/// the copy ends trivia, and the run did not end at the end of the text
/// unless the copy does too.
pub proof fn lemma_trivia_local(s: Seq<char>, x: int, b: int, u: Seq<char>, d: int)
    requires
        0 <= x,
        trivia_end(s, x) == Some(b),
        agree(s, x, b, u, d),
        b < s.len() || b + d == u.len(),
        stops_trivia(u, b + d),
    ensures
        trivia_end(u, x + d) == Some(b + d),
    decreases s.len() - x,
{
    reveal(trivia_end);
    let q = space_end(s, x);
    lemma_space_end(s, x);
    lemma_trivia_end(s, x);
    if starts_pair(s, q, '/', '/') {
        let le = line_end(s, q + 2);
        lemma_line_end(s, q + 2);
        lemma_trivia_end(s, le);
        lemma_trivia_stop(s, le);
        lemma_space_local(s, x, b, u, d);
        lemma_agree_at(s, x, b, u, d, q);
        lemma_agree_at(s, x, b, u, d, q + 1);
        lemma_agree_sub(s, x, b, u, d, q + 2, b);
        lemma_line_local(s, q + 2, b, u, d);
        lemma_agree_sub(s, x, b, u, d, le, b);
        lemma_trivia_local(s, le, b, u, d);
    } else if starts_pair(s, q, '/', '*') {
        let e = block_end(s, q + 2)->Some_0;
        lemma_block_end(s, q + 2);
        lemma_trivia_end(s, e);
        lemma_space_local(s, x, b, u, d);
        lemma_agree_at(s, x, b, u, d, q);
        lemma_agree_at(s, x, b, u, d, q + 1);
        lemma_agree_sub(s, x, b, u, d, q + 2, b);
        lemma_block_local(s, q + 2, b, u, d);
        lemma_agree_sub(s, x, b, u, d, e, b);
        lemma_trivia_local(s, e, b, u, d);
    } else {
        lemma_space_local(s, x, b, u, d);
    }
}

// ---------------------------------------------------------------- tokens

pub proof fn lemma_scan_local(
    s: Seq<char>,
    start: int,
    x: int,
    escaped: bool,
    e: int,
    u: Seq<char>,
    d: int,
)
    requires
        0 <= x,
        string_scan(s, start, x, escaped) matches Ok((end, _)) && end == e,
        agree(s, x, e, u, d),
    ensures
        string_scan(u, start + d, x + d, escaped) == Ok::<(int, bool), crate::fault::Fault>(
            (e + d, string_scan(s, start, x, escaped)->Ok_0.1),
        ),
    decreases s.len() - x,
{
    lemma_string_scan(s, start, x, escaped);
    assert(u[x + d] == s[x]);
    if s[x] == '"' {
    } else if s[x] == '\\' {
        lemma_string_scan(s, start, x + 2, true);
        assert(u[x + 1 + d] == s[x + 1]);
        lemma_agree_sub(s, x, e, u, d, x + 2, e);
        lemma_scan_local(s, start, x + 2, true, e, u, d);
    } else {
        lemma_string_scan(s, start, x + 1, escaped);
        lemma_agree_sub(s, x, e, u, d, x + 1, e);
        lemma_scan_local(s, start, x + 1, escaped, e, u, d);
    }
}

/// A string literal reads the same wherever it is copied.
pub proof fn lemma_string_local(s: Seq<char>, p: int, u: Seq<char>, d: int)
    requires
        0 <= p,
        string_token(s, p) matches Ok((e, _)) && agree(s, p, e, u, d),
    ensures
        string_token(u, p + d) matches Ok((e2, v2)) && e2 == string_token(s, p)->Ok_0.0 + d
            && v2 == string_token(s, p)->Ok_0.1,
{
    reveal(string_token);
    let e = string_token(s, p)->Ok_0.0;
    lemma_string_token(s, p);
    lemma_agree_at(s, p, e, u, d, p);
    lemma_agree_sub(s, p, e, u, d, p + 1, e);
    lemma_scan_local(s, p, p + 1, false, e, u, d);
    lemma_agree_subrange(s, p, e, u, d);
    lemma_agree_sub(s, p, e, u, d, p + 1, e - 1);
    lemma_agree_subrange(s, p + 1, e - 1, u, d);
}

pub proof fn lemma_digits_local(s: Seq<char>, x: int, y: int, u: Seq<char>, d: int)
    requires
        agree(s, x, y, u, d),
        digits_end(s, x) <= y,
        digits_end(s, x) < y || (at(u, y + d) matches Some(c) ==> !is_digit(c)),
    ensures
        digits_end(u, x + d) == digits_end(s, x) + d,
    decreases s.len() - x,
{
    if 0 <= x < s.len() && is_digit(s[x]) {
        lemma_digits_end(s, x + 1);
        assert(u[x + d] == s[x]);
        lemma_digits_local(s, x + 1, y, u, d);
    } else if x < y {
        assert(u[x + d] == s[x]);
    }
}

pub proof fn lemma_digits_end(s: Seq<char>, x: int)
    ensures
        x <= digits_end(s, x),
        0 <= x <= s.len() ==> digits_end(s, x) <= s.len(),
        at(s, digits_end(s, x)) matches Some(c) ==> !is_digit(c) || digits_end(s, x) < 0,
    decreases s.len() - x,
{
    if 0 <= x < s.len() && is_digit(s[x]) {
        lemma_digits_end(s, x + 1);
    }
}

/// A number reads the same wherever it is copied, when what follows the copy
/// ends a number.
pub proof fn lemma_number_local(s: Seq<char>, p: int, u: Seq<char>, d: int)
    requires
        0 <= p,
        number_token(s, p) matches Ok(e) && agree(s, p, e, u, d) && stops_number(u, e + d),
    ensures
        number_token(u, p + d) == Ok::<int, crate::fault::Fault>(number_token(s, p)->Ok_0 + d),
{
    reveal(number_token);
    let e = number_token(s, p)->Ok_0;
    let q = if at(s, p) == Some('-') {
        p + 1
    } else {
        p
    };
    // the integer part
    let i = if at(s, q) == Some('0') {
        q + 1
    } else {
        digits_end(s, q + 1)
    };
    lemma_digits_end(s, q + 1);
    let j = number_fraction(s, i)->Ok_0;
    lemma_digits_end(s, i + 1);
    let ex = number_exponent(s, j);
    let q2 = if at(s, j + 1) == Some('+') || at(s, j + 1) == Some('-') {
        j + 2
    } else {
        j + 1
    };
    lemma_digits_end(s, q2);
    assert(q < i <= j <= e);
    lemma_agree_at(s, p, e, u, d, p);
    lemma_agree_at(s, p, e, u, d, q);
    if at(s, q) != Some('0') {
        lemma_agree_sub(s, p, e, u, d, q + 1, e);
        lemma_digits_local(s, q + 1, e, u, d);
    }
    if at(s, i) == Some('.') {
        lemma_agree_at(s, p, e, u, d, i);
        lemma_agree_at(s, p, e, u, d, i + 1);
        lemma_agree_sub(s, p, e, u, d, i + 1, e);
        lemma_digits_local(s, i + 1, e, u, d);
    } else if i < e {
        lemma_agree_at(s, p, e, u, d, i);
    }
    if at(s, j) == Some('e') || at(s, j) == Some('E') {
        lemma_agree_at(s, p, e, u, d, j);
        lemma_agree_at(s, p, e, u, d, j + 1);
        lemma_agree_at(s, p, e, u, d, q2);
        lemma_agree_sub(s, p, e, u, d, q2, e);
        lemma_digits_local(s, q2, e, u, d);
    } else if j < e {
        lemma_agree_at(s, p, e, u, d, j);
    }
}

/// A literal reads the same wherever it is copied.
pub proof fn lemma_literal_local(
    s: Seq<char>,
    p: int,
    literal: crate::fault::Literal,
    u: Seq<char>,
    d: int,
)
    requires
        0 <= p,
        literal_token(s, p, literal) matches Ok(e) && agree(s, p, e, u, d),
    ensures
        literal_token(u, p + d, literal) == Ok::<int, crate::fault::Fault>(
            literal_token(s, p, literal)->Ok_0 + d,
        ),
{
    reveal(literal_token);
    let e = literal_token(s, p, literal)->Ok_0;
    lemma_agree_subrange(s, p, e, u, d);
}


// ---------------------------------------------------------------- values

/// The characters a value can start with.
pub open spec fn starts_value(c: char) -> bool {
    c == '{' || c == '[' || c == '"' || c == '-' || is_digit(c) || c == 't' || c == 'f' || c
        == 'n'
}

/// What stands at `i` in `u` may follow a value.
pub open spec fn ends_value(u: Seq<char>, i: int) -> bool {
    at(u, i) matches Some(c) ==> is_space(c) || c == '/' || c == ',' || c == '}' || c == ']'
}

pub proof fn lemma_number_len(s: Seq<char>, p: int)
    requires
        0 <= p,
        number_token(s, p) is Ok,
    ensures
        p < number_token(s, p)->Ok_0 <= s.len(),
{
    reveal(number_token);
    let q = if at(s, p) == Some('-') {
        p + 1
    } else {
        p
    };
    lemma_digits_end(s, q + 1);
    let i = if at(s, q) == Some('0') {
        q + 1
    } else {
        digits_end(s, q + 1)
    };
    lemma_digits_end(s, i + 1);
    let j = number_fraction(s, i)->Ok_0;
    let q2 = if at(s, j + 1) == Some('+') || at(s, j + 1) == Some('-') {
        j + 2
    } else {
        j + 1
    };
    lemma_digits_end(s, q2);
}

/// A sorted value starts with the character that starts it in the source.
#[verifier::rlimit(100)]
pub proof fn lemma_value_first(s: Seq<char>, p: int)
    requires
        0 <= p,
        value(s, p) is Ok,
    ensures
        value(s, p)->Ok_0.0.len() >= 1,
        at(s, p) == Some(value(s, p)->Ok_0.0[0]),
        starts_value(value(s, p)->Ok_0.0[0]),
{
    let c = s[p];
    if c == '{' {
        assert(value(s, p) == object(s, p));
    } else if c == '[' {
        assert(value(s, p) == array(s, p));
    } else if c == '"' {
        lemma_string_token(s, p);
        let e = string_token(s, p)->Ok_0.0;
        assert(value(s, p)->Ok_0.0 == s.subrange(p, e));
    } else if c == '-' || is_digit(c) {
        lemma_number_len(s, p);
        let e = number_token(s, p)->Ok_0;
        assert(value(s, p) == token_value(s, p, number_token(s, p)));
        assert(value(s, p)->Ok_0.0 == s.subrange(p, e));
    } else if c == 't' {
        reveal(literal_token);
        assert(value(s, p) == token_value(s, p, literal_token(s, p, Literal::True)));
    } else if c == 'f' {
        reveal(literal_token);
        assert(value(s, p) == token_value(s, p, literal_token(s, p, Literal::False)));
    } else if c == 'n' {
        reveal(literal_token);
        assert(value(s, p) == token_value(s, p, literal_token(s, p, Literal::Null)));
    }
}

/// A stretch of `whole`, where `whole` is copied into `u` at `o`.
pub proof fn lemma_piece(u: Seq<char>, o: int, whole: Seq<char>, i: int, j: int)
    requires
        0 <= o,
        o + whole.len() <= u.len(),
        u.subrange(o, o + whole.len()) == whole,
        0 <= i <= j <= whole.len(),
    ensures
        u.subrange(o + i, o + j) == whole.subrange(i, j),
{
    assert forall|k: int| 0 <= k < j - i implies u.subrange(o + i, o + j)[k] == whole.subrange(
        i,
        j,
    )[k] by {
        assert(u.subrange(o, o + whole.len())[i + k] == u[o + i + k]);
    }
    assert(u.subrange(o + i, o + j) =~= whole.subrange(i, j));
}

/// The first part of a sequence of parts, and the rest after a comma.
pub proof fn lemma_render_front(ps: Seq<Part>)
    requires
        ps.len() >= 1,
    ensures
        render_parts(ps) == if ps.len() == 1 {
            part_text(ps[0])
        } else {
            part_text(ps[0]) + (seq![','] + render_parts(ps.drop_first()))
        },
    decreases ps.len(),
{
    if ps.len() > 2 {
        let dl = ps.drop_last();
        let df = ps.drop_first();
        let y = df.drop_last();
        lemma_render_front(dl);
        assert(dl.drop_first() =~= y);
        assert(df.last() == ps.last());
        assert(dl[0] == ps[0]);
        let ry = render_parts(y);
        assert(render_parts(ps) == render_parts(dl).push(',') + part_text(ps.last()));
        assert(render_parts(df) == render_parts(y).push(',') + part_text(df.last()));
        assert(render_parts(dl) == part_text(ps[0]) + (seq![','] + ry));
        assert((part_text(ps[0]) + (seq![','] + ry)).push(',') + part_text(ps.last())
            =~= part_text(ps[0]) + (seq![','] + (ry.push(',') + part_text(ps.last()))));
    } else if ps.len() == 2 {
        assert(ps.drop_last().len() == 1);
        assert(ps.drop_first().len() == 1);
        assert(ps.drop_last()[0] == ps[0]);
        assert(ps.drop_first()[0] == ps[1]);
        assert(render_parts(ps.drop_last()) == part_text(ps[0]));
        assert(render_parts(ps.drop_first()) == part_text(ps[1]));
        assert(render_parts(ps) == render_parts(ps.drop_last()).push(',') + part_text(ps.last()));
        assert(render_parts(ps) =~= part_text(ps[0]) + (seq![','] + render_parts(
            ps.drop_first(),
        )));
    }
}

// ------------------------------------------- members and items in the source

/// Where a member stands in the source: its leading trivia from `lead`, its
/// key from `p` to `key_end`, the colon at `c`, its value from `v0` to
/// `v_end`, and its trailing trivia up to `a`, where a `,` or `}` stands.
pub struct MemberAt {
    pub lead: int,
    pub p: int,
    pub key_end: int,
    pub c: int,
    pub v0: int,
    pub v_end: int,
    pub a: int,
    pub key: Seq<char>,
    pub vt: Seq<char>,
}

pub open spec fn member_at(s: Seq<char>, m: MemberAt) -> bool {
    &&& 0 <= m.lead <= m.p
    &&& trivia_end(s, m.lead) == Some(m.p)
    &&& string_token(s, m.p) == Ok::<(int, Seq<char>), Fault>((m.key_end, m.key))
    &&& trivia_end(s, m.key_end) == Some(m.c)
    &&& at(s, m.c) == Some(':')
    &&& trivia_end(s, m.c + 1) == Some(m.v0)
    &&& value(s, m.v0) == Ok::<(Seq<char>, nat), Fault>((m.vt, (m.v_end - m.v0) as nat))
    &&& m.v0 <= m.v_end
    &&& trivia_end(s, m.v_end) == Some(m.a)
    &&& m.a < s.len()
}

/// A member made of the trivia of member `t` and the key and value of `b`.
pub open spec fn member_part(s: Seq<char>, t: MemberAt, b: MemberAt) -> Part {
    Part {
        leading: s.subrange(t.lead, t.p),
        key: b.key,
        body: s.subrange(b.p, b.v0) + b.vt,
        after: s.subrange(t.v_end, t.a),
    }
}

pub open spec fn member_parts(s: Seq<char>, tr: Seq<MemberAt>, bd: Seq<MemberAt>) -> Seq<Part> {
    Seq::new(tr.len(), |i: int| member_part(s, tr[i], bd[i]))
}

pub proof fn lemma_member_positions(s: Seq<char>, m: MemberAt)
    requires
        member_at(s, m),
    ensures
        m.lead <= m.p < m.key_end <= m.c < m.c + 1 <= m.v0 <= m.v_end <= m.a < s.len(),
        m.p + 2 <= m.key_end,
        at(s, m.p) == Some('"'),
{
    lemma_trivia_end(s, m.lead);
    lemma_string_token(s, m.p);
    lemma_trivia_end(s, m.key_end);
    lemma_trivia_end(s, m.c + 1);
    lemma_trivia_end(s, m.v_end);
}

/// The members of an object in the source, from the one whose key is at `p`.
pub proof fn lemma_members_at(s: Seq<char>, lead: int, p: int) -> (ms: Seq<MemberAt>)
    requires
        0 <= lead <= p <= s.len(),
        trivia_end(s, lead) == Some(p),
        object_members(s, lead, p) is Ok,
    ensures
        ms.len() == object_members(s, lead, p)->Ok_0.0.len(),
        ms.len() >= 1,
        ms[0].lead == lead,
        ms[0].p == p,
        forall|i: int|
            0 <= i < ms.len() ==> member_at(s, #[trigger] ms[i]) && p <= ms[i].p && member_part(
                s,
                ms[i],
                ms[i],
            ) == object_members(s, lead, p)->Ok_0.0[i],
    decreases s.len() - p,
{
    let (key_end, key) = string_token(s, p)->Ok_0;
    lemma_string_token(s, p);
    lemma_trivia_end(s, key_end);
    let c = trivia_end(s, key_end)->Some_0;
    lemma_trivia_end(s, c + 1);
    let v0 = trivia_end(s, c + 1)->Some_0;
    let (vt, vn) = value(s, v0)->Ok_0;
    let v_end = v0 + vn;
    lemma_trivia_end(s, v_end);
    let a = trivia_end(s, v_end)->Some_0;
    let m0 = MemberAt { lead, p, key_end, c, v0, v_end, a, key, vt };
    assert(member_head(s, p) == Ok::<(Seq<char>, nat, Seq<char>, nat, nat), Fault>(
        (key, (v0 - p) as nat, vt, vn, (a - v_end) as nat),
    ));
    let parts = object_members(s, lead, p)->Ok_0.0;
    if at(s, a) == Some(',') {
        lemma_trivia_end(s, a + 1);
        let n = trivia_end(s, a + 1)->Some_0;
        let rest = lemma_members_at(s, a + 1, n);
        let ms = seq![m0] + rest;
        assert forall|i: int| 0 <= i < ms.len() implies member_at(s, #[trigger] ms[i]) && p
            <= ms[i].p && member_part(s, ms[i], ms[i]) == parts[i] by {
            if i > 0 {
                assert(ms[i] == rest[i - 1]);
            }
        }
        ms
    } else {
        seq![m0]
    }
}

/// Where an item stands in the source: its leading trivia from `lead`, its
/// value from `p` to `v_end`, and its trailing trivia up to `a`, where a `,`
/// or `]` stands.
pub struct ItemAt {
    pub lead: int,
    pub p: int,
    pub v_end: int,
    pub a: int,
    pub vt: Seq<char>,
}

pub open spec fn item_at(s: Seq<char>, it: ItemAt) -> bool {
    &&& 0 <= it.lead <= it.p
    &&& trivia_end(s, it.lead) == Some(it.p)
    &&& value(s, it.p) == Ok::<(Seq<char>, nat), Fault>((it.vt, (it.v_end - it.p) as nat))
    &&& it.p <= it.v_end
    &&& trivia_end(s, it.v_end) == Some(it.a)
    &&& it.a < s.len()
}

pub open spec fn item_part(s: Seq<char>, it: ItemAt) -> Part {
    Part {
        leading: s.subrange(it.lead, it.p),
        key: Seq::empty(),
        body: it.vt,
        after: s.subrange(it.v_end, it.a),
    }
}

pub open spec fn item_parts(s: Seq<char>, its: Seq<ItemAt>) -> Seq<Part> {
    Seq::new(its.len(), |i: int| item_part(s, its[i]))
}

pub proof fn lemma_item_positions(s: Seq<char>, it: ItemAt)
    requires
        item_at(s, it),
    ensures
        it.lead <= it.p <= it.v_end <= it.a < s.len(),
{
    lemma_trivia_end(s, it.lead);
    lemma_trivia_end(s, it.v_end);
}

/// The items of an array in the source, from the one at `p`.
pub proof fn lemma_items_at(s: Seq<char>, lead: int, p: int) -> (its: Seq<ItemAt>)
    requires
        0 <= lead <= p <= s.len(),
        trivia_end(s, lead) == Some(p),
        array_items(s, lead, p) is Ok,
    ensures
        its.len() == array_items(s, lead, p)->Ok_0.0.len(),
        its.len() >= 1,
        its[0].lead == lead,
        its[0].p == p,
        forall|i: int|
            0 <= i < its.len() ==> item_at(s, #[trigger] its[i]) && p <= its[i].p && item_part(
                s,
                its[i],
            ) == array_items(s, lead, p)->Ok_0.0[i],
    decreases s.len() - p,
{
    let (vt, vn) = value(s, p)->Ok_0;
    let v_end = p + vn;
    lemma_trivia_end(s, v_end);
    let a = trivia_end(s, v_end)->Some_0;
    let i0 = ItemAt { lead, p, v_end, a, vt };
    assert(item_head(s, p) == Ok::<(Seq<char>, nat, nat), Fault>((vt, vn, (a - v_end) as nat)));
    let parts = array_items(s, lead, p)->Ok_0.0;
    if at(s, a) == Some(',') {
        lemma_trivia_end(s, a + 1);
        let n = trivia_end(s, a + 1)->Some_0;
        let rest = lemma_items_at(s, a + 1, n);
        let its = seq![i0] + rest;
        assert forall|i: int| 0 <= i < its.len() implies item_at(s, #[trigger] its[i]) && p
            <= its[i].p && item_part(s, its[i]) == parts[i] by {
            if i > 0 {
                assert(its[i] == rest[i - 1]);
            }
        }
        its
    } else {
        seq![i0]
    }
}


// -------------------------------------------------- reading sorted text again

/// One member laid out in `u` from `lu`, with the trivia of source member
/// `t` and the key and value of source member `b`, and followed by `,` or
/// `}`, reads as that member up to its trailing trivia.
#[verifier::rlimit(100)]
pub proof fn lemma_member_slot(s: Seq<char>, po: int, t: MemberAt, b: MemberAt, u: Seq<char>, lu: int)
    requires
        member_at(s, t),
        member_at(s, b),
        0 <= po < b.p,
        0 <= lu,
        lu + part_text(member_part(s, t, b)).len() < u.len(),
        u.subrange(lu, lu + part_text(member_part(s, t, b)).len()) == part_text(
            member_part(s, t, b),
        ),
        u[lu + part_text(member_part(s, t, b)).len()] == ','
            || u[lu + part_text(member_part(s, t, b)).len()] == '}',
    ensures
        ({
            let pu = lu + (t.p - t.lead);
            let v0_u = pu + (b.v0 - b.p);
            let vend_u = v0_u + b.vt.len();
            let a_u = vend_u + (t.a - t.v_end);
            &&& member_head(u, pu) == Ok::<(Seq<char>, nat, Seq<char>, nat, nat), Fault>(
                (b.key, (b.v0 - b.p) as nat, b.vt, b.vt.len(), (t.a - t.v_end) as nat),
            )
            &&& member_part(s, t, b) == Part {
                leading: u.subrange(lu, pu),
                key: b.key,
                body: u.subrange(pu, v0_u) + b.vt,
                after: u.subrange(vend_u, a_u),
            }
            &&& a_u == lu + part_text(member_part(s, t, b)).len()
        }),
    decreases s.len() - po, 0int, 0int,
{
    lemma_member_positions(s, t);
    lemma_member_positions(s, b);
    let pt = part_text(member_part(s, t, b));
    let lead_len = t.p - t.lead;
    let kb_len = b.v0 - b.p;
    let vt_len = b.vt.len() as int;
    let after_len = t.a - t.v_end;
    let pu = lu + lead_len;
    let v0_u = pu + kb_len;
    let vend_u = v0_u + vt_len;
    let a_u = vend_u + after_len;
    assert(pt =~= s.subrange(t.lead, t.p) + s.subrange(b.p, b.v0) + b.vt + s.subrange(
        t.v_end,
        t.a,
    ));
    lemma_piece(u, lu, pt, 0, lead_len);
    lemma_piece(u, lu, pt, lead_len, lead_len + kb_len);
    lemma_piece(u, lu, pt, lead_len + kb_len, lead_len + kb_len + vt_len);
    lemma_piece(u, lu, pt, lead_len + kb_len + vt_len, pt.len() as int);
    assert(pt.subrange(0, lead_len) =~= s.subrange(t.lead, t.p));
    assert(pt.subrange(lead_len, lead_len + kb_len) =~= s.subrange(b.p, b.v0));
    assert(pt.subrange(lead_len + kb_len, lead_len + kb_len + vt_len) =~= b.vt);
    assert(pt.subrange(lead_len + kb_len + vt_len, pt.len() as int) =~= s.subrange(
        t.v_end,
        t.a,
    ));
    // the key
    let db = pu - b.p;
    lemma_subrange_agree(s, b.p, b.v0, u, db);
    lemma_agree_sub(s, b.p, b.v0, u, db, b.p, b.key_end);
    lemma_string_local(s, b.p, u, db);
    // the colon and the trivia around it
    lemma_agree_sub(s, b.p, b.v0, u, db, b.key_end, b.c);
    lemma_agree_at(s, b.p, b.v0, u, db, b.c);
    lemma_trivia_local(s, b.key_end, b.c, u, db);
    lemma_agree_sub(s, b.p, b.v0, u, db, b.c + 1, b.v0);
    lemma_value_first(s, b.v0);
    assert(u[v0_u] == b.vt[0]) by {
        assert(u.subrange(v0_u, vend_u)[0] == u[v0_u]);
    }
    lemma_trivia_local(s, b.c + 1, b.v0, u, db);
    // the value
    assert(ends_value(u, vend_u)) by {
        if after_len > 0 {
            lemma_trivia_start(s, t.v_end);
            assert(u.subrange(vend_u, a_u)[0] == u[vend_u]);
        }
    }
    lemma_reparse_value(s, b.v0, u, v0_u);
    // the trivia after it
    let da = a_u - t.a;
    lemma_subrange_agree(s, t.v_end, t.a, u, da);
    lemma_trivia_local(s, t.v_end, t.a, u, da);
}

/// Members laid out in `u` from `lu`, each with the trivia of one member of
/// the source and the key and value of another, and followed by `}`, read as
/// those members.
#[verifier::rlimit(100)]
pub proof fn lemma_reparse_members(
    s: Seq<char>,
    po: int,
    tr: Seq<MemberAt>,
    bd: Seq<MemberAt>,
    u: Seq<char>,
    lu: int,
)
    requires
        tr.len() == bd.len(),
        tr.len() >= 1,
        0 <= po,
        forall|i: int| 0 <= i < tr.len() ==> member_at(s, #[trigger] tr[i]),
        forall|i: int| 0 <= i < bd.len() ==> member_at(s, #[trigger] bd[i]) && po < bd[i].p,
        0 <= lu,
        lu + render_parts(member_parts(s, tr, bd)).len() < u.len(),
        u.subrange(lu, lu + render_parts(member_parts(s, tr, bd)).len()) == render_parts(
            member_parts(s, tr, bd),
        ),
        u[lu + render_parts(member_parts(s, tr, bd)).len()] == '}',
    ensures
        object_members(u, lu, lu + (tr[0].p - tr[0].lead)) == Ok::<(Seq<Part>, nat), Fault>(
            (
                member_parts(s, tr, bd),
                (render_parts(member_parts(s, tr, bd)).len() + 1 - (tr[0].p - tr[0].lead)) as nat,
            ),
        ),
    decreases s.len() - po, 1int, tr.len(),
{
    let ps = member_parts(s, tr, bd);
    let rp = render_parts(ps);
    let t = tr[0];
    let b = bd[0];
    let pt = part_text(ps[0]);
    lemma_render_front(ps);
    assert(rp.subrange(0, pt.len() as int) =~= pt);
    lemma_piece(u, lu, rp, 0, pt.len() as int);
    let a_u = lu + pt.len();
    if ps.len() > 1 {
        assert(rp[pt.len() as int] == ',');
    }
    assert(u[a_u] == ',' || u[a_u] == '}') by {
        if ps.len() > 1 {
            assert(u.subrange(lu, lu + rp.len())[pt.len() as int] == u[a_u]);
        }
    }
    lemma_member_slot(s, po, t, b, u, lu);
    lemma_member_positions(s, t);
    lemma_member_positions(s, b);
    let pu = lu + (t.p - t.lead);
    if ps.len() > 1 {
        let rest = render_parts(ps.drop_first());
        let lu2 = a_u + 1;
        let tr2 = tr.drop_first();
        let bd2 = bd.drop_first();
        assert(u[a_u] == ',') by {
            assert(u.subrange(lu, lu + rp.len())[pt.len() as int] == u[a_u]);
        }
        assert(member_parts(s, tr2, bd2) =~= ps.drop_first());
        assert(rp.subrange(pt.len() as int + 1, rp.len() as int) =~= rest);
        lemma_piece(u, lu, rp, pt.len() as int + 1, rp.len() as int);
        // the next member's leading trivia
        let t1 = tr[1];
        let b1 = bd[1];
        assert(tr2[0] == t1 && bd2[0] == b1);
        lemma_member_positions(s, t1);
        lemma_member_positions(s, b1);
        lemma_render_front(ps.drop_first());
        let pt1 = part_text(ps[1]);
        assert(pt1 =~= s.subrange(t1.lead, t1.p) + s.subrange(b1.p, b1.v0) + b1.vt
            + s.subrange(t1.v_end, t1.a));
        assert(rest.subrange(0, pt1.len() as int) =~= pt1);
        lemma_piece(u, lu2, rest, 0, pt1.len() as int);
        lemma_piece(u, lu2, pt1, 0, t1.p - t1.lead);
        lemma_piece(u, lu2, pt1, t1.p - t1.lead, t1.p - t1.lead + 1);
        assert(pt1.subrange(0, t1.p - t1.lead) =~= s.subrange(t1.lead, t1.p));
        assert(pt1[t1.p - t1.lead] == s[b1.p]);
        assert(u[lu2 + t1.p - t1.lead] == s[b1.p]) by {
            assert(u.subrange(lu2 + t1.p - t1.lead, lu2 + t1.p - t1.lead + 1)[0] == u[lu2
                + t1.p - t1.lead]);
        }
        lemma_subrange_agree(s, t1.lead, t1.p, u, lu2 - t1.lead);
        lemma_trivia_local(s, t1.lead, t1.p, u, lu2 - t1.lead);
        lemma_reparse_members(s, po, tr2, bd2, u, lu2);
        assert(seq![ps[0]] + ps.drop_first() =~= ps);
        assert(at(u, a_u) == Some(','));
        assert(trivia_end(u, a_u + 1) == Some(lu2 + (t1.p - t1.lead)));
        assert(member_head(u, pu) is Ok);
        let part = member_head(u, pu)->Ok_0;
        assert(part.1 == b.v0 - b.p);
        assert(part.3 == b.vt.len());
        assert(part.4 == t.a - t.v_end);
        assert(pu + part.1 + part.3 + part.4 == a_u);
        let n = lu2 + (t1.p - t1.lead);
        let m = object_members(u, lu2, n)->Ok_0.1;
        assert(object_members(u, lu, pu) == Ok::<(Seq<Part>, nat), Fault>(
            (seq![ps[0]] + ps.drop_first(), (n + m - pu) as nat),
        ));
    } else {
        assert(u[a_u] == '}');
        assert(at(u, a_u) == Some('}'));
        assert(member_head(u, pu) is Ok);
        assert(seq![ps[0]] =~= ps);
    }
}

/// Items laid out in `u` from `lu`, followed by `]`, read as those items.
#[verifier::rlimit(100)]
pub proof fn lemma_reparse_items(s: Seq<char>, po: int, its: Seq<ItemAt>, u: Seq<char>, lu: int)
    requires
        its.len() >= 1,
        0 <= po,
        forall|i: int| 0 <= i < its.len() ==> item_at(s, #[trigger] its[i]) && po < its[i].p,
        0 <= lu,
        lu + render_parts(item_parts(s, its)).len() < u.len(),
        u.subrange(lu, lu + render_parts(item_parts(s, its)).len()) == render_parts(
            item_parts(s, its),
        ),
        u[lu + render_parts(item_parts(s, its)).len()] == ']',
    ensures
        array_items(u, lu, lu + (its[0].p - its[0].lead)) == Ok::<(Seq<Part>, nat), Fault>(
            (
                item_parts(s, its),
                (render_parts(item_parts(s, its)).len() + 1 - (its[0].p - its[0].lead)) as nat,
            ),
        ),
    decreases s.len() - po, 1int, its.len(),
{
    let ps = item_parts(s, its);
    let rp = render_parts(ps);
    let t = its[0];
    lemma_item_positions(s, t);
    let pt = part_text(ps[0]);
    lemma_render_front(ps);
    let lead_len = t.p - t.lead;
    let vt_len = t.vt.len() as int;
    let after_len = t.a - t.v_end;
    let pu = lu + lead_len;
    let vend_u = pu + vt_len;
    let a_u = vend_u + after_len;
    assert(pt =~= s.subrange(t.lead, t.p) + t.vt + s.subrange(t.v_end, t.a));
    assert(rp.subrange(0, pt.len() as int) =~= pt);
    lemma_piece(u, lu, rp, 0, pt.len() as int);
    lemma_piece(u, lu, pt, 0, lead_len);
    lemma_piece(u, lu, pt, lead_len, lead_len + vt_len);
    lemma_piece(u, lu, pt, lead_len + vt_len, pt.len() as int);
    assert(pt.subrange(0, lead_len) =~= s.subrange(t.lead, t.p));
    assert(pt.subrange(lead_len, lead_len + vt_len) =~= t.vt);
    assert(pt.subrange(lead_len + vt_len, pt.len() as int) =~= s.subrange(t.v_end, t.a));
    if ps.len() > 1 {
        assert(rp[pt.len() as int] == ',');
    }
    assert(u[a_u] == ',' || u[a_u] == ']') by {
        if ps.len() > 1 {
            assert(u.subrange(lu, lu + rp.len())[pt.len() as int] == u[a_u]);
        }
    }
    lemma_value_first(s, t.p);
    assert(ends_value(u, vend_u)) by {
        if after_len > 0 {
            lemma_trivia_start(s, t.v_end);
            assert(u.subrange(vend_u, a_u)[0] == u[vend_u]);
        }
    }
    lemma_reparse_value(s, t.p, u, pu);
    let da = a_u - t.a;
    lemma_subrange_agree(s, t.v_end, t.a, u, da);
    lemma_trivia_local(s, t.v_end, t.a, u, da);
    assert(item_head(u, pu) == Ok::<(Seq<char>, nat, nat), Fault>(
        (t.vt, vt_len as nat, after_len as nat),
    ));
    assert(ps[0] == Part {
        leading: u.subrange(lu, pu),
        key: Seq::empty(),
        body: t.vt,
        after: u.subrange(vend_u, a_u),
    });
    if ps.len() > 1 {
        let rest = render_parts(ps.drop_first());
        let lu2 = a_u + 1;
        let its2 = its.drop_first();
        assert(item_parts(s, its2) =~= ps.drop_first());
        assert(rp.subrange(pt.len() as int + 1, rp.len() as int) =~= rest);
        lemma_piece(u, lu, rp, pt.len() as int + 1, rp.len() as int);
        let t1 = its[1];
        assert(its2[0] == t1);
        lemma_item_positions(s, t1);
        lemma_value_first(s, t1.p);
        lemma_render_front(ps.drop_first());
        let pt1 = part_text(ps[1]);
        assert(pt1 =~= s.subrange(t1.lead, t1.p) + t1.vt + s.subrange(t1.v_end, t1.a));
        assert(rest.subrange(0, pt1.len() as int) =~= pt1);
        lemma_piece(u, lu2, rest, 0, pt1.len() as int);
        lemma_piece(u, lu2, pt1, 0, t1.p - t1.lead);
        lemma_piece(u, lu2, pt1, t1.p - t1.lead, t1.p - t1.lead + 1);
        assert(pt1.subrange(0, t1.p - t1.lead) =~= s.subrange(t1.lead, t1.p));
        assert(pt1[t1.p - t1.lead] == t1.vt[0]);
        assert(u[lu2 + t1.p - t1.lead] == t1.vt[0]) by {
            assert(u.subrange(lu2 + t1.p - t1.lead, lu2 + t1.p - t1.lead + 1)[0] == u[lu2
                + t1.p - t1.lead]);
        }
        lemma_subrange_agree(s, t1.lead, t1.p, u, lu2 - t1.lead);
        lemma_trivia_local(s, t1.lead, t1.p, u, lu2 - t1.lead);
        lemma_reparse_items(s, po, its2, u, lu2);
        assert(seq![ps[0]] + ps.drop_first() =~= ps);
    } else {
        assert(seq![ps[0]] =~= ps);
    }
}

/// The members of a sorted object, copied into `u` after its `{`, read as the
/// sorted members, and the trivia before the first one reads as such.
#[verifier::rlimit(100)]
pub proof fn lemma_reparse_sorted_members(s: Seq<char>, p: int, u: Seq<char>, k: int)
    requires
        0 <= p < s.len(),
        trivia_end(s, p + 1) matches Some(q) && at(s, q) != Some('}'),
        object_members(s, p + 1, trivia_end(s, p + 1)->Some_0) is Ok,
        0 <= k,
        k + 2 + render_parts(
            arrange(object_members(s, p + 1, trivia_end(s, p + 1)->Some_0)->Ok_0.0),
        ).len() <= u.len(),
        u.subrange(
            k + 1,
            k + 1 + render_parts(
                arrange(object_members(s, p + 1, trivia_end(s, p + 1)->Some_0)->Ok_0.0),
            ).len(),
        ) == render_parts(arrange(object_members(s, p + 1, trivia_end(s, p + 1)->Some_0)->Ok_0.0)),
        u[k + 1 + render_parts(
            arrange(object_members(s, p + 1, trivia_end(s, p + 1)->Some_0)->Ok_0.0),
        ).len()] == '}',
    ensures
        ({
            let q = trivia_end(s, p + 1)->Some_0;
            let arr = arrange(object_members(s, p + 1, q)->Ok_0.0);
            &&& trivia_end(u, k + 1) == Some(q + k - p)
            &&& at(u, q + k - p) == Some('"')
            &&& p + 1 <= q
            &&& q - p - 1 <= render_parts(arr).len()
            &&& object_members(u, k + 1, q + k - p) == Ok::<(Seq<Part>, nat), Fault>(
                (arr, (render_parts(arr).len() + 1 - (q - p - 1)) as nat),
            )
        }),
    decreases s.len() - p, 2int, 0int,
{
    let d = k - p;
    lemma_trivia_end(s, p + 1);
    let q = trivia_end(s, p + 1)->Some_0;
    let parts = object_members(s, p + 1, q)->Ok_0.0;
    let ms = lemma_members_at(s, p + 1, q);
    let key = |pp: Part| part_key(pp);
    let sorted = sort_by_key(parts, key);
    lemma_sort_len(parts, key);
    assert forall|i: int| 0 <= i < ms.len() implies exists|j: int|
        0 <= j < ms.len() && #[trigger] sorted[i] == parts[j] by {
        let j = lemma_sort_source(parts, key, i);
    }
    let bd = Seq::new(
        ms.len(),
        |i: int| ms[choose|j: int| 0 <= j < ms.len() && sorted[i] == parts[j]],
    );
    let arr = arrange(parts);
    assert forall|i: int| 0 <= i < bd.len() implies member_at(s, #[trigger] bd[i]) && p
        < bd[i].p && member_part(s, ms[i], bd[i]) == arr[i] by {
        let j = choose|j: int| 0 <= j < ms.len() && sorted[i] == parts[j];
        assert(bd[i] == ms[j]);
        assert(member_part(s, ms[j], ms[j]) == parts[j]);
        assert(member_part(s, ms[i], ms[i]) == parts[i]);
    }
    assert(member_parts(s, ms, bd) =~= arr);
    let rp = render_parts(arr);
    // the leading trivia of the first member
    let m0 = ms[0];
    let b0 = bd[0];
    lemma_member_positions(s, m0);
    lemma_member_positions(s, b0);
    lemma_render_front(arr);
    let pt0 = part_text(arr[0]);
    assert(pt0 =~= s.subrange(m0.lead, m0.p) + s.subrange(b0.p, b0.v0) + b0.vt + s.subrange(
        m0.v_end,
        m0.a,
    ));
    assert(rp.subrange(0, pt0.len() as int) =~= pt0);
    lemma_piece(u, k + 1, rp, 0, pt0.len() as int);
    lemma_piece(u, k + 1, pt0, 0, q - p - 1);
    lemma_piece(u, k + 1, pt0, q - p - 1, q - p);
    assert(pt0.subrange(0, q - p - 1) =~= s.subrange(p + 1, q));
    assert(pt0[q - p - 1] == s[b0.p]);
    assert(u[q + d] == s[b0.p]) by {
        assert(u.subrange(q + d, q + d + 1)[0] == u[q + d]);
    }
    lemma_subrange_agree(s, p + 1, q, u, d);
    lemma_trivia_local(s, p + 1, q, u, d);
    lemma_reparse_members(s, p, ms, bd, u, k + 1);
}

/// A sorted object, copied into `u`, reads as itself.
#[verifier::rlimit(100)]
pub proof fn lemma_reparse_object(s: Seq<char>, p: int, u: Seq<char>, k: int)
    requires
        0 <= p,
        at(s, p) == Some('{'),
        object(s, p) is Ok,
        0 <= k,
        k + object(s, p)->Ok_0.0.len() <= u.len(),
        u.subrange(k, k + object(s, p)->Ok_0.0.len()) == object(s, p)->Ok_0.0,
    ensures
        object(u, k) == Ok::<(Seq<char>, nat), Fault>(
            (object(s, p)->Ok_0.0, object(s, p)->Ok_0.0.len() as nat),
        ),
    decreases s.len() - p, 2int, 1int,
{
    let vt = object(s, p)->Ok_0.0;
    let d = k - p;
    lemma_trivia_end(s, p + 1);
    let q = trivia_end(s, p + 1)->Some_0;
    assert(u[k] == '{') by {
        assert(u.subrange(k, k + vt.len())[0] == u[k]);
    }
    if at(s, q) == Some('}') {
        assert(vt =~= seq!['{'] + s.subrange(p + 1, q) + seq!['}']);
        lemma_piece(u, k, vt, 1, q - p);
        assert(vt.subrange(1, q - p) =~= s.subrange(p + 1, q));
        lemma_subrange_agree(s, p + 1, q, u, d);
        assert(u[q + d] == '}') by {
            assert(u.subrange(k, k + vt.len())[q - p] == u[q + d]);
        }
        assert(at(u, q + d) == Some('}'));
        lemma_trivia_local(s, p + 1, q, u, d);
        assert(u.subrange(k + 1, q + d) == s.subrange(p + 1, q));
    } else {
        let parts = object_members(s, p + 1, q)->Ok_0.0;
        let arr = arrange(parts);
        let rp = render_parts(arr);
        assert(vt =~= seq!['{'] + rp + seq!['}']);
        lemma_piece(u, k, vt, 1, rp.len() as int + 1);
        assert(vt.subrange(1, rp.len() as int + 1) =~= rp);
        assert(u[k + 1 + rp.len()] == '}') by {
            assert(u.subrange(k, k + vt.len())[rp.len() as int + 1] == u[k + 1 + rp.len()]);
        }
        lemma_reparse_sorted_members(s, p, u, k);
        law_members_in_key_order(parts);
        law_sorted_members_stay(arr);
    }
}

/// A sorted array, copied into `u`, reads as itself.
#[verifier::rlimit(100)]
pub proof fn lemma_reparse_array(s: Seq<char>, p: int, u: Seq<char>, k: int)
    requires
        0 <= p,
        at(s, p) == Some('['),
        array(s, p) is Ok,
        0 <= k,
        k + array(s, p)->Ok_0.0.len() <= u.len(),
        u.subrange(k, k + array(s, p)->Ok_0.0.len()) == array(s, p)->Ok_0.0,
    ensures
        array(u, k) == Ok::<(Seq<char>, nat), Fault>(
            (array(s, p)->Ok_0.0, array(s, p)->Ok_0.0.len() as nat),
        ),
    decreases s.len() - p, 2int, 0int,
{
    let vt = array(s, p)->Ok_0.0;
    let d = k - p;
    lemma_trivia_end(s, p + 1);
    let q = trivia_end(s, p + 1)->Some_0;
    assert(u[k] == '[') by {
        assert(u.subrange(k, k + vt.len())[0] == u[k]);
    }
    if at(s, q) == Some(']') {
        assert(vt =~= seq!['['] + s.subrange(p + 1, q) + seq![']']);
        lemma_piece(u, k, vt, 1, q - p);
        assert(vt.subrange(1, q - p) =~= s.subrange(p + 1, q));
        lemma_subrange_agree(s, p + 1, q, u, d);
        assert(u[q + d] == ']') by {
            assert(u.subrange(k, k + vt.len())[q - p] == u[q + d]);
        }
        assert(at(u, q + d) == Some(']'));
        lemma_trivia_local(s, p + 1, q, u, d);
        assert(u.subrange(k + 1, q + d) == s.subrange(p + 1, q));
    } else {
        let parts = array_items(s, p + 1, q)->Ok_0.0;
        let its = lemma_items_at(s, p + 1, q);
        assert forall|i: int| 0 <= i < its.len() implies item_at(s, #[trigger] its[i]) && p
            < its[i].p by {}
        assert(item_parts(s, its) =~= parts);
        let rp = render_parts(parts);
        assert(vt =~= seq!['['] + rp + seq![']']);
        lemma_piece(u, k, vt, 1, rp.len() as int + 1);
        assert(vt.subrange(1, rp.len() as int + 1) =~= rp);
        assert(u[k + 1 + rp.len()] == ']') by {
            assert(u.subrange(k, k + vt.len())[rp.len() as int + 1] == u[k + 1 + rp.len()]);
        }
        let t0 = its[0];
        lemma_item_positions(s, t0);
        lemma_value_first(s, t0.p);
        lemma_render_front(parts);
        let pt0 = part_text(parts[0]);
        assert(pt0 =~= s.subrange(t0.lead, t0.p) + t0.vt + s.subrange(t0.v_end, t0.a));
        assert(rp.subrange(0, pt0.len() as int) =~= pt0);
        lemma_piece(u, k + 1, rp, 0, pt0.len() as int);
        lemma_piece(u, k + 1, pt0, 0, q - p - 1);
        lemma_piece(u, k + 1, pt0, q - p - 1, q - p);
        assert(pt0.subrange(0, q - p - 1) =~= s.subrange(p + 1, q));
        assert(pt0[q - p - 1] == t0.vt[0]);
        assert(u[q + d] == t0.vt[0]) by {
            assert(u.subrange(q + d, q + d + 1)[0] == u[q + d]);
        }
        lemma_subrange_agree(s, p + 1, q, u, d);
        lemma_trivia_local(s, p + 1, q, u, d);
        lemma_reparse_items(s, p, its, u, k + 1);
    }
}

/// A sorted value, copied into `u` where something that may follow a value
/// comes after it, reads as itself.
#[verifier::rlimit(100)]
pub proof fn lemma_reparse_value(s: Seq<char>, p: int, u: Seq<char>, k: int)
    requires
        0 <= p,
        value(s, p) is Ok,
        0 <= k,
        k + value(s, p)->Ok_0.0.len() <= u.len(),
        u.subrange(k, k + value(s, p)->Ok_0.0.len()) == value(s, p)->Ok_0.0,
        ends_value(u, k + value(s, p)->Ok_0.0.len()),
    ensures
        value(u, k) == Ok::<(Seq<char>, nat), Fault>(
            (value(s, p)->Ok_0.0, value(s, p)->Ok_0.0.len() as nat),
        ),
    decreases s.len() - p, 3int, 0int,
{
    let vt = value(s, p)->Ok_0.0;
    let d = k - p;
    lemma_value_first(s, p);
    let c = s[p];
    assert(u[k] == c) by {
        assert(u.subrange(k, k + vt.len())[0] == u[k]);
    }
    if c == '{' {
        assert(value(s, p) == object(s, p));
        lemma_reparse_object(s, p, u, k);
        assert(value(u, k) == object(u, k));
    } else if c == '[' {
        assert(value(s, p) == array(s, p));
        lemma_reparse_array(s, p, u, k);
        assert(value(u, k) == array(u, k));
    } else if c == '"' {
        lemma_string_token(s, p);
        let e = string_token(s, p)->Ok_0.0;
        assert(vt == s.subrange(p, e));
        lemma_subrange_agree(s, p, e, u, d);
        lemma_string_local(s, p, u, d);
    } else if c == '-' || is_digit(c) {
        lemma_number_len(s, p);
        let e = number_token(s, p)->Ok_0;
        assert(value(s, p) == token_value(s, p, number_token(s, p)));
        assert(vt == s.subrange(p, e));
        lemma_subrange_agree(s, p, e, u, d);
        lemma_number_local(s, p, u, d);
        assert(value(u, k) == token_value(u, k, number_token(u, k)));
    } else {
        reveal(literal_token);
        let literal = if c == 't' {
            Literal::True
        } else if c == 'f' {
            Literal::False
        } else {
            Literal::Null
        };
        assert(value(s, p) == token_value(s, p, literal_token(s, p, literal)));
        let e = literal_token(s, p, literal)->Ok_0;
        assert(vt == s.subrange(p, e));
        lemma_subrange_agree(s, p, e, u, d);
        lemma_literal_local(s, p, literal, u, d);
        assert(value(u, k) == token_value(u, k, literal_token(u, k, literal)));
    }
}

} // verus!
