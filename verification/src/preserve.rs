//! Sorting keeps every character: the sorted text of a value holds the same
//! characters, as many times each, as the source text of the value.

use vstd::prelude::*;
use vstd::multiset::Multiset;
use crate::fault::{Fault, Literal};
use crate::grammar::{
    Part, arrange, array, array_items, at, item_head, lemma_trivia_end, literal_token, member_head,
    number_token, object, object_members, part_key, part_text, render_parts, sort_by_key,
    string_token, token_value, trivia_end, value,
};
use crate::order::{lemma_insert_shape, lemma_sort_len};
use crate::reparse::{lemma_number_len, lemma_render_front};

verus! {

broadcast use {vstd::seq_lib::lemma_multiset_commutative, vstd::multiset::group_multiset_axioms};

/// The characters of one piece of each part, all together.
pub open spec fn piece_chars(ps: Seq<Part>, piece: spec_fn(Part) -> Seq<char>) -> Multiset<char>
    decreases ps.len(),
{
    if ps.len() == 0 {
        Multiset::empty()
    } else {
        piece_chars(ps.drop_last(), piece).add(piece(ps.last()).to_multiset())
    }
}

pub open spec fn leading_of(p: Part) -> Seq<char> {
    p.leading
}

pub open spec fn body_of(p: Part) -> Seq<char> {
    p.body
}

pub open spec fn after_of(p: Part) -> Seq<char> {
    p.after
}

/// `n` commas.
pub open spec fn commas(n: int) -> Multiset<char> {
    Seq::new(n as nat, |i: int| ',').to_multiset()
}

proof fn lemma_commas_next(n: int)
    requires
        0 <= n,
    ensures
        commas(n + 1) == commas(n).insert(','),
{
    broadcast use vstd::seq_lib::group_to_multiset_ensures;

    assert(Seq::new((n + 1) as nat, |i: int| ',') =~= Seq::new(n as nat, |i: int| ',').push(','));
}

/// The characters of the rendered parts: those of each part, and the commas.
pub proof fn lemma_render_chars(ps: Seq<Part>)
    ensures
        render_parts(ps).to_multiset() == piece_chars(ps, |p: Part| leading_of(p)).add(
            piece_chars(ps, |p: Part| body_of(p)),
        ).add(piece_chars(ps, |p: Part| after_of(p))).add(
            commas(if ps.len() == 0 {
                0
            } else {
                ps.len() - 1
            }),
        ),
    decreases ps.len(),
{
    broadcast use vstd::seq_lib::group_to_multiset_ensures;

    let lf = |p: Part| leading_of(p);
    let bf = |p: Part| body_of(p);
    let af = |p: Part| after_of(p);
    if ps.len() == 0 {
        assert(render_parts(ps).to_multiset() =~= Multiset::empty());
        assert(commas(0) =~= Multiset::empty());
    } else if ps.len() == 1 {
        assert(ps.drop_last().len() == 0);
        assert(commas(0) =~= Multiset::empty());
        assert(piece_chars(ps.drop_last(), lf) == Multiset::<char>::empty());
        assert(piece_chars(ps.drop_last(), bf) == Multiset::<char>::empty());
        assert(piece_chars(ps.drop_last(), af) == Multiset::<char>::empty());
        assert(ps.last() == ps[0]);
        assert(piece_chars(ps, lf) =~= ps[0].leading.to_multiset());
        assert(piece_chars(ps, bf) =~= ps[0].body.to_multiset());
        assert(piece_chars(ps, af) =~= ps[0].after.to_multiset());
        assert(render_parts(ps) == part_text(ps[0]));
        assert(part_text(ps[0]).to_multiset() =~= ps[0].leading.to_multiset().add(
            ps[0].body.to_multiset(),
        ).add(ps[0].after.to_multiset()));
        assert(render_parts(ps).to_multiset() =~= piece_chars(ps, lf).add(piece_chars(ps, bf)).add(
            piece_chars(ps, af),
        ).add(commas(0)));
    } else {
        let init = ps.drop_last();
        lemma_render_chars(init);
        lemma_commas_next(init.len() - 1);
        let last = ps.last();
        assert(render_parts(ps) == render_parts(init).push(',') + part_text(last));
        assert(part_text(last).to_multiset() =~= last.leading.to_multiset().add(
            last.body.to_multiset(),
        ).add(last.after.to_multiset()));
        assert(render_parts(ps).to_multiset() =~= piece_chars(ps, lf).add(piece_chars(ps, bf)).add(
            piece_chars(ps, af),
        ).add(commas(ps.len() - 1)));
    }
}

/// Parts whose pieces agree one by one have the same characters in them.
pub proof fn lemma_piece_chars_same(
    ps: Seq<Part>,
    qs: Seq<Part>,
    piece: spec_fn(Part) -> Seq<char>,
)
    requires
        ps.len() == qs.len(),
        forall|i: int| 0 <= i < ps.len() ==> piece(#[trigger] ps[i]) == piece(qs[i]),
    ensures
        piece_chars(ps, piece) == piece_chars(qs, piece),
    decreases ps.len(),
{
    if ps.len() > 0 {
        assert forall|i: int| 0 <= i < ps.len() - 1 implies piece(
            #[trigger] ps.drop_last()[i],
        ) == piece(qs.drop_last()[i]) by {
            assert(piece(ps[i]) == piece(qs[i]));
        }
        lemma_piece_chars_same(ps.drop_last(), qs.drop_last(), piece);
        assert(piece(ps[ps.len() - 1]) == piece(qs[qs.len() - 1]));
    }
}

proof fn lemma_piece_chars_concat(a: Seq<Part>, b: Seq<Part>, piece: spec_fn(Part) -> Seq<char>)
    ensures
        piece_chars(a + b, piece) == piece_chars(a, piece).add(piece_chars(b, piece)),
    decreases b.len(),
{
    if b.len() == 0 {
        assert(a + b =~= a);
        assert(piece_chars(a, piece).add(Multiset::empty()) =~= piece_chars(a, piece));
    } else {
        lemma_piece_chars_concat(a, b.drop_last(), piece);
        assert((a + b).drop_last() =~= a + b.drop_last());
        assert(piece_chars(a + b, piece) =~= piece_chars(a, piece).add(piece_chars(b, piece)));
    }
}

/// Sorting parts keeps the characters of their pieces.
pub proof fn lemma_piece_chars_sort(ps: Seq<Part>, piece: spec_fn(Part) -> Seq<char>)
    ensures
        piece_chars(sort_by_key(ps, |p: Part| part_key(p)), piece) == piece_chars(ps, piece),
    decreases ps.len(),
{
    let key = |p: Part| part_key(p);
    if ps.len() > 0 {
        let init = ps.drop_last();
        let x = ps.last();
        lemma_piece_chars_sort(init, piece);
        let sorted = sort_by_key(init, key);
        let j = lemma_insert_shape(sorted, x, key);
        let front = sorted.take(j);
        let back = sorted.skip(j);
        lemma_piece_chars_concat(front.push(x), back, piece);
        lemma_piece_chars_concat(front, back, piece);
        assert(front.push(x).drop_last() =~= front);
        assert(sorted =~= front + back);
        assert(piece_chars(sort_by_key(ps, key), piece) =~= piece_chars(ps, piece));
    }
}

/// Sorting the members of an object keeps the characters of their text.
pub proof fn lemma_arrange_chars(ps: Seq<Part>)
    ensures
        render_parts(arrange(ps)).to_multiset() == render_parts(ps).to_multiset(),
{
    let key = |p: Part| part_key(p);
    let sorted = sort_by_key(ps, key);
    lemma_sort_len(ps, key);
    let arr = arrange(ps);
    lemma_render_chars(ps);
    lemma_render_chars(arr);
    lemma_piece_chars_same(arr, ps, |p: Part| leading_of(p));
    lemma_piece_chars_same(arr, ps, |p: Part| after_of(p));
    lemma_piece_chars_same(arr, sorted, |p: Part| body_of(p));
    lemma_piece_chars_sort(ps, |p: Part| body_of(p));
}

// ------------------------------------------------------------- the source

/// The members of an object, rendered in text order and followed by `}`,
/// hold the characters of their source.
pub proof fn lemma_members_chars(s: Seq<char>, lead: int, p: int)
    requires
        0 <= lead <= p <= s.len(),
        object_members(s, lead, p) is Ok,
    ensures
        p + object_members(s, lead, p)->Ok_0.1 <= s.len(),
        render_parts(object_members(s, lead, p)->Ok_0.0).to_multiset().insert('}') == s.subrange(
            lead,
            p + object_members(s, lead, p)->Ok_0.1,
        ).to_multiset(),
    decreases s.len() - p, 1int,
{
    broadcast use vstd::seq_lib::group_to_multiset_ensures;

    let (parts, m) = object_members(s, lead, p)->Ok_0;
    let (key, d0, vt, vn, da) = member_head(s, p)->Ok_0;
    let (key_end, _) = string_token(s, p)->Ok_0;
    crate::grammar::lemma_string_token(s, p);
    lemma_trivia_end(s, key_end);
    let c = trivia_end(s, key_end)->Some_0;
    lemma_trivia_end(s, c + 1);
    let v0 = trivia_end(s, c + 1)->Some_0;
    assert(v0 == p + d0);
    lemma_value_chars(s, v0);
    let v_end = v0 + vn;
    lemma_trivia_end(s, v_end);
    let a = v_end + da;
    let part = parts[0];
    lemma_render_front(parts);
    assert(part_text(part) =~= s.subrange(lead, p) + s.subrange(p, v0) + vt + s.subrange(
        v_end,
        a,
    ));
    assert(s.subrange(lead, a) =~= s.subrange(lead, p) + s.subrange(p, v0) + s.subrange(v0, v_end)
        + s.subrange(v_end, a));
    assert(part_text(part).to_multiset() =~= s.subrange(lead, a).to_multiset());
    if at(s, a) == Some(',') {
        lemma_trivia_end(s, a + 1);
        let n = trivia_end(s, a + 1)->Some_0;
        lemma_members_chars(s, a + 1, n);
        let rest = object_members(s, a + 1, n)->Ok_0;
        assert(parts.drop_first() == rest.0);
        let whole = s.subrange(lead, p + m);
        assert(whole =~= s.subrange(lead, a) + seq![','] + s.subrange(a + 1, n + rest.1));
        assert(render_parts(parts) == part_text(part) + (seq![','] + render_parts(rest.0)));
        assert(render_parts(parts).to_multiset().insert('}') =~= whole.to_multiset());
    } else {
        assert(s.subrange(lead, p + m) =~= s.subrange(lead, a).push('}'));
    }
}

/// The items of an array, rendered and followed by `]`, hold the characters
/// of their source.
pub proof fn lemma_items_chars(s: Seq<char>, lead: int, p: int)
    requires
        0 <= lead <= p <= s.len(),
        array_items(s, lead, p) is Ok,
    ensures
        p + array_items(s, lead, p)->Ok_0.1 <= s.len(),
        render_parts(array_items(s, lead, p)->Ok_0.0).to_multiset().insert(']') == s.subrange(
            lead,
            p + array_items(s, lead, p)->Ok_0.1,
        ).to_multiset(),
    decreases s.len() - p, 5int,
{
    broadcast use vstd::seq_lib::group_to_multiset_ensures;

    let (parts, m) = array_items(s, lead, p)->Ok_0;
    let (vt, vn, da) = item_head(s, p)->Ok_0;
    lemma_value_chars(s, p);
    let v_end = p + vn;
    lemma_trivia_end(s, v_end);
    let a = v_end + da;
    let part = parts[0];
    lemma_render_front(parts);
    assert(part_text(part) =~= s.subrange(lead, p) + vt + s.subrange(v_end, a));
    assert(s.subrange(lead, a) =~= s.subrange(lead, p) + s.subrange(p, v_end) + s.subrange(
        v_end,
        a,
    ));
    assert(part_text(part).to_multiset() =~= s.subrange(lead, a).to_multiset());
    if at(s, a) == Some(',') {
        lemma_trivia_end(s, a + 1);
        let n = trivia_end(s, a + 1)->Some_0;
        lemma_items_chars(s, a + 1, n);
        let rest = array_items(s, a + 1, n)->Ok_0;
        assert(parts.drop_first() == rest.0);
        let whole = s.subrange(lead, p + m);
        assert(whole =~= s.subrange(lead, a) + seq![','] + s.subrange(a + 1, n + rest.1));
        assert(render_parts(parts) == part_text(part) + (seq![','] + render_parts(rest.0)));
        assert(render_parts(parts).to_multiset().insert(']') =~= whole.to_multiset());
    } else {
        assert(s.subrange(lead, p + m) =~= s.subrange(lead, a).push(']'));
    }
}

/// The sorted text of a value holds the characters of its source text.
pub proof fn lemma_value_chars(s: Seq<char>, p: int)
    requires
        0 <= p,
        value(s, p) is Ok,
    ensures
        p + value(s, p)->Ok_0.1 <= s.len(),
        value(s, p)->Ok_0.0.to_multiset() == s.subrange(p, p + value(s, p)->Ok_0.1).to_multiset(),
    decreases s.len() - p, 3int,
{
    broadcast use vstd::seq_lib::group_to_multiset_ensures;

    let (vt, n) = value(s, p)->Ok_0;
    let c = s[p];
    if c == '{' {
        assert(value(s, p) == object(s, p));
        lemma_trivia_end(s, p + 1);
        let q = trivia_end(s, p + 1)->Some_0;
        if at(s, q) == Some('}') {
            assert(s.subrange(p, p + n) =~= vt);
        } else {
            let (parts, m) = object_members(s, p + 1, q)->Ok_0;
            lemma_members_chars(s, p + 1, q);
            lemma_arrange_chars(parts);
            assert(vt =~= seq!['{'] + render_parts(arrange(parts)) + seq!['}']);
            assert(s.subrange(p, p + n) =~= seq!['{'] + s.subrange(p + 1, q + m));
            assert(vt.to_multiset() =~= s.subrange(p, p + n).to_multiset());
        }
    } else if c == '[' {
        assert(value(s, p) == array(s, p));
        lemma_trivia_end(s, p + 1);
        let q = trivia_end(s, p + 1)->Some_0;
        if at(s, q) == Some(']') {
            assert(s.subrange(p, p + n) =~= vt);
        } else {
            let (parts, m) = array_items(s, p + 1, q)->Ok_0;
            lemma_items_chars(s, p + 1, q);
            assert(vt =~= seq!['['] + render_parts(parts) + seq![']']);
            assert(s.subrange(p, p + n) =~= seq!['['] + s.subrange(p + 1, q + m));
            assert(vt.to_multiset() =~= s.subrange(p, p + n).to_multiset());
        }
    } else if c == '"' {
        crate::grammar::lemma_string_token(s, p);
    } else if c == '-' || crate::grammar::is_digit(c) {
        lemma_number_len(s, p);
        assert(value(s, p) == token_value(s, p, number_token(s, p)));
    } else {
        reveal(literal_token);
        let literal = if c == 't' {
            Literal::True
        } else if c == 'f' {
            Literal::False
        } else {
            Literal::Null
        };
        assert(value(s, p) == token_value(s, p, literal_token(s, p, literal)));
    }
}

} // verus!
