//! What holds of sorting as a whole.

use vstd::prelude::*;
use crate::grammar::{
    Part, arrange, at, document, key_lt, lemma_trivia_end, part_key, sort_by_key, trivia_end,
    value,
};
use crate::preserve::lemma_value_chars;
use crate::reparse::{
    ends_value, lemma_reparse_value, lemma_subrange_agree, lemma_trivia_local,
    lemma_trivia_start, lemma_value_first, stops_trivia,
};
use crate::order::{
    lemma_sort_len, lemma_sort_multiset, lemma_sort_of_sorted, lemma_sort_sorted,
    lemma_sort_stable, sorted_by_key, with_key,
};

verus! {

/// After sorting, the members of an object stand in the order of their keys:
/// no member has a key that sorts before the key of a member ahead of it.
pub proof fn law_members_in_key_order(members: Seq<Part>)
    ensures
        forall|i: int, j: int|
            0 <= i < j < arrange(members).len() ==> !key_lt(
                #[trigger] arrange(members)[j].key,
                #[trigger] arrange(members)[i].key,
            ),
{
    let sorted = sort_by_key(members, |p: Part| part_key(p));
    lemma_sort_len(members, |p: Part| part_key(p));
    lemma_sort_sorted(members, |p: Part| part_key(p));
    assert forall|i: int, j: int| 0 <= i < j < arrange(members).len() implies !key_lt(
        #[trigger] arrange(members)[j].key,
        #[trigger] arrange(members)[i].key,
    ) by {
        assert(arrange(members)[j].key == part_key(sorted[j]));
        assert(arrange(members)[i].key == part_key(sorted[i]));
    }
}

/// Sorting keeps the trivia before and after each member at its position in
/// the object: only keys and what follows them up to the trivia move.
pub proof fn law_trivia_keeps_its_position(members: Seq<Part>)
    ensures
        arrange(members).len() == members.len(),
        forall|i: int|
            0 <= i < members.len() ==> (#[trigger] arrange(members)[i]).leading
                == members[i].leading && arrange(members)[i].after == members[i].after,
{
}

/// Sorting moves members and changes none: the key and text at each position
/// are those of the member at that position of a reordering of the members.
pub proof fn law_members_are_reordered(members: Seq<Part>)
    ensures
        sort_by_key(members, |p: Part| part_key(p)).to_multiset() == members.to_multiset(),
        forall|i: int|
            0 <= i < members.len() ==> (#[trigger] arrange(members)[i]).key == sort_by_key(
                members,
                |p: Part| part_key(p),
            )[i].key && arrange(members)[i].body == sort_by_key(
                members,
                |p: Part| part_key(p),
            )[i].body,
{
    lemma_sort_multiset(members, |p: Part| part_key(p));
}

/// Members with equal keys keep their order: the members with any one key
/// come in the same order before and after sorting.
pub proof fn law_equal_keys_keep_their_order(members: Seq<Part>, key: Seq<char>)
    ensures
        with_key(sort_by_key(members, |p: Part| part_key(p)), |p: Part| part_key(p), key)
            == with_key(members, |p: Part| part_key(p), key),
{
    lemma_sort_stable(members, |p: Part| part_key(p), key);
}

/// An object whose members already stand in key order is left as it is.
pub proof fn law_sorted_members_stay(members: Seq<Part>)
    requires
        forall|i: int, j: int|
            0 <= i < j < members.len() ==> !key_lt(
                #[trigger] members[j].key,
                #[trigger] members[i].key,
            ),
    ensures
        arrange(members) == members,
{
    assert(sorted_by_key(members, |p: Part| part_key(p)));
    lemma_sort_of_sorted(members, |p: Part| part_key(p));
    assert(arrange(members) =~= members);
}


/// Sorting a sorted text changes nothing: whatever sorting accepts, it
/// accepts again once sorted, and gives back the same text.
pub proof fn law_sorting_twice_changes_nothing(source: Seq<char>)
    requires
        document(source) is Ok,
    ensures
        document(document(source)->Ok_0) == document(source),
{
    let s = source;
    lemma_trivia_end(s, 0);
    let a = trivia_end(s, 0)->Some_0;
    let (vt, n) = value(s, a)->Ok_0;
    lemma_value_first(s, a);
    lemma_trivia_end(s, a + n);
    let t = document(s)->Ok_0;
    assert(t == s.subrange(0, a) + vt + s.subrange(a + n, s.len() as int));
    let m = a + vt.len();
    // the leading trivia
    assert(t.subrange(0, a) =~= s.subrange(0, a));
    lemma_subrange_agree(s, 0, a, t, 0);
    assert(t[a] == vt[0]);
    assert(stops_trivia(t, a));
    lemma_trivia_local(s, 0, a, t, 0);
    // the root value
    assert(t.subrange(a, m) =~= vt);
    assert(ends_value(t, m)) by {
        if a + n < s.len() {
            lemma_trivia_start(s, a + n);
            assert(t[m] == s[a + n]);
        }
    }
    lemma_reparse_value(s, a, t, a);
    // the trailing trivia
    let d = m - (a + n);
    assert(t.subrange(m, t.len() as int) =~= s.subrange(a + n, s.len() as int));
    lemma_subrange_agree(s, a + n, s.len() as int, t, d);
    lemma_trivia_local(s, a + n, s.len() as int, t, d);
    assert(t.subrange(0, a) + vt + t.subrange(m, t.len() as int) =~= t);
}


/// Sorting keeps every character: the sorted text holds each character as
/// many times as the source does, so it is just as long; only the order of
/// object members changes.
pub proof fn law_sorting_keeps_every_character(source: Seq<char>)
    requires
        document(source) is Ok,
    ensures
        document(source)->Ok_0.to_multiset() == source.to_multiset(),
        document(source)->Ok_0.len() == source.len(),
{
    broadcast use vstd::seq_lib::lemma_multiset_commutative;
    broadcast use vstd::seq_lib::group_to_multiset_ensures;

    let s = source;
    lemma_trivia_end(s, 0);
    let a = trivia_end(s, 0)->Some_0;
    let (vt, n) = value(s, a)->Ok_0;
    lemma_value_chars(s, a);
    lemma_trivia_end(s, a + n);
    let t = document(s)->Ok_0;
    assert(t == s.subrange(0, a) + vt + s.subrange(a + n, s.len() as int));
    assert(s =~= s.subrange(0, a) + s.subrange(a, a + n) + s.subrange(a + n, s.len() as int));
    assert(t.to_multiset() =~= s.to_multiset());
    assert(t.len() == t.to_multiset().len());
    assert(s.len() == s.to_multiset().len());
}


/// Strings, numbers and literals stay exactly as written.
pub proof fn law_scalars_stay_as_written(source: Seq<char>, p: int)
    requires
        0 <= p,
        value(source, p) is Ok,
        source[p] != '{',
        source[p] != '[',
    ensures
        value(source, p)->Ok_0.0 == source.subrange(p, p + value(source, p)->Ok_0.1),
{
    lemma_value_chars(source, p);
    let c = source[p];
    if c == '"' {
        crate::grammar::lemma_string_token(source, p);
    } else if c == '-' || crate::grammar::is_digit(c) {
        crate::reparse::lemma_number_len(source, p);
    } else {
        reveal(crate::grammar::literal_token);
    }
}

/// The whitespace and comments before and after the root value stay where
/// they are, a final newline among them.
pub proof fn law_document_keeps_outer_trivia(source: Seq<char>)
    requires
        document(source) is Ok,
    ensures
        ({
            let a = trivia_end(source, 0)->Some_0;
            let n = value(source, a)->Ok_0.1;
            let t = document(source)->Ok_0;
            &&& a + n <= source.len() == t.len()
            &&& t.subrange(0, a) == source.subrange(0, a)
            &&& t.subrange(a + n, t.len() as int) == source.subrange(a + n, source.len() as int)
        }),
{
    let s = source;
    lemma_trivia_end(s, 0);
    let a = trivia_end(s, 0)->Some_0;
    let (vt, n) = value(s, a)->Ok_0;
    lemma_value_chars(s, a);
    law_sorting_keeps_every_character(s);
    assert(vt.len() == s.subrange(a, a + n).len()) by {
        broadcast use vstd::seq_lib::group_to_multiset_ensures;

        assert(vt.len() == vt.to_multiset().len());
        assert(s.subrange(a, a + n).len() == s.subrange(a, a + n).to_multiset().len());
    }
    let t = document(s)->Ok_0;
    assert(t.subrange(0, a) =~= s.subrange(0, a));
    assert(t.subrange(a + n, t.len() as int) =~= s.subrange(a + n, s.len() as int));
}

} // verus!
