//! Ordering keys and sorting the members of an object.

use vstd::prelude::*;
use crate::grammar::{Part, arrange, insert_by_key, key_lt, part_key, sort_by_key};
use crate::tree::{ObjectEntry, entry_part, entry_parts};

verus! {

/// Whether key `a` sorts strictly before key `b`.
pub fn key_less(a: &Vec<char>, b: &Vec<char>) -> (less: bool)
    ensures
        less == key_lt(a@, b@),
{
    let mut i: usize = 0;
    assert(a@.skip(0) =~= a@);
    assert(b@.skip(0) =~= b@);
    while i < a.len() && i < b.len()
        invariant
            i <= a@.len(),
            i <= b@.len(),
            key_lt(a@, b@) == key_lt(a@.skip(i as int), b@.skip(i as int)),
        decreases a@.len() - i,
    {
        if a[i] != b[i] {
            let less = (a[i] as u32) < (b[i] as u32);
            assert(a@.skip(i as int)[0] == a@[i as int]);
            assert(b@.skip(i as int)[0] == b@[i as int]);
            return less;
        }
        assert(a@.skip(i as int).drop_first() =~= a@.skip(i + 1));
        assert(b@.skip(i as int).drop_first() =~= b@.skip(i + 1));
        i += 1;
    }
    i < b.len()
}

/// The key by which members are sorted: the string that their key denotes.
pub open spec fn entry_key(e: ObjectEntry) -> Seq<char> {
    e.key.decoded@
}

/// Where `x` goes in `sorted`: after position `j`, when every element from
/// `j` on has a key greater than `x`'s and the one before `j` has not.
pub proof fn lemma_insert_at<T>(sorted: Seq<T>, x: T, key: spec_fn(T) -> Seq<char>, j: int)
    requires
        0 <= j <= sorted.len(),
        forall|k: int| j <= k < sorted.len() ==> key_lt(key(x), #[trigger] key(sorted[k])),
        j > 0 ==> !key_lt(key(x), key(sorted[j - 1])),
    ensures
        insert_by_key(sorted, x, key) == sorted.take(j).push(x) + sorted.skip(j),
    decreases sorted.len(),
{
    if sorted.len() == 0 {
        assert(sorted.take(j).push(x) + sorted.skip(j) =~= sorted.push(x));
    } else if !key_lt(key(x), key(sorted.last())) {
        assert(j == sorted.len());
        assert(sorted.take(j).push(x) + sorted.skip(j) =~= sorted.push(x));
    } else {
        assert(j < sorted.len());
        let init = sorted.drop_last();
        assert forall|k: int| j <= k < init.len() implies key_lt(key(x), #[trigger] key(init[k])) by {
            assert(init[k] == sorted[k]);
        }
        if j > 0 {
            assert(init[j - 1] == sorted[j - 1]);
        }
        lemma_insert_at(init, x, key, j);
        assert(init.take(j).push(x) + init.skip(j) + seq![sorted.last()] =~= sorted.take(j).push(
            x,
        ) + sorted.skip(j));
    }
}

/// Sorts `entries` stably by the strings that their keys denote.
pub fn sort_by_decoded_key(entries: &mut Vec<ObjectEntry>)
    ensures
        final(entries)@ == sort_by_key(old(entries)@, |e: ObjectEntry| entry_key(e)),
{
    let ghost key = |e: ObjectEntry| entry_key(e);
    let ghost original = entries@;
    let len = entries.len();
    let mut i: usize = 0;
    assert(original.take(0) =~= Seq::<ObjectEntry>::empty());
    assert(entries@.take(0) =~= Seq::<ObjectEntry>::empty());
    while i < len
        invariant
            len == original.len(),
            entries@.len() == len,
            i <= len,
            key == (|e: ObjectEntry| entry_key(e)),
            entries@.take(i as int) == sort_by_key(original.take(i as int), key),
            entries@.skip(i as int) == original.skip(i as int),
        decreases len - i,
    {
        let ghost sorted = entries@.take(i as int);
        let ghost before = entries@;
        let x = entries.remove(i);
        assert(entries@ == before.remove(i as int));
        assert(x == original[i as int]) by {
            assert(original.skip(i as int)[0] == original[i as int]);
        }
        assert(entries@.take(i as int) == sorted);
        let mut j: usize = i;
        while j > 0 && key_less(&x.key.decoded, &entries[j - 1].key.decoded)
            invariant
                j <= i < len,
                key == (|e: ObjectEntry| entry_key(e)),
                entries@.len() == len - 1,
                entries@.take(i as int) == sorted,
                forall|k: int| j <= k < i ==> key_lt(key(x), #[trigger] key(sorted[k])),
            decreases j,
        {
            assert(sorted[j - 1] == entries@[j - 1]);
            assert(key(x) == x.key.decoded@);
            assert(key(sorted[j - 1]) == entries@[j - 1].key.decoded@);
            j -= 1;
        }
        proof {
            if j > 0 {
                assert(sorted[j - 1] == entries@[j - 1]);
                assert(key(x) == x.key.decoded@);
                assert(key(sorted[j - 1]) == entries@[j - 1].key.decoded@);
            }
            lemma_insert_at(sorted, x, key, j as int);
        }
        let ghost rest = entries@.skip(i as int);
        entries.insert(j, x);
        proof {
            let t = original.take(i + 1);
            assert(t.drop_last() =~= original.take(i as int));
            assert(t.last() == x);
            assert(entries@.take(i + 1) =~= sorted.take(j as int).push(x) + sorted.skip(j as int));
            assert(rest =~= original.skip(i + 1)) by {
                assert(before.skip(i as int) == original.skip(i as int));
                assert forall|k: int| 0 <= k < rest.len() implies rest[k] == original.skip(i + 1)[k] by {
                    assert(rest[k] == before[i + 1 + k]);
                    assert(before[i + 1 + k] == before.skip(i as int)[k + 1]);
                }
            }
            assert(entries@.skip(i + 1) =~= rest);
        }
        i += 1;
    }
    assert(entries@.take(len as int) =~= entries@);
    assert(original.take(len as int) =~= original);
}

pub proof fn lemma_insert_len<T>(sorted: Seq<T>, x: T, key: spec_fn(T) -> Seq<char>)
    ensures
        insert_by_key(sorted, x, key).len() == sorted.len() + 1,
    decreases sorted.len(),
{
    if sorted.len() > 0 && key_lt(key(x), key(sorted.last())) {
        lemma_insert_len(sorted.drop_last(), x, key);
    }
}

pub proof fn lemma_sort_len<T>(s: Seq<T>, key: spec_fn(T) -> Seq<char>)
    ensures
        sort_by_key(s, key).len() == s.len(),
    decreases s.len(),
{
    if s.len() > 0 {
        lemma_sort_len(s.drop_last(), key);
        lemma_insert_len(sort_by_key(s.drop_last(), key), s.last(), key);
    }
}

/// A copy of a piece of text.
pub fn copy_text(text: &Vec<char>) -> (copy: Vec<char>)
    ensures
        copy@ == text@,
{
    let mut copy: Vec<char> = Vec::new();
    let mut i: usize = 0;
    while i < text.len()
        invariant
            i <= text@.len(),
            copy@ == text@.take(i as int),
        decreases text@.len() - i,
    {
        copy.push(text[i]);
        i += 1;
        assert(copy@ =~= text@.take(i as int));
    }
    assert(text@.take(text@.len() as int) =~= text@);
    copy
}

/// Sorting commutes with mapping elements to parts whose keys agree.
pub proof fn lemma_sort_map<T>(
    s: Seq<T>,
    key: spec_fn(T) -> Seq<char>,
    f: spec_fn(T) -> Part,
)
    requires
        forall|x: T| #[trigger] part_key(f(x)) == key(x),
    ensures
        sort_by_key(s, key).map_values(f) == sort_by_key(
            s.map_values(f),
            |p: Part| part_key(p),
        ),
    decreases s.len(),
{
    if s.len() > 0 {
        lemma_sort_map(s.drop_last(), key, f);
        assert(s.map_values(f).drop_last() =~= s.drop_last().map_values(f));
        lemma_insert_map(sort_by_key(s.drop_last(), key), s.last(), key, f);
    }
}

proof fn lemma_insert_map<T>(
    sorted: Seq<T>,
    x: T,
    key: spec_fn(T) -> Seq<char>,
    f: spec_fn(T) -> Part,
)
    requires
        forall|x: T| #[trigger] part_key(f(x)) == key(x),
    ensures
        insert_by_key(sorted, x, key).map_values(f) == insert_by_key(
            sorted.map_values(f),
            f(x),
            |p: Part| part_key(p),
        ),
    decreases sorted.len(),
{
    let pk = |p: Part| part_key(p);
    if sorted.len() == 0 {
        assert(sorted.push(x).map_values(f) =~= sorted.map_values(f).push(f(x)));
    } else {
        assert(pk(f(x)) == key(x));
        assert(pk(f(sorted.last())) == key(sorted.last()));
        assert(sorted.map_values(f).last() == f(sorted.last()));
        if !key_lt(key(x), key(sorted.last())) {
            assert(sorted.push(x).map_values(f) =~= sorted.map_values(f).push(f(x)));
        } else {
            lemma_insert_map(sorted.drop_last(), x, key, f);
            assert(sorted.map_values(f).drop_last() =~= sorted.drop_last().map_values(f));
            let ins = insert_by_key(sorted.drop_last(), x, key);
            assert(ins.push(sorted.last()).map_values(f) =~= ins.map_values(f).push(
                f(sorted.last()),
            ));
        }
    }
}

/// Sorts the members of an object by the strings their keys denote, while the
/// trivia before and after each member stays at its position.
pub fn sort_entries_preserving_trivia_slots(entries: &mut Vec<ObjectEntry>)
    ensures
        entry_parts(final(entries)@) == arrange(entry_parts(old(entries)@)),
        final(entries)@.len() == old(entries)@.len(),
        forall|k: int|
            0 <= k < old(entries)@.len() ==> {
                let moved = sort_by_key(old(entries)@, |e: ObjectEntry| entry_key(e))[k];
                &&& (#[trigger] final(entries)@[k]).leading@ == old(entries)@[k].leading@
                &&& final(entries)@[k].after@ == old(entries)@[k].after@
                &&& final(entries)@[k].key == moved.key
                &&& final(entries)@[k].between == moved.between
                &&& final(entries)@[k].value == moved.value
            },
{
    // Sorting moves key/value pairs, but leading and trailing trivia belong to
    // the original object positions so formatting stays stable.
    let ghost original = entries@;
    let mut slots: Vec<(Vec<char>, Vec<char>)> = Vec::new();
    let mut i: usize = 0;
    while i < entries.len()
        invariant
            entries@ == original,
            i <= entries@.len(),
            slots@.len() == i,
            forall|k: int|
                0 <= k < i ==> (#[trigger] slots@[k]).0@ == original[k].leading@ && slots@[k].1@
                    == original[k].after@,
        decreases entries@.len() - i,
    {
        let leading = copy_text(&entries[i].leading);
        let after = copy_text(&entries[i].after);
        slots.push((leading, after));
        i += 1;
    }

    sort_by_decoded_key(entries);
    let ghost sorted = entries@;
    proof {
        lemma_sort_len(original, |e: ObjectEntry| entry_key(e));
        lemma_sort_len(entry_parts(original), |p: Part| part_key(p));
        lemma_sort_map(original, |e: ObjectEntry| entry_key(e), |e: ObjectEntry| entry_part(e));
        assert(sorted.map_values(|e: ObjectEntry| entry_part(e)) == sort_by_key(
            entry_parts(original),
            |p: Part| part_key(p),
        ));
    }

    let len = entries.len();
    let mut slots = slots;
    let mut i: usize = len;
    while i > 0
        invariant
            i <= len,
            len == original.len(),
            entries@.len() == len,
            slots@.len() == i,
            forall|k: int|
                0 <= k < i ==> (#[trigger] slots@[k]).0@ == original[k].leading@ && slots@[k].1@
                    == original[k].after@,
            forall|k: int| 0 <= k < i ==> #[trigger] entries@[k] == sorted[k],
            forall|k: int|
                i <= k < len ==> {
                    &&& (#[trigger] entries@[k]).leading@ == original[k].leading@
                    &&& entries@[k].after@ == original[k].after@
                    &&& entries@[k].key == sorted[k].key
                    &&& entries@[k].between == sorted[k].between
                    &&& entries@[k].value == sorted[k].value
                },
        decreases i,
    {
        i -= 1;
        let (leading, after) = slots.pop().unwrap();
        let mut entry = entries.remove(i);
        entry.leading = leading;
        entry.after = after;
        entries.insert(i, entry);
    }
    proof {
        let sorted_parts = sort_by_key(entry_parts(original), |p: Part| part_key(p));
        assert forall|k: int| 0 <= k < len implies #[trigger] entry_parts(entries@)[k] == arrange(
            entry_parts(original),
        )[k] by {
            assert(sorted_parts[k] == entry_part(sorted[k]));
            assert(entry_parts(original)[k] == entry_part(original[k]));
        }
        assert(entry_parts(entries@) =~= arrange(entry_parts(original)));
    }
}


// ------------------------------------------------------- order of keys

pub proof fn lemma_key_lt_irreflexive(a: Seq<char>)
    ensures
        !key_lt(a, a),
    decreases a.len(),
{
    if a.len() > 0 {
        lemma_key_lt_irreflexive(a.drop_first());
    }
}

pub proof fn lemma_key_lt_transitive(a: Seq<char>, b: Seq<char>, c: Seq<char>)
    requires
        key_lt(a, b),
        key_lt(b, c),
    ensures
        key_lt(a, c),
    decreases a.len(),
{
    if a.len() > 0 && b.len() > 0 && c.len() > 0 && a[0] == b[0] && b[0] == c[0] {
        lemma_key_lt_transitive(a.drop_first(), b.drop_first(), c.drop_first());
    }
}

pub proof fn lemma_key_lt_total(a: Seq<char>, b: Seq<char>)
    ensures
        a == b || key_lt(a, b) || key_lt(b, a),
    decreases a.len(),
{
    if a.len() == 0 && b.len() == 0 {
        assert(a =~= b);
    } else if a.len() > 0 && b.len() > 0 && a[0] == b[0] {
        lemma_key_lt_total(a.drop_first(), b.drop_first());
        if a.drop_first() == b.drop_first() {
            assert(a =~= seq![a[0]] + a.drop_first());
            assert(b =~= seq![b[0]] + b.drop_first());
        }
    } else if a.len() > 0 && b.len() > 0 {
        assert((a[0] as u32) != (b[0] as u32)) by {
            vstd::utf8::char_u32_cast(a[0], a[0] as u32);
            vstd::utf8::char_u32_cast(b[0], b[0] as u32);
        }
    }
}

/// No element of `s` has a key greater than the key of an element after it.
pub open spec fn sorted_by_key<T>(s: Seq<T>, key: spec_fn(T) -> Seq<char>) -> bool {
    forall|i: int, j: int| 0 <= i < j < s.len() ==> !key_lt(key(s[j]), key(s[i]))
}

/// Where `insert_by_key` puts `x`.
pub proof fn lemma_insert_shape<T>(sorted: Seq<T>, x: T, key: spec_fn(T) -> Seq<char>) -> (j: int)
    ensures
        0 <= j <= sorted.len(),
        insert_by_key(sorted, x, key) == sorted.take(j).push(x) + sorted.skip(j),
        forall|k: int| j <= k < sorted.len() ==> key_lt(key(x), #[trigger] key(sorted[k])),
        j > 0 ==> !key_lt(key(x), key(sorted[j - 1])),
    decreases sorted.len(),
{
    if sorted.len() == 0 || !key_lt(key(x), key(sorted.last())) {
        let j = sorted.len() as int;
        assert(sorted.take(j).push(x) + sorted.skip(j) =~= sorted.push(x));
        j
    } else {
        let init = sorted.drop_last();
        let j = lemma_insert_shape(init, x, key);
        assert forall|k: int| j <= k < sorted.len() implies key_lt(
            key(x),
            #[trigger] key(sorted[k]),
        ) by {
            if k < init.len() {
                assert(init[k] == sorted[k]);
            }
        }
        if j > 0 {
            assert(init[j - 1] == sorted[j - 1]);
        }
        assert(init.take(j).push(x) + init.skip(j) + seq![sorted.last()] =~= sorted.take(j).push(
            x,
        ) + sorted.skip(j));
        j
    }
}

pub proof fn lemma_insert_sorted<T>(sorted: Seq<T>, x: T, key: spec_fn(T) -> Seq<char>)
    requires
        sorted_by_key(sorted, key),
    ensures
        sorted_by_key(insert_by_key(sorted, x, key), key),
{
    let j = lemma_insert_shape(sorted, x, key);
    let r = insert_by_key(sorted, x, key);
    assert forall|a: int, b: int| 0 <= a < b < r.len() implies !key_lt(key(r[b]), key(r[a])) by {
        let ka = if a < j { a } else if a == j { -1 } else { a - 1 };
        let kb = if b < j { b } else if b == j { -1 } else { b - 1 };
        if a != j && b != j {
            assert(r[a] == sorted[ka]);
            assert(r[b] == sorted[kb]);
        } else if a == j {
            assert(r[a] == x);
            assert(r[b] == sorted[kb]);
            if key_lt(key(r[b]), key(x)) {
                lemma_key_lt_transitive(key(x), key(sorted[kb]), key(x));
                lemma_key_lt_irreflexive(key(x));
            }
        } else {
            assert(r[b] == x);
            assert(r[a] == sorted[ka]);
            assert(!key_lt(key(x), key(sorted[j - 1])));
            if key_lt(key(x), key(sorted[ka])) {
                if ka < j - 1 {
                    assert(!key_lt(key(sorted[j - 1]), key(sorted[ka])));
                    lemma_key_lt_total(key(sorted[j - 1]), key(sorted[ka]));
                    if key(sorted[j - 1]) != key(sorted[ka]) {
                        lemma_key_lt_transitive(key(x), key(sorted[ka]), key(sorted[j - 1]));
                    }
                }
            }
        }
    }
}

pub proof fn lemma_sort_sorted<T>(s: Seq<T>, key: spec_fn(T) -> Seq<char>)
    ensures
        sorted_by_key(sort_by_key(s, key), key),
    decreases s.len(),
{
    if s.len() > 0 {
        lemma_sort_sorted(s.drop_last(), key);
        lemma_insert_sorted(sort_by_key(s.drop_last(), key), s.last(), key);
    }
}

pub proof fn lemma_insert_multiset<T>(sorted: Seq<T>, x: T, key: spec_fn(T) -> Seq<char>)
    ensures
        insert_by_key(sorted, x, key).to_multiset() == sorted.to_multiset().insert(x),
    decreases sorted.len(),
{
    broadcast use vstd::seq_lib::group_to_multiset_ensures;

    if sorted.len() == 0 || !key_lt(key(x), key(sorted.last())) {
    } else {
        let init = sorted.drop_last();
        lemma_insert_multiset(init, x, key);
        assert(sorted =~= init.push(sorted.last()));
        assert(insert_by_key(sorted, x, key).to_multiset() =~= sorted.to_multiset().insert(x));
    }
}

pub proof fn lemma_sort_multiset<T>(s: Seq<T>, key: spec_fn(T) -> Seq<char>)
    ensures
        sort_by_key(s, key).to_multiset() == s.to_multiset(),
    decreases s.len(),
{
    broadcast use vstd::seq_lib::group_to_multiset_ensures;

    if s.len() > 0 {
        lemma_sort_multiset(s.drop_last(), key);
        lemma_insert_multiset(sort_by_key(s.drop_last(), key), s.last(), key);
        assert(s =~= s.drop_last().push(s.last()));
    }
}

/// Every element of the sorted sequence is an element of the original.
pub proof fn lemma_sort_source<T>(s: Seq<T>, key: spec_fn(T) -> Seq<char>, i: int) -> (j: int)
    requires
        0 <= i < s.len(),
    ensures
        0 <= j < s.len(),
        sort_by_key(s, key)[i] == s[j],
{
    broadcast use vstd::seq_lib::group_to_multiset_ensures;

    lemma_sort_len(s, key);
    lemma_sort_multiset(s, key);
    let sorted = sort_by_key(s, key);
    assert(sorted.contains(sorted[i]));
    assert(sorted.to_multiset().count(sorted[i]) > 0);
    assert(s.contains(sorted[i]));
    choose|j: int| 0 <= j < s.len() && s[j] == sorted[i]
}

pub proof fn lemma_sort_of_sorted<T>(s: Seq<T>, key: spec_fn(T) -> Seq<char>)
    requires
        sorted_by_key(s, key),
    ensures
        sort_by_key(s, key) == s,
    decreases s.len(),
{
    if s.len() > 0 {
        let init = s.drop_last();
        assert(sorted_by_key(init, key)) by {
            assert forall|i: int, j: int| 0 <= i < j < init.len() implies !key_lt(
                key(init[j]),
                key(init[i]),
            ) by {
                assert(init[i] == s[i] && init[j] == s[j]);
            }
        }
        lemma_sort_of_sorted(init, key);
        if init.len() > 0 {
            assert(init.last() == s[s.len() - 2]);
        }
        assert(init.push(s.last()) =~= s);
    }
}


/// The elements of `s` whose key is `k`, in order.
pub open spec fn with_key<T>(s: Seq<T>, key: spec_fn(T) -> Seq<char>, k: Seq<char>) -> Seq<T> {
    s.filter(key_is(key, k))
}

/// Whether an element has key `k`.
pub open spec fn key_is<T>(key: spec_fn(T) -> Seq<char>, k: Seq<char>) -> spec_fn(T) -> bool {
    |y: T| key(y) == k
}

proof fn lemma_filter_none<T>(s: Seq<T>, pred: spec_fn(T) -> bool)
    requires
        forall|i: int| 0 <= i < s.len() ==> !pred(#[trigger] s[i]),
    ensures
        s.filter(pred) == Seq::<T>::empty(),
    decreases s.len(),
{
    reveal(Seq::filter);
    if s.len() > 0 {
        let init = s.drop_last();
        assert forall|i: int| 0 <= i < init.len() implies !pred(#[trigger] init[i]) by {
            assert(init[i] == s[i]);
        }
        lemma_filter_none(init, pred);
    }
}

proof fn lemma_filter_push<T>(s: Seq<T>, x: T, pred: spec_fn(T) -> bool)
    ensures
        s.push(x).filter(pred) == if pred(x) {
            s.filter(pred).push(x)
        } else {
            s.filter(pred)
        },
{
    reveal(Seq::filter);
    assert(s.push(x).drop_last() =~= s);
}

pub proof fn lemma_insert_stable<T>(
    sorted: Seq<T>,
    x: T,
    key: spec_fn(T) -> Seq<char>,
    k: Seq<char>,
)
    ensures
        with_key(insert_by_key(sorted, x, key), key, k) == with_key(sorted.push(x), key, k),
{
    broadcast use Seq::filter_distributes_over_add;

    let pred = key_is(key, k);
    let j = lemma_insert_shape(sorted, x, key);
    let front = sorted.take(j);
    let back = sorted.skip(j);
    lemma_filter_push(front, x, pred);
    lemma_filter_push(sorted, x, pred);
    assert(sorted =~= front + back);
    if pred(x) {
        assert forall|i: int| 0 <= i < back.len() implies !pred(#[trigger] back[i]) by {
            assert(back[i] == sorted[j + i]);
            assert(key_lt(key(x), key(sorted[j + i])));
            if key(back[i]) == k {
                lemma_key_lt_irreflexive(k);
            }
        }
        lemma_filter_none(back, pred);
        assert((front + back).filter(pred) == front.filter(pred) + back.filter(pred));
        assert(front.push(x) + back == insert_by_key(sorted, x, key));
        assert((front.push(x) + back).filter(pred) == front.push(x).filter(pred) + back.filter(
            pred,
        ));
        assert(front.filter(pred).push(x) + Seq::<T>::empty() =~= (front.filter(pred) + Seq::<
            T,
        >::empty()).push(x));
    } else {
        assert((front + back).filter(pred) == front.filter(pred) + back.filter(pred));
        assert((front.push(x) + back).filter(pred) == front.push(x).filter(pred) + back.filter(
            pred,
        ));
    }
}

pub proof fn lemma_sort_stable<T>(s: Seq<T>, key: spec_fn(T) -> Seq<char>, k: Seq<char>)
    ensures
        with_key(sort_by_key(s, key), key, k) == with_key(s, key, k),
    decreases s.len(),
{
    if s.len() > 0 {
        let pred = key_is(key, k);
        let init = s.drop_last();
        lemma_sort_stable(init, key, k);
        lemma_insert_stable(sort_by_key(init, key), s.last(), key, k);
        lemma_filter_push(sort_by_key(init, key), s.last(), pred);
        lemma_filter_push(init, s.last(), pred);
        assert(init.push(s.last()) =~= s);
    }
}

} // verus!
