//! The order of table names.

use vstd::prelude::*;
use vstd::utf8::encode_utf8;

verus! {

/// `a` comes before `b`, or is equal to it, in the lexicographic order of byte strings.
pub open spec fn lex_le(a: Seq<u8>, b: Seq<u8>) -> bool
    decreases a.len(),
{
    if a.len() == 0 {
        true
    } else if b.len() == 0 {
        false
    } else if a[0] != b[0] {
        a[0] < b[0]
    } else {
        lex_le(a.skip(1), b.skip(1))
    }
}

/// `a` comes before `b`, or is equal to it, in the order of names: that of their UTF-8 encodings.
pub open spec fn name_le(a: Seq<char>, b: Seq<char>) -> bool {
    lex_le(encode_utf8(a), encode_utf8(b))
}

/// Inserts a named item into a list that is ordered by name, behind the items of the same name.
pub open spec fn insert_by_name(s: Seq<(Seq<char>, nat)>, x: (Seq<char>, nat)) -> Seq<
    (Seq<char>, nat),
>
    decreases s.len(),
{
    if s.len() == 0 || name_le(s.last().0, x.0) {
        s.push(x)
    } else {
        insert_by_name(s.drop_last(), x).push(s.last())
    }
}

/// The items in the order of their names. Items of the same name keep their order.
pub open spec fn sorted_by_name(items: Seq<(Seq<char>, nat)>) -> Seq<(Seq<char>, nat)>
    decreases items.len(),
{
    if items.len() == 0 {
        Seq::empty()
    } else {
        insert_by_name(sorted_by_name(items.drop_last()), items.last())
    }
}

/// A list is ordered by name.
pub open spec fn ordered(s: Seq<(Seq<char>, nat)>) -> bool {
    forall|i: int, j: int|
        0 <= i <= j < s.len() ==> name_le((#[trigger] s[i]).0, (#[trigger] s[j]).0)
}

/// The readings of a list of named items.
pub open spec fn named_view(items: Seq<(String, usize)>) -> Seq<(Seq<char>, nat)> {
    items.map_values(|x: (String, usize)| (x.0@, x.1 as nat))
}

pub proof fn lemma_lex_le_reflexive(a: Seq<u8>)
    ensures
        lex_le(a, a),
    decreases a.len(),
{
    if a.len() > 0 {
        lemma_lex_le_reflexive(a.skip(1));
    }
}

pub proof fn lemma_lex_le_total(a: Seq<u8>, b: Seq<u8>)
    ensures
        lex_le(a, b) || lex_le(b, a),
    decreases a.len(),
{
    if a.len() > 0 && b.len() > 0 && a[0] == b[0] {
        lemma_lex_le_total(a.skip(1), b.skip(1));
    }
}

pub proof fn lemma_lex_le_transitive(a: Seq<u8>, b: Seq<u8>, c: Seq<u8>)
    requires
        lex_le(a, b),
        lex_le(b, c),
    ensures
        lex_le(a, c),
    decreases a.len(),
{
    if a.len() > 0 && b.len() > 0 && c.len() > 0 && a[0] == b[0] && b[0] == c[0] {
        lemma_lex_le_transitive(a.skip(1), b.skip(1), c.skip(1));
    }
}

proof fn lemma_insert_keeps_order(s: Seq<(Seq<char>, nat)>, x: (Seq<char>, nat))
    requires
        ordered(s),
    ensures
        ordered(insert_by_name(s, x)),
        insert_by_name(s, x).to_multiset() == s.push(x).to_multiset(),
        insert_by_name(s, x).len() == s.len() + 1,
    decreases s.len(),
{
    broadcast use vstd::seq_lib::group_to_multiset_ensures;

    lemma_lex_le_reflexive(encode_utf8(x.0));
    let r = insert_by_name(s, x);
    if s.len() == 0 || name_le(s.last().0, x.0) {
        assert forall|i: int, j: int| 0 <= i <= j < r.len() implies name_le(
            (#[trigger] r[i]).0,
            (#[trigger] r[j]).0,
        ) by {
            if j == s.len() && i < s.len() {
                assert(name_le(s[i].0, s.last().0));
                lemma_lex_le_transitive(
                    encode_utf8(s[i].0),
                    encode_utf8(s.last().0),
                    encode_utf8(x.0),
                );
            }
        }
    } else {
        let t = s.drop_last();
        let y = s.last();
        lemma_insert_keeps_order(t, x);
        lemma_lex_le_total(encode_utf8(x.0), encode_utf8(y.0));
        let u = insert_by_name(t, x);
        assert(s =~= t.push(y));
        assert(r.to_multiset() =~= s.push(x).to_multiset());
        assert forall|i: int, j: int| 0 <= i <= j < r.len() implies name_le(
            (#[trigger] r[i]).0,
            (#[trigger] r[j]).0,
        ) by {
            lemma_lex_le_reflexive(encode_utf8(y.0));
            if j == u.len() && i < u.len() {
                assert(u.to_multiset().count(u[i]) > 0) by {
                    assert(u.contains(u[i]));
                }
                assert(t.push(x).to_multiset().count(u[i]) > 0);
                assert(t.push(x).contains(u[i]));
                let k = choose|k: int| 0 <= k < t.push(x).len() && t.push(x)[k] == u[i];
                if k < t.len() {
                    assert(s[k] == u[i]);
                    assert(name_le(s[k].0, s.last().0));
                }
            }
        }
    }
}

/// Sorting by name orders a list and keeps its items.
pub proof fn lemma_sorted_by_name(items: Seq<(Seq<char>, nat)>)
    ensures
        ordered(sorted_by_name(items)),
        sorted_by_name(items).to_multiset() == items.to_multiset(),
        sorted_by_name(items).len() == items.len(),
    decreases items.len(),
{
    broadcast use vstd::seq_lib::group_to_multiset_ensures;

    if items.len() > 0 {
        let t = items.drop_last();
        lemma_sorted_by_name(t);
        lemma_insert_keeps_order(sorted_by_name(t), items.last());
        assert(items =~= t.push(items.last()));
        assert(sorted_by_name(items).to_multiset() =~= items.to_multiset());
    } else {
        assert(items =~= Seq::empty());
    }
}

/// Inserting at the place that the order asks for.
proof fn lemma_insert_at(s: Seq<(Seq<char>, nat)>, x: (Seq<char>, nat), i: int)
    requires
        0 <= i <= s.len(),
        i == 0 || name_le(s[i - 1].0, x.0),
        forall|j: int| i <= j < s.len() ==> !name_le((#[trigger] s[j]).0, x.0),
    ensures
        insert_by_name(s, x) == s.insert(i, x),
    decreases s.len(),
{
    if i == s.len() {
        assert(s.insert(i, x) =~= s.push(x));
    } else {
        assert(!name_le(s[s.len() - 1].0, x.0));
        let t = s.drop_last();
        assert forall|j: int| i <= j < t.len() implies !name_le((#[trigger] t[j]).0, x.0) by {
            assert(t[j] == s[j]);
        }
        lemma_insert_at(t, x, i);
        assert(s.insert(i, x) =~= t.insert(i, x).push(s.last()));
    }
}

/// Compares two byte strings.
pub fn bytes_le(a: &[u8], b: &[u8]) -> (r: bool)
    ensures
        r == lex_le(a@, b@),
{
    let mut i: usize = 0;
    assert(a@.skip(0) =~= a@);
    assert(b@.skip(0) =~= b@);
    while i < a.len()
        invariant
            i <= a@.len(),
            i <= b@.len(),
            lex_le(a@, b@) == lex_le(a@.skip(i as int), b@.skip(i as int)),
        decreases a@.len() - i,
    {
        if i == b.len() {
            return false;
        }
        if a[i] != b[i] {
            return a[i] < b[i];
        }
        assert(a@.skip(i as int).skip(1) =~= a@.skip(i + 1));
        assert(b@.skip(i as int).skip(1) =~= b@.skip(i + 1));
        i += 1;
    }
    true
}

/// Orders named items by name. Items of the same name keep their order.
pub fn sort_by_name(items: Vec<(String, usize)>) -> (r: Vec<(String, usize)>)
    ensures
        named_view(r@) == sorted_by_name(named_view(items@)),
{
    let mut r: Vec<(String, usize)> = Vec::new();
    let ghost all = named_view(items@);
    let mut k: usize = 0;
    assert(named_view(r@) =~= sorted_by_name(all.take(0)));
    while k < items.len()
        invariant
            k <= items@.len(),
            all == named_view(items@),
            all.len() == items@.len(),
            named_view(r@) == sorted_by_name(all.take(k as int)),
        decreases items@.len() - k,
    {
        let x = (items[k].0.clone(), items[k].1);
        let ghost s = named_view(r@);
        let ghost v = all[k as int];
        assert(v == (x.0@, x.1 as nat));
        let mut i: usize = r.len();
        let mut placed = false;
        while i > 0 && !placed
            invariant
                i <= r@.len(),
                s == named_view(r@),
                s.len() == r@.len(),
                v == (x.0@, x.1 as nat),
                placed ==> i > 0 && name_le(s[i - 1].0, v.0),
                forall|j: int| i <= j < s.len() ==> !name_le((#[trigger] s[j]).0, v.0),
            decreases (if placed { 0int } else { i + 1 }),
        {
            assert(s[i - 1].0 == r@[i - 1].0@);
            if bytes_le(r[i - 1].0.as_str().as_bytes(), x.0.as_str().as_bytes()) {
                placed = true;
            } else {
                i -= 1;
            }
        }
        proof {
            lemma_insert_at(s, v, i as int);
            assert(all.take(k + 1).drop_last() =~= all.take(k as int));
            assert(named_view(r@.insert(i as int, x)) =~= s.insert(i as int, v));
        }
        r.insert(i, x);
        k += 1;
    }
    assert(all.take(items@.len() as int) =~= all);
    r
}

} // verus!
