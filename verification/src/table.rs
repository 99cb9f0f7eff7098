//! Tables of named values, in which a later entry replaces an earlier one of the same name.

use vstd::prelude::*;

use crate::text::{lemma_ordered_total, lemma_ordered_transitive, in_order, ordered, same};

verus! {

/// The value that a table has for `key`: that of its last entry of this name.
pub open spec fn entry<V>(table: Seq<(Seq<char>, V)>, key: Seq<char>) -> Option<V>
    decreases table.len(),
{
    if table.len() == 0 {
        None
    } else if table.last().0 == key {
        Some(table.last().1)
    } else {
        entry(table.drop_last(), key)
    }
}

/// The entry at `i` is the one that counts when no later entry has its name.
pub proof fn lemma_entry<V>(table: Seq<(Seq<char>, V)>, key: Seq<char>, i: int)
    requires
        -1 <= i < table.len(),
        i >= 0 ==> table[i].0 == key,
        forall|j: int| i < j < table.len() ==> (#[trigger] table[j]).0 != key,
    ensures
        i >= 0 ==> entry(table, key) == Some(table[i].1),
        i < 0 ==> entry(table, key) is None,
    decreases table.len(),
{
    if table.len() > 0 && i < table.len() - 1 {
        assert(table[table.len() - 1].0 != key);
        lemma_entry(table.drop_last(), key, i);
    }
}

/// The position of the last entry of this name.
pub fn position<V>(table: &Vec<(String, V)>, key: &str) -> (r: Option<usize>)
    ensures
        match r {
            Some(i) => i < table@.len() && table@[i as int].0@ == key@ && forall|j: int|
                i < j < table@.len() ==> (#[trigger] table@[j]).0@ != key@,
            None => forall|j: int| 0 <= j < table@.len() ==> (#[trigger] table@[j]).0@ != key@,
        },
{
    let mut i: usize = table.len();
    while i > 0
        invariant
            i <= table@.len(),
            forall|j: int| i <= j < table@.len() ==> (#[trigger] table@[j]).0@ != key@,
        decreases i,
    {
        i = i - 1;
        if same(table[i].0.as_str(), key) {
            return Some(i);
        }
    }
    None
}

/// The texts of strings.
pub open spec fn texts(s: Seq<String>) -> Seq<Seq<char>> {
    s.map_values(|t: String| t@)
}

/// `s` with `x` put before the first text that comes after it.
pub open spec fn inserted(s: Seq<Seq<char>>, x: Seq<char>) -> Seq<Seq<char>>
    decreases s.len(),
{
    if s.len() == 0 {
        seq![x]
    } else if ordered(s.last(), x) {
        s.push(x)
    } else {
        inserted(s.drop_last(), x).push(s.last())
    }
}

/// The texts of `s` in the order of their characters.
pub open spec fn sorted(s: Seq<Seq<char>>) -> Seq<Seq<char>>
    decreases s.len(),
{
    if s.len() == 0 {
        seq![]
    } else {
        inserted(sorted(s.drop_last()), s.last())
    }
}

/// Whether no text comes after a later one.
pub open spec fn is_sorted(s: Seq<Seq<char>>) -> bool {
    forall|i: int, j: int| 0 <= i <= j < s.len() ==> #[trigger] ordered(s[i], s[j])
}

proof fn lemma_inserted(s: Seq<Seq<char>>, x: Seq<char>)
    requires
        is_sorted(s),
    ensures
        is_sorted(inserted(s, x)),
        inserted(s, x).to_multiset() == s.to_multiset().insert(x),
        inserted(s, x).len() == s.len() + 1,
    decreases s.len(),
{
    broadcast use vstd::seq_lib::group_to_multiset_ensures;

    let t = inserted(s, x);
    if s.len() == 0 {
        assert(s =~= Seq::<Seq<char>>::empty());
        assert(t =~= s.push(x));
        lemma_ordered_total(x, x);
    } else if ordered(s.last(), x) {
        lemma_ordered_total(x, x);
        assert forall|i: int, j: int| 0 <= i <= j < t.len() implies #[trigger] ordered(
            t[i],
            t[j],
        ) by {
            if j == s.len() && i < s.len() {
                assert(ordered(s[i], s[s.len() - 1]));
                lemma_ordered_transitive(s[i], s.last(), x);
            } else if j < s.len() {
                assert(ordered(s[i], s[j]));
            }
        }
    } else {
        let d = s.drop_last();
        assert forall|i: int, j: int| 0 <= i <= j < d.len() implies #[trigger] ordered(
            d[i],
            d[j],
        ) by {
            assert(ordered(s[i], s[j]));
        }
        lemma_inserted(d, x);
        let u = inserted(d, x);
        lemma_ordered_total(s.last(), x);
        lemma_ordered_total(s.last(), s.last());
        assert forall|i: int, j: int| 0 <= i <= j < t.len() implies #[trigger] ordered(
            t[i],
            t[j],
        ) by {
            if j < u.len() {
                assert(ordered(u[i], u[j]));
            } else if i < u.len() {
                assert(u.contains(u[i]));
                assert(u.to_multiset().contains(u[i]));
                if u[i] != x {
                    assert(d.to_multiset().contains(u[i]));
                    assert(d.contains(u[i]));
                    let k = choose|k: int| 0 <= k < d.len() && d[k] == u[i];
                    assert(ordered(s[k], s[s.len() - 1]));
                }
            }
        }
        assert(s =~= d.push(s.last()));
        assert(t.to_multiset() =~= s.to_multiset().insert(x));
    }
}

/// Sorting keeps every text as often as it occurs, and leaves none after a later one.
pub proof fn lemma_sorted(s: Seq<Seq<char>>)
    ensures
        is_sorted(sorted(s)),
        sorted(s).to_multiset() == s.to_multiset(),
        sorted(s).len() == s.len(),
    decreases s.len(),
{
    broadcast use vstd::seq_lib::group_to_multiset_ensures;

    if s.len() > 0 {
        lemma_sorted(s.drop_last());
        lemma_inserted(sorted(s.drop_last()), s.last());
        assert(s =~= s.drop_last().push(s.last()));
    } else {
        assert(sorted(s) =~= s);
    }
}

proof fn lemma_inserted_at(s: Seq<Seq<char>>, x: Seq<char>, j: int)
    requires
        0 <= j <= s.len(),
        j > 0 ==> ordered(s[j - 1], x),
        forall|k: int| j <= k < s.len() ==> !ordered(#[trigger] s[k], x),
    ensures
        inserted(s, x) == s.insert(j, x),
    decreases s.len(),
{
    if j < s.len() {
        assert(!ordered(s[s.len() - 1], x));
        lemma_inserted_at(s.drop_last(), x, j);
        assert(inserted(s, x) =~= s.insert(j, x));
    } else {
        assert(s.insert(j, x) =~= s.push(x));
        if s.len() == 0 {
            assert(s.push(x) =~= seq![x]);
        }
    }
}

fn insert_sorted(s: &mut Vec<String>, x: String)
    ensures
        texts(final(s)@) == inserted(texts(old(s)@), x@),
{
    let ghost before = texts(s@);
    let mut j: usize = s.len();
    while j > 0 && !in_order(s[j - 1].as_str(), x.as_str())
        invariant
            j <= s@.len(),
            before == texts(s@),
            forall|k: int| j <= k < s@.len() ==> !ordered(#[trigger] before[k], x@),
        decreases j,
    {
        j = j - 1;
        assert(before[j as int] == s@[j as int]@);
    }
    proof {
        if j > 0 {
            assert(before[j - 1] == s@[j - 1]@);
        }
        lemma_inserted_at(before, x@, j as int);
    }
    let ghost y = x@;
    s.insert(j, x);
    assert(texts(s@) =~= before.insert(j as int, y));
}

/// Puts strings in the order of their characters.
pub fn sort_names(names: Vec<String>) -> (r: Vec<String>)
    ensures
        texts(r@) == sorted(texts(names@)),
{
    let mut out: Vec<String> = Vec::new();
    let mut i: usize = 0;
    assert(texts(out@) =~= seq![]);
    while i < names.len()
        invariant
            i <= names@.len(),
            texts(out@) == sorted(texts(names@).take(i as int)),
        decreases names.len() - i,
    {
        proof {
            let all = texts(names@);
            assert(all.take(i + 1).drop_last() =~= all.take(i as int));
            assert(all.take(i + 1).last() == names@[i as int]@);
        }
        insert_sorted(&mut out, names[i].clone());
        i = i + 1;
    }
    assert(texts(names@).take(i as int) =~= texts(names@));
    out
}

/// Sequences of the same texts, in whatever order, have the same members.
pub proof fn lemma_same_members(s: Seq<Seq<char>>, t: Seq<Seq<char>>, x: Seq<char>)
    requires
        s.to_multiset() == t.to_multiset(),
    ensures
        s.contains(x) <==> t.contains(x),
{
    broadcast use vstd::seq_lib::group_to_multiset_ensures;

    assert(s.contains(x) <==> s.to_multiset().count(x) > 0);
    assert(t.contains(x) <==> t.to_multiset().count(x) > 0);
}

} // verus!
