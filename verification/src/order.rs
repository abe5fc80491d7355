//! Lexicographic order of texts, and sorting names and entries by it.

use vstd::prelude::*;
use crate::text::chars_of;
use crate::vars::{lists_map, NameSet, Variables};

verus! {

/// `a` comes before `b`: at their first difference `a` has the smaller
/// character, or `a` is a proper prefix of `b` (the order of `String`).
pub open spec fn text_lt(a: Seq<char>, b: Seq<char>) -> bool
    decreases a.len(),
{
    if b.len() == 0 {
        false
    } else if a.len() == 0 {
        true
    } else if a[0] != b[0] {
        a[0] < b[0]
    } else {
        text_lt(a.drop_first(), b.drop_first())
    }
}

/// The order is irreflexive.
pub proof fn lemma_text_lt_irreflexive(a: Seq<char>)
    ensures
        !text_lt(a, a),
    decreases a.len(),
{
    if a.len() > 0 {
        lemma_text_lt_irreflexive(a.drop_first());
    }
}

/// The order is transitive.
pub proof fn lemma_text_lt_transitive(a: Seq<char>, b: Seq<char>, c: Seq<char>)
    requires
        text_lt(a, b),
        text_lt(b, c),
    ensures
        text_lt(a, c),
    decreases a.len(),
{
    if a.len() > 0 && b.len() > 0 && c.len() > 0 && a[0] == b[0] && b[0] == c[0] {
        lemma_text_lt_transitive(a.drop_first(), b.drop_first(), c.drop_first());
    }
}

/// Of two different texts, one comes first.
pub proof fn lemma_text_lt_total(a: Seq<char>, b: Seq<char>)
    requires
        a != b,
    ensures
        text_lt(a, b) || text_lt(b, a),
    decreases a.len(),
{
    if a.len() > 0 && b.len() > 0 && a[0] == b[0] {
        if a.drop_first() == b.drop_first() {
            assert(a =~= seq![a[0]] + a.drop_first());
            assert(b =~= seq![b[0]] + b.drop_first());
        }
        lemma_text_lt_total(a.drop_first(), b.drop_first());
    } else if a.len() == 0 && b.len() == 0 {
        assert(a =~= b);
    }
}

/// Whether `a` comes before `b`.
pub fn text_less(a: &str, b: &str) -> (r: bool)
    ensures
        r == text_lt(a@, b@),
{
    let x = chars_of(a);
    let y = chars_of(b);
    let mut i: usize = 0;
    assert(x@.skip(0) =~= x@);
    assert(y@.skip(0) =~= y@);
    while i < x.len() && i < y.len() && x[i] == y[i]
        invariant
            x@ == a@,
            y@ == b@,
            i <= x.len(),
            i <= y.len(),
            forall|j: int| 0 <= j < i ==> x@[j] == y@[j],
            text_lt(a@, b@) == text_lt(x@.skip(i as int), y@.skip(i as int)),
        decreases x.len() - i,
    {
        proof {
            assert(x@.skip(i as int).drop_first() =~= x@.skip(i + 1));
            assert(y@.skip(i as int).drop_first() =~= y@.skip(i + 1));
        }
        i += 1;
    }
    assert(x@.skip(i as int).len() == x.len() - i);
    if i == y.len() {
        false
    } else if i == x.len() {
        true
    } else {
        assert(x@.skip(i as int)[0] == x[i as int]);
        assert(y@.skip(i as int)[0] == y[i as int]);
        x[i] < y[i]
    }
}

/// The texts of `s` ascend strictly.
pub open spec fn strictly_sorted(s: Seq<Seq<char>>) -> bool {
    forall|i: int, j: int| 0 <= i < j < s.len() ==> text_lt(s[i], s[j])
}

/// The keys of `pairs`.
pub open spec fn keys_of(pairs: Seq<(String, String)>) -> Seq<Seq<char>> {
    pairs.map_values(|e: (String, String)| e.0@)
}

/// The entries of `map`, in ascending order of their keys.
pub fn sorted_entries(map: &Variables) -> (r: Vec<(String, String)>)
    ensures
        lists_map(r@, map@),
        strictly_sorted(keys_of(r@)),
{
    let src = map.entries();
    let mut keys = NameSet::new();
    let mut i: usize = 0;
    while i < src.len()
        invariant
            i <= src@.len(),
            lists_map(src@, map@),
            forall|k: Seq<char>| keys@.contains(k) <==> exists|b: int| 0 <= b < i && #[trigger] src@[b].0@ == k,
        decreases src@.len() - i,
    {
        keys.insert(src[i].0.clone());
        proof {
            assert forall|k: Seq<char>| keys@.contains(k) <==> exists|b: int| 0 <= b < i + 1 && #[trigger] src@[b].0@ == k by {
                if k == src@[i as int].0@ {
                    assert(src@[i as int].0@ == k);
                }
            }
        }
        i += 1;
    }
    let names = sorted_names(&keys);
    let mut out: Vec<(String, String)> = Vec::new();
    let mut j: usize = 0;
    while j < names.len()
        invariant
            j <= names@.len(),
            lists_map(src@, map@),
            strictly_sorted(NameSet::names_of(names@)),
            NameSet::names_of(names@).to_set() == keys@,
            forall|k: Seq<char>| keys@.contains(k) <==> exists|b: int| 0 <= b < src@.len() && #[trigger] src@[b].0@ == k,
            out@.len() == j,
            forall|a: int| 0 <= a < j ==> #[trigger] out@[a].0@ == names@[a]@ && map@.contains_key(names@[a]@)
                && out@[a].1@ == map@[names@[a]@],
        decreases names@.len() - j,
    {
        let name = names[j].as_str();
        proof {
            assert(NameSet::names_of(names@).to_set().contains(NameSet::names_of(names@)[j as int]));
            let b = choose|b: int| 0 <= b < src@.len() && #[trigger] src@[b].0@ == name@;
        }
        match map.get(name) {
            Some(value) => {
                out.push((names[j].clone(), value.clone()));
            },
            None => {
                assert(false);
            },
        }
        j += 1;
    }
    proof {
        let ks = NameSet::names_of(names@);
        assert(keys_of(out@) =~= ks);
        assert forall|a: int, c: int| 0 <= a < c < out@.len() implies out@[a].0@ != out@[c].0@ by {
            assert(text_lt(ks[a], ks[c]));
            lemma_text_lt_irreflexive(ks[a]);
        }
        assert forall|k: Seq<char>| #[trigger] map@.contains_key(k) implies exists|a: int| 0 <= a < out@.len() && out@[a].0@ == k by {
            let b = choose|b: int| 0 <= b < src@.len() && src@[b].0@ == k;
            assert(keys@.contains(k));
            let a = choose|a: int| 0 <= a < ks.len() && ks[a] == k;
            assert(out@[a].0@ == k);
        }
    }
    out
}

/// The names of `set`, in ascending order.
pub fn sorted_names(set: &NameSet) -> (r: Vec<String>)
    ensures
        strictly_sorted(NameSet::names_of(r@)),
        NameSet::names_of(r@).to_set() == set@,
{
    let src = set.items();
    let ghost names = NameSet::names_of(src@);
    let mut out: Vec<String> = Vec::new();
    let mut i: usize = 0;
    while i < src.len()
        invariant
            i <= src@.len(),
            names == NameSet::names_of(src@),
            names.no_duplicates(),
            strictly_sorted(NameSet::names_of(out@)),
            NameSet::names_of(out@).to_set() == names.take(i as int).to_set(),
        decreases src@.len() - i,
    {
        let name = src[i].as_str();
        assert(name@ == names[i as int]);
        let mut p: usize = 0;
        while p < out.len() && text_less(out[p].as_str(), name)
            invariant
                p <= out@.len(),
                name@ == names[i as int],
                forall|a: int| 0 <= a < p ==> text_lt(#[trigger] out@[a]@, name@),
            decreases out@.len() - p,
        {
            p += 1;
        }
        let ghost o = NameSet::names_of(out@);
        proof {
            if p < out@.len() {
                assert(o.to_set().contains(o[p as int]));
                assert(names.take(i as int).contains(o[p as int]));
                let b = choose|b: int| 0 <= b < i && names.take(i as int)[b] == o[p as int];
                assert(names[b] != names[i as int]);
                lemma_text_lt_total(out@[p as int]@, name@);
                assert forall|a: int| p <= a < out@.len() implies text_lt(name@, #[trigger] out@[a]@) by {
                    if a > p {
                        assert(text_lt(o[p as int], o[a]));
                        lemma_text_lt_transitive(name@, o[p as int], o[a]);
                    }
                }
            }
        }
        out.insert(p, src[i].clone());
        proof {
            let n = NameSet::names_of(out@);
            assert(n =~= o.insert(p as int, name@));
            assert forall|a: int, c: int| 0 <= a < c < n.len() implies text_lt(#[trigger] n[a], #[trigger] n[c]) by {
                if a < p && c == p {
                    assert(text_lt(out@[a]@, name@));
                } else if a < p && c > p {
                    assert(text_lt(o[a], name@));
                    assert(text_lt(name@, o[c - 1]));
                    lemma_text_lt_transitive(o[a], name@, o[c - 1]);
                } else if a == p {
                    assert(text_lt(name@, o[c - 1]));
                } else if a < p {
                    assert(text_lt(o[a], o[c]));
                } else {
                    assert(text_lt(o[a - 1], o[c - 1]));
                }
            }
            broadcast use vstd::seq_lib::group_seq_properties;
            assert(names.take(i + 1) =~= names.take(i as int).push(name@));
            assert(n.to_set() =~= o.to_set().insert(name@));
        }
        i += 1;
    }
    assert(names.take(src@.len() as int) =~= names);
    out
}

} // verus!
