//! Discovery of the placeholder names that a text uses.

use vstd::prelude::*;
use crate::text::{chars_of, find_char, string_of_range};
use crate::valid::valid_name;
use crate::replace::{closes_at, has_close, close_index, find_close, render, substitution, lemma_render_plain_prefix};
use crate::vars::NameSet;

verus! {

/// The names of the placeholders of `s`, from left to right, found by the
/// same scan that `render` makes.
pub open spec fn scan_names(s: Seq<char>) -> Seq<Seq<char>>
    decreases s.len(),
{
    if s.len() == 0 {
        seq![]
    } else if s[0] != '@' {
        scan_names(s.drop_first())
    } else if has_close(s.drop_first()) {
        let rest = s.drop_first();
        let j = close_index(rest);
        seq![rest.take(j)] + scan_names(rest.skip(j + 1))
    } else {
        scan_names(s.drop_first())
    }
}

/// Text without `@` holds no placeholder.
proof fn lemma_scan_plain_prefix(s: Seq<char>, k: int)
    requires
        0 <= k <= s.len(),
        forall|i: int| 0 <= i < k ==> s[i] != '@',
    ensures
        scan_names(s) == scan_names(s.skip(k)),
    decreases k,
{
    if k == 0 {
        assert(s.skip(0) =~= s);
    } else {
        let t = s.drop_first();
        lemma_scan_plain_prefix(t, k - 1);
        assert(t.skip(k - 1) =~= s.skip(k));
    }
}

/// Every name that the scan finds is a valid variable name.
pub proof fn lemma_scan_names_valid(s: Seq<char>)
    ensures
        forall|i: int| 0 <= i < scan_names(s).len() ==> valid_name(#[trigger] scan_names(s)[i]),
    decreases s.len(),
{
    if s.len() == 0 {
    } else if s[0] != '@' {
        assert(scan_names(s) == scan_names(s.drop_first()));
        lemma_scan_names_valid(s.drop_first());
    } else if has_close(s.drop_first()) {
        let rest = s.drop_first();
        let j = close_index(rest);
        lemma_scan_names_valid(rest.skip(j + 1));
        let tail = scan_names(rest.skip(j + 1));
        assert(closes_at(rest, j));
        assert(scan_names(s) == seq![rest.take(j)] + tail);
        assert forall|i: int| 0 <= i < scan_names(s).len() implies valid_name(#[trigger] scan_names(s)[i]) by {
            if i > 0 {
                assert(scan_names(s)[i] == tail[i - 1]);
            } else {
                assert(scan_names(s)[0] == rest.take(j));
            }
        }
    } else {
        assert(scan_names(s) == scan_names(s.drop_first()));
        lemma_scan_names_valid(s.drop_first());
    }
}

/// Rendering leaves a text unchanged when none of the names it uses has a
/// value: unknown and invalid placeholders are kept as they are.
pub proof fn lemma_render_unchanged(vars: Map<Seq<char>, Seq<char>>, s: Seq<char>)
    requires
        forall|i: int| 0 <= i < scan_names(s).len() ==> !vars.contains_key(#[trigger] scan_names(s)[i]),
    ensures
        render(vars, s) == s,
    decreases s.len(),
{
    if s.len() == 0 {
    } else if s[0] != '@' {
        assert(scan_names(s) == scan_names(s.drop_first()));
        lemma_render_unchanged(vars, s.drop_first());
        assert(seq![s[0]] + s.drop_first() =~= s);
    } else if has_close(s.drop_first()) {
        let rest = s.drop_first();
        let j = close_index(rest);
        let tail = scan_names(rest.skip(j + 1));
        assert(scan_names(s) == seq![rest.take(j)] + tail);
        assert(scan_names(s)[0] == rest.take(j));
        assert forall|i: int| 0 <= i < tail.len() implies !vars.contains_key(#[trigger] tail[i]) by {
            assert(scan_names(s)[i + 1] == tail[i]);
        }
        lemma_render_unchanged(vars, rest.skip(j + 1));
        assert(substitution(vars, rest.take(j)) == seq!['@'] + rest.take(j) + seq!['@']);
        assert(seq!['@'] + rest.take(j) + seq!['@'] + rest.skip(j + 1) =~= s);
    } else {
        assert(scan_names(s) == scan_names(s.drop_first()));
        lemma_render_unchanged(vars, s.drop_first());
        assert(seq!['@'] + s.drop_first() =~= s);
    }
}

/// Only the variables that a text uses matter: two maps that agree on the
/// names the scan finds render the text alike.
pub proof fn lemma_render_uses_only_scanned_names(
    v1: Map<Seq<char>, Seq<char>>,
    v2: Map<Seq<char>, Seq<char>>,
    s: Seq<char>,
)
    requires
        forall|i: int| 0 <= i < scan_names(s).len() ==> {
            let n = #[trigger] scan_names(s)[i];
            &&& v1.contains_key(n) == v2.contains_key(n)
            &&& v1.contains_key(n) ==> v1[n] == v2[n]
        },
    ensures
        render(v1, s) == render(v2, s),
    decreases s.len(),
{
    if s.len() == 0 {
    } else if s[0] != '@' {
        assert(scan_names(s) == scan_names(s.drop_first()));
        lemma_render_uses_only_scanned_names(v1, v2, s.drop_first());
    } else if has_close(s.drop_first()) {
        let rest = s.drop_first();
        let j = close_index(rest);
        let tail = scan_names(rest.skip(j + 1));
        assert(scan_names(s) == seq![rest.take(j)] + tail);
        assert(scan_names(s)[0] == rest.take(j));
        assert forall|i: int| 0 <= i < tail.len() implies {
            let n = #[trigger] tail[i];
            &&& v1.contains_key(n) == v2.contains_key(n)
            &&& v1.contains_key(n) ==> v1[n] == v2[n]
        } by {
            assert(scan_names(s)[i + 1] == tail[i]);
        }
        lemma_render_uses_only_scanned_names(v1, v2, rest.skip(j + 1));
        assert(substitution(v1, rest.take(j)) == substitution(v2, rest.take(j)));
    } else {
        assert(scan_names(s) == scan_names(s.drop_first()));
        lemma_render_uses_only_scanned_names(v1, v2, s.drop_first());
    }
}

/// With no variables at all, rendering changes nothing.
pub proof fn lemma_render_without_variables(s: Seq<char>)
    ensures
        render(Map::<Seq<char>, Seq<char>>::empty(), s) == s,
{
    lemma_render_unchanged(Map::empty(), s);
}

/// A text without `@` renders to itself, whatever the variables.
pub proof fn lemma_render_plain_text(vars: Map<Seq<char>, Seq<char>>, s: Seq<char>)
    requires
        forall|i: int| 0 <= i < s.len() ==> s[i] != '@',
    ensures
        render(vars, s) == s,
{
    lemma_render_plain_prefix(vars, s, s.len() as int);
    assert(s.take(s.len() as int) =~= s);
    assert(s.skip(s.len() as int) =~= Seq::<char>::empty());
}

/// One placeholder step of the scan, as a set of names.
proof fn lemma_scan_step(t: Seq<char>)
    requires
        t.len() > 0,
        t[0] == '@',
    ensures
        has_close(t.drop_first()) ==> scan_names(t).to_set() == scan_names(
            t.drop_first().skip(close_index(t.drop_first()) + 1),
        ).to_set().insert(t.drop_first().take(close_index(t.drop_first()))),
        !has_close(t.drop_first()) ==> scan_names(t) == scan_names(t.drop_first()),
{
    if has_close(t.drop_first()) {
        let rest = t.drop_first();
        let j = close_index(rest);
        broadcast use vstd::seq_lib::group_seq_properties;
        assert((seq![rest.take(j)] + scan_names(rest.skip(j + 1))).to_set()
            =~= scan_names(rest.skip(j + 1)).to_set().insert(rest.take(j)));
    }
}

/// A placeholder of a variable that has a value renders to exactly that
/// value: a value is inserted as it is and never scanned again.
pub proof fn lemma_placeholder_renders_value(vars: Map<Seq<char>, Seq<char>>, name: Seq<char>)
    requires
        valid_name(name),
        vars.contains_key(name),
    ensures
        render(vars, seq!['@'] + name + seq!['@']) == vars[name],
{
    let s = seq!['@'] + name + seq!['@'];
    let rest = s.drop_first();
    assert(rest =~= name + seq!['@']);
    let j = name.len() as int;
    assert(rest.take(j) =~= name);
    assert(closes_at(rest, j));
    crate::replace::lemma_close_unique(rest, j, close_index(rest));
    assert(rest.skip(j + 1) =~= Seq::<char>::empty());
    assert(render(vars, Seq::<char>::empty()) == Seq::<char>::empty());
    assert(vars[name] + Seq::<char>::empty() =~= vars[name]);
}

/// `t` occurs in `s` as a run of consecutive characters.
pub open spec fn occurs_in(s: Seq<char>, t: Seq<char>) -> bool {
    exists|i: int| 0 <= i && i + t.len() <= s.len() && #[trigger] s.subrange(i, i + t.len()) == t
}

/// The placeholder written for `name`: `@name@`.
pub open spec fn placeholder(name: Seq<char>) -> Seq<char> {
    seq!['@'] + name + seq!['@']
}

/// Each name that the scan finds stands in the text as its placeholder.
proof fn lemma_scanned_occurs(s: Seq<char>, idx: int)
    requires
        0 <= idx < scan_names(s).len(),
    ensures
        occurs_in(s, placeholder(scan_names(s)[idx])),
    decreases s.len(),
{
    let n = scan_names(s)[idx];
    let p = placeholder(n);
    if s[0] != '@' || !has_close(s.drop_first()) {
        let t = s.drop_first();
        assert(scan_names(s) == scan_names(t));
        lemma_scanned_occurs(t, idx);
        let i = choose|i: int| 0 <= i && i + p.len() <= t.len() && #[trigger] t.subrange(i, i + p.len()) == p;
        let w = i + 1;
        assert(s.subrange(w, w + p.len()) =~= t.subrange(i, i + p.len()));
        assert(0 <= w && w + p.len() <= s.len() && s.subrange(w, w + p.len()) == p);
    } else {
        let rest = s.drop_first();
        let j = close_index(rest);
        assert(closes_at(rest, j));
        let tail = rest.skip(j + 1);
        assert(scan_names(s) == seq![rest.take(j)] + scan_names(tail));
        if idx == 0 {
            assert(n == rest.take(j));
            let w: int = 0;
            assert(s.subrange(w, w + p.len()) =~= p);
            assert(0 <= w && w + p.len() <= s.len() && s.subrange(w, w + p.len()) == p);
        } else {
            assert(n == scan_names(tail)[idx - 1]);
            lemma_scanned_occurs(tail, idx - 1);
            let i = choose|i: int| 0 <= i && i + p.len() <= tail.len() && #[trigger] tail.subrange(i, i + p.len()) == p;
            let w = i + j + 2;
            assert(s.subrange(w, w + p.len()) =~= tail.subrange(i, i + p.len()));
            assert(0 <= w && w + p.len() <= s.len() && s.subrange(w, w + p.len()) == p);
        }
    }
}

/// Rendering leaves a text unchanged when no variable that has a value
/// stands in it as `@name@`.
pub proof fn lemma_render_unchanged_without_placeholders(vars: Map<Seq<char>, Seq<char>>, s: Seq<char>)
    requires
        forall|k: Seq<char>| #[trigger] vars.contains_key(k) ==> !occurs_in(s, placeholder(k)),
    ensures
        render(vars, s) == s,
{
    assert forall|i: int| 0 <= i < scan_names(s).len() implies !vars.contains_key(#[trigger] scan_names(s)[i]) by {
        lemma_scanned_occurs(s, i);
    }
    lemma_render_unchanged(vars, s);
}

/// Rendering with values that are all empty never lengthens a text, and
/// shortens it when a name that the scan finds has a value.
proof fn lemma_render_empty_values_len(vars: Map<Seq<char>, Seq<char>>, s: Seq<char>)
    requires
        forall|k: Seq<char>| #[trigger] vars.contains_key(k) ==> vars[k].len() == 0,
    ensures
        render(vars, s).len() <= s.len(),
        (exists|i: int| 0 <= i < scan_names(s).len() && vars.contains_key(#[trigger] scan_names(s)[i]))
            ==> render(vars, s).len() < s.len(),
    decreases s.len(),
{
    if s.len() == 0 {
    } else if s[0] != '@' || !has_close(s.drop_first()) {
        let t = s.drop_first();
        assert(scan_names(s) == scan_names(t));
        lemma_render_empty_values_len(vars, t);
    } else {
        let rest = s.drop_first();
        let j = close_index(rest);
        assert(closes_at(rest, j));
        let tail = rest.skip(j + 1);
        let name = rest.take(j);
        lemma_render_empty_values_len(vars, tail);
        assert(scan_names(s) == seq![name] + scan_names(tail));
        assert(render(vars, s) == substitution(vars, name) + render(vars, tail));
        if exists|i: int| 0 <= i < scan_names(s).len() && vars.contains_key(#[trigger] scan_names(s)[i]) {
            let i = choose|i: int| 0 <= i < scan_names(s).len() && vars.contains_key(#[trigger] scan_names(s)[i]);
            if i > 0 && !vars.contains_key(name) {
                assert(scan_names(s)[i] == scan_names(tail)[i - 1]);
            }
        }
    }
}

/// A name is found by the scan exactly when giving it an empty value (and
/// no other variable a value) changes the rendering of the text.
pub proof fn lemma_scanned_iff_render_changes(s: Seq<char>, name: Seq<char>)
    ensures
        scan_names(s).contains(name)
            <==> render(Map::<Seq<char>, Seq<char>>::empty().insert(name, Seq::<char>::empty()), s) != s,
{
    let vars = Map::<Seq<char>, Seq<char>>::empty().insert(name, Seq::<char>::empty());
    if scan_names(s).contains(name) {
        let i = choose|i: int| 0 <= i < scan_names(s).len() && scan_names(s)[i] == name;
        assert(vars.contains_key(scan_names(s)[i]));
        lemma_render_empty_values_len(vars, s);
    } else {
        assert forall|i: int| 0 <= i < scan_names(s).len() implies !vars.contains_key(#[trigger] scan_names(s)[i]) by {
            assert(scan_names(s)[i] != name);
        }
        lemma_render_unchanged(vars, s);
    }
}

/// The set of the names of all placeholders in `content`.
pub fn extract_vars(content: &str) -> (r: NameSet)
    ensures
        r@ == scan_names(content@).to_set(),
        forall|n: Seq<char>| #[trigger] r@.contains(n) ==> valid_name(n),
{
    let v = chars_of(content);
    let ghost s = v@;
    let mut out = NameSet::new();
    let mut pos: usize = 0;
    assert(s.skip(0) =~= s);
    loop
        invariant
            s == v@,
            pos <= v.len(),
            scan_names(s).to_set() == out@ + scan_names(s.skip(pos as int)).to_set(),
        ensures
            pos == v.len(),
        decreases v.len() - pos,
    {
        if pos >= v.len() {
            break;
        }
        let at = match find_char(&v, pos, '@') {
            Some(a) => a,
            None => {
                proof {
                    let t = s.skip(pos as int);
                    lemma_scan_plain_prefix(t, t.len() as int);
                    assert(t.skip(t.len() as int) =~= s.skip(v.len() as int));
                }
                pos = v.len();
                break;
            },
        };
        proof {
            let t = s.skip(pos as int);
            lemma_scan_plain_prefix(t, at - pos);
            assert(t.skip(at - pos) =~= s.skip(at as int));
            lemma_scan_step(s.skip(at as int));
        }
        let ghost rest = s.skip(at + 1);
        assert(s.skip(at as int).drop_first() =~= rest);
        match find_close(&v, at) {
            Some(close) => {
                let ghost j = close - (at + 1);
                assert(rest.skip(j + 1) =~= s.skip(close + 1));
                let name = string_of_range(&v, at + 1, close);
                assert(name@ == rest.take(j));
                let ghost before = out@;
                out.insert(name);
                assert(out@ + scan_names(s.skip(close + 1)).to_set() =~= before + scan_names(s.skip(at as int)).to_set());
                pos = close + 1;
            },
            None => {
                pos = at + 1;
            },
        }
    }
    assert(s.skip(pos as int) =~= Seq::<char>::empty());
    assert(out@ =~= scan_names(s).to_set());
    proof {
        lemma_scan_names_valid(s);
        assert forall|n: Seq<char>| #[trigger] out@.contains(n) implies valid_name(n) by {
            let i = choose|i: int| 0 <= i < scan_names(s).len() && scan_names(s)[i] == n;
        }
    }
    out
}

} // verus!
