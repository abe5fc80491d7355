//! Rendering of `@NAME@` placeholders.
//!
//! An `@` opens a placeholder when some later `@` closes a valid variable
//! name right after it; the placeholder is replaced by the variable's value,
//! or kept as it is when the variable has no value. Any other `@` is copied.

use vstd::prelude::*;
use crate::text::{chars_of, find_char, push_char, push_range, string_of_range};
use crate::valid::{valid_name, valid_name_in, is_name_char};
use crate::vars::Variables;

verus! {

/// In `rest` (the text right after an opening `@`), position `j` holds the
/// `@` that closes a valid name `rest[..j]`.
pub open spec fn closes_at(rest: Seq<char>, j: int) -> bool {
    &&& 0 <= j < rest.len()
    &&& rest[j] == '@'
    &&& valid_name(rest.take(j))
}

/// Some `@` in `rest` closes a valid name.
pub open spec fn has_close(rest: Seq<char>) -> bool {
    exists|j: int| closes_at(rest, j)
}

/// The position of the `@` that closes a valid name in `rest`.
pub open spec fn close_index(rest: Seq<char>) -> int {
    choose|j: int| closes_at(rest, j)
}

/// What a placeholder for `name` becomes: its value, or the placeholder itself.
pub open spec fn substitution(vars: Map<Seq<char>, Seq<char>>, name: Seq<char>) -> Seq<char> {
    if vars.contains_key(name) {
        vars[name]
    } else {
        seq!['@'] + name + seq!['@']
    }
}

/// The text `s` with every placeholder replaced, scanning from left to right.
pub open spec fn render(vars: Map<Seq<char>, Seq<char>>, s: Seq<char>) -> Seq<char>
    decreases s.len(),
{
    if s.len() == 0 {
        seq![]
    } else if s[0] != '@' {
        seq![s[0]] + render(vars, s.drop_first())
    } else if has_close(s.drop_first()) {
        let rest = s.drop_first();
        let j = close_index(rest);
        substitution(vars, rest.take(j)) + render(vars, rest.skip(j + 1))
    } else {
        seq!['@'] + render(vars, s.drop_first())
    }
}

/// A name cannot hold `@`, so at most one `@` closes a valid name.
pub proof fn lemma_close_unique(rest: Seq<char>, j1: int, j2: int)
    requires
        closes_at(rest, j1),
        closes_at(rest, j2),
    ensures
        j1 == j2,
{
    if j1 < j2 {
        assert(rest.take(j2)[j1] == '@');
        if j1 > 0 {
            assert(is_name_char(rest.take(j2)[j1]));
        }
    } else if j2 < j1 {
        assert(rest.take(j1)[j2] == '@');
        if j2 > 0 {
            assert(is_name_char(rest.take(j1)[j2]));
        }
    }
}

/// Text before the first `@` is copied unchanged.
pub proof fn lemma_render_plain_prefix(vars: Map<Seq<char>, Seq<char>>, s: Seq<char>, k: int)
    requires
        0 <= k <= s.len(),
        forall|i: int| 0 <= i < k ==> s[i] != '@',
    ensures
        render(vars, s) == s.take(k) + render(vars, s.skip(k)),
    decreases k,
{
    if k == 0 {
        assert(s.take(0) + s.skip(0) =~= s);
        assert(s.skip(0) =~= s);
    } else {
        let t = s.drop_first();
        lemma_render_plain_prefix(vars, t, k - 1);
        assert(t.skip(k - 1) =~= s.skip(k));
        assert(seq![s[0]] + t.take(k - 1) =~= s.take(k));
    }
}


/// The `@` after position `at` that closes a valid name begun right after
/// `at`, trying each later `@` in turn.
pub fn find_close(v: &Vec<char>, at: usize) -> (r: Option<usize>)
    requires
        at < v.len(),
    ensures
        match r {
            Some(c) => at < c < v.len() && closes_at(v@.skip(at + 1), c - (at + 1))
                && close_index(v@.skip(at + 1)) == c - (at + 1) && has_close(v@.skip(at + 1)),
            None => !has_close(v@.skip(at + 1)),
        },
{
    let ghost s = v@;
    let ghost rest = s.skip(at + 1);
    let mut search = at + 1;
    let mut closing: Option<usize> = None;
    loop
        invariant_except_break
            at < search <= v.len(),
            forall|j: int| at + 1 <= j < search && s[j] == '@' ==> !valid_name(s.subrange(at + 1, j)),
            closing is None,
        invariant
            s == v@,
            at < v.len(),
        ensures
            closing matches Some(c) ==> at < c < v.len() && s[c as int] == '@'
                && valid_name(s.subrange(at + 1, c as int)),
            closing is None ==> forall|j: int| at + 1 <= j < v.len() && s[j] == '@' ==> !valid_name(s.subrange(at + 1, j)),
        decreases v.len() - search,
    {
        match find_char(v, search, '@') {
            None => break,
            Some(c) => {
                if valid_name_in(v, at + 1, c) {
                    closing = Some(c);
                    break;
                }
                search = c + 1;
            },
        }
    }
    proof {
        match closing {
            Some(c) => {
                let j = c - (at + 1);
                assert(rest.take(j) =~= s.subrange(at + 1, c as int));
                assert(closes_at(rest, j));
                lemma_close_unique(rest, j, close_index(rest));
            },
            None => {
                assert forall|j: int| !closes_at(rest, j) by {
                    if closes_at(rest, j) {
                        assert(rest.take(j) =~= s.subrange(at + 1, at + 1 + j));
                        assert(s[at + 1 + j] == '@');
                    }
                }
            },
        }
    }
    closing
}

/// Placeholder rendering and the operations that apply it to several texts.
pub trait KissReplace {
    /// What `replace_str` makes of `input`.
    spec fn rendered(&self, input: Seq<char>) -> Seq<char>;

    /// Replaces `@VAR@` in a single string.
    fn replace_str(&self, input: &str) -> (r: String)
        ensures
            r@ == self.rendered(input@),
    ;

    /// Replaces `@VAR@` in each string, giving new strings.
    fn replace(&self, sources: Vec<String>) -> (r: Vec<String>)
        ensures
            r@.len() == sources@.len(),
            forall|i: int| 0 <= i < r@.len() ==> #[trigger] r@[i]@ == self.rendered(sources@[i]@),
    {
        let mut out: Vec<String> = Vec::new();
        let mut i: usize = 0;
        while i < sources.len()
            invariant
                i <= sources@.len(),
                out@.len() == i,
                forall|j: int| 0 <= j < i ==> #[trigger] out@[j]@ == self.rendered(sources@[j]@),
            decreases sources@.len() - i,
        {
            out.push(self.replace_str(sources[i].as_str()));
            i += 1;
        }
        out
    }

    /// Replaces `@VAR@` in each string, in place.
    fn replace_mut(&self, sources: &mut Vec<String>)
        ensures
            final(sources)@.len() == old(sources)@.len(),
            forall|i: int| 0 <= i < old(sources)@.len() ==> #[trigger] final(sources)@[i]@ == self.rendered(old(sources)@[i]@),
    {
        let mut i: usize = 0;
        while i < sources.len()
            invariant
                i <= sources@.len(),
                sources@.len() == old(sources)@.len(),
                forall|j: int| 0 <= j < i ==> #[trigger] sources@[j]@ == self.rendered(old(sources)@[j]@),
                forall|j: int| i <= j < sources@.len() ==> #[trigger] sources@[j] == old(sources)@[j],
            decreases sources@.len() - i,
        {
            let r = self.replace_str(sources[i].as_str());
            sources.set(i, r);
            i += 1;
        }
    }

    /// Replaces `@VAR@` in paths, each given by its text.
    fn replace_paths(&self, paths: Vec<String>) -> (r: Vec<String>)
        ensures
            r@.len() == paths@.len(),
            forall|i: int| 0 <= i < r@.len() ==> #[trigger] r@[i]@ == self.rendered(paths@[i]@),
    {
        self.replace(paths)
    }
}

impl KissReplace for Variables {
    open spec fn rendered(&self, input: Seq<char>) -> Seq<char> {
        render(self@, input)
    }

    fn replace_str(&self, input: &str) -> (r: String) {
        let v = chars_of(input);
        let ghost s = v@;
        let mut result = String::new();
        let mut pos: usize = 0;
        assert(s.skip(0) =~= s);
        loop
            invariant
                s == v@,
                pos <= v.len(),
                render(self@, s) == result@ + render(self@, s.skip(pos as int)),
            ensures
                forall|j: int| pos <= j < v.len() ==> s[j] != '@',
            decreases v.len() - pos,
        {
            let at = match find_char(&v, pos, '@') {
                Some(a) => a,
                None => break,
            };
            proof {
                let t = s.skip(pos as int);
                lemma_render_plain_prefix(self@, t, at - pos);
                assert(t.take(at - pos) =~= s.subrange(pos as int, at as int));
                assert(t.skip(at - pos) =~= s.skip(at as int));
            }
            push_range(&mut result, &v, pos, at);
            let ghost t = s.skip(at as int);
            let ghost rest = t.drop_first();
            assert(rest =~= s.skip(at + 1));
            let closing = find_close(&v, at);
            match closing {
                Some(close) => {
                    let ghost j = close - (at + 1);
                    proof {
                        assert(rest.take(j) =~= s.subrange(at + 1, close as int));
                        assert(rest.skip(j + 1) =~= s.skip(close + 1));
                    }
                    let name = string_of_range(&v, at + 1, close);
                    let ghost before = result@;
                    match self.get(name.as_str()) {
                        Some(value) => {
                            result.append(value.as_str());
                        },
                        None => {
                            push_char(&mut result, '@');
                            result.append(name.as_str());
                            push_char(&mut result, '@');
                        },
                    }
                    assert(result@ =~= before + substitution(self@, rest.take(j)));
                    pos = close + 1;
                },
                None => {
                    push_char(&mut result, '@');
                    pos = at + 1;
                },
            }
        }
        proof {
            let t = s.skip(pos as int);
            lemma_render_plain_prefix(self@, t, t.len() as int);
            assert(t.take(t.len() as int) =~= s.subrange(pos as int, v.len() as int));
            assert(t.skip(t.len() as int) =~= Seq::<char>::empty());
        }
        push_range(&mut result, &v, pos, v.len());
        result
    }
}

} // verus!
