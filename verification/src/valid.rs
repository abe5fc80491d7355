//! Which names may stand between two `@` as a template variable.

use vstd::prelude::*;
use crate::text::chars_of;

verus! {

/// A character that may start a variable name: an ASCII letter or `_`.
pub open spec fn is_name_start(c: char) -> bool {
    ('a' <= c && c <= 'z') || ('A' <= c && c <= 'Z') || c == '_'
}

/// A character that may continue a variable name: an ASCII letter, digit or `_`.
pub open spec fn is_name_char(c: char) -> bool {
    is_name_start(c) || ('0' <= c && c <= '9')
}

/// `s` matches `[a-zA-Z_][a-zA-Z0-9_]*`.
pub open spec fn valid_name(s: Seq<char>) -> bool {
    &&& s.len() > 0
    &&& is_name_start(s[0])
    &&& forall|i: int| 1 <= i < s.len() ==> is_name_char(#[trigger] s[i])
}

/// Whether the characters `v[lo..hi]` form a valid variable name.
pub fn valid_name_in(v: &Vec<char>, lo: usize, hi: usize) -> (r: bool)
    requires
        lo <= hi <= v.len(),
    ensures
        r == valid_name(v@.subrange(lo as int, hi as int)),
{
    if lo == hi {
        return false;
    }
    let c0 = v[lo];
    if !(('a' <= c0 && c0 <= 'z') || ('A' <= c0 && c0 <= 'Z') || c0 == '_') {
        return false;
    }
    let mut i = lo + 1;
    while i < hi
        invariant
            lo < i <= hi <= v.len(),
            forall|j: int| lo < j < i ==> is_name_char(#[trigger] v@[j]),
        decreases hi - i,
    {
        let c = v[i];
        if !(('a' <= c && c <= 'z') || ('A' <= c && c <= 'Z') || c == '_' || ('0' <= c && c <= '9')) {
            assert(v@.subrange(lo as int, hi as int)[i - lo] == c);
            return false;
        }
        i += 1;
    }
    assert forall|k: int| 1 <= k < hi - lo implies is_name_char(#[trigger] v@.subrange(lo as int, hi as int)[k]) by {
        assert(v@.subrange(lo as int, hi as int)[k] == v@[lo + k]);
    }
    true
}

/// Whether `name` matches `[a-zA-Z_][a-zA-Z0-9_]*`.
pub fn is_valid_var_name(name: &str) -> (r: bool)
    ensures
        r == valid_name(name@),
{
    let v = chars_of(name);
    assert(v@.subrange(0, v@.len() as int) == v@);
    valid_name_in(&v, 0, v.len())
}

} // verus!

verus! {

/// A variable name is exactly a non-empty run of ASCII letters (upper- or
/// lower-case, `a` to `z` and `A` to `Z` in full), digits and underscores
/// that does not begin with a digit.
pub proof fn lemma_valid_name_chars(s: Seq<char>)
    ensures
        valid_name(s) <==> {
            &&& s.len() > 0
            &&& !('0' <= s[0] && s[0] <= '9')
            &&& forall|i: int| 0 <= i < s.len() ==> {
                let c = #[trigger] s[i];
                ||| ('a' <= c && c <= 'z')
                ||| ('A' <= c && c <= 'Z')
                ||| ('0' <= c && c <= '9')
                ||| c == '_'
            }
        },
{
}

/// Two names written one after the other form a name, and a name stays one
/// when any ASCII letter, digit or underscore is added at its end.
pub proof fn lemma_valid_name_extends(s: Seq<char>, t: Seq<char>, c: char)
    requires
        valid_name(s),
    ensures
        valid_name(t) ==> valid_name(s + t),
        ('a' <= c && c <= 'z') || ('A' <= c && c <= 'Z') || ('0' <= c && c <= '9') || c == '_'
            ==> valid_name(s.push(c)),
{
    if valid_name(t) {
        assert forall|i: int| 1 <= i < (s + t).len() implies is_name_char(#[trigger] (s + t)[i]) by {
            if i < s.len() {
                assert((s + t)[i] == s[i]);
            } else {
                assert((s + t)[i] == t[i - s.len()]);
            }
        }
    }
    assert forall|i: int| 1 <= i < s.push(c).len() && i < s.len() implies is_name_char(#[trigger] s.push(c)[i]) by {
        assert(s.push(c)[i] == s[i]);
    }
}

} // verus!
