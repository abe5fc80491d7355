//! Line-level text: splitting into lines, trimming white space, joining,
//! and escaping for a quoted TOML string.

use vstd::prelude::*;
use crate::text::{find_char, push_char};

verus! {

/// A character with the Unicode `White_Space` property.
pub open spec fn is_white(c: char) -> bool {
    ||| c == '\t' || c == '\n' || c == '\u{0B}' || c == '\u{0C}' || c == '\r' || c == ' '
    ||| c == '\u{85}' || c == '\u{A0}' || c == '\u{1680}'
    ||| ('\u{2000}' <= c && c <= '\u{200A}')
    ||| c == '\u{2028}' || c == '\u{2029}' || c == '\u{202F}' || c == '\u{205F}' || c == '\u{3000}'
}

/// Whether `c` has the Unicode `White_Space` property.
pub fn white(c: char) -> (r: bool)
    ensures
        r == is_white(c),
{
    c == '\t' || c == '\n' || c == '\u{0B}' || c == '\u{0C}' || c == '\r' || c == ' ' || c == '\u{85}'
        || c == '\u{A0}' || c == '\u{1680}' || ('\u{2000}' <= c && c <= '\u{200A}') || c == '\u{2028}'
        || c == '\u{2029}' || c == '\u{202F}' || c == '\u{205F}' || c == '\u{3000}'
}

/// `s` without its leading white space.
pub open spec fn trim_start(s: Seq<char>) -> Seq<char>
    decreases s.len(),
{
    if s.len() > 0 && is_white(s[0]) {
        trim_start(s.drop_first())
    } else {
        s
    }
}

/// `s` without its trailing white space.
pub open spec fn trim_end(s: Seq<char>) -> Seq<char>
    decreases s.len(),
{
    if s.len() > 0 && is_white(s.last()) {
        trim_end(s.drop_last())
    } else {
        s
    }
}

/// `s` without leading and trailing white space.
pub open spec fn trim(s: Seq<char>) -> Seq<char> {
    trim_end(trim_start(s))
}

pub proof fn lemma_trim_start(s: Seq<char>, lo: int)
    requires
        0 <= lo <= s.len(),
        forall|j: int| 0 <= j < lo ==> is_white(s[j]),
        lo == s.len() || !is_white(s[lo]),
    ensures
        trim_start(s) == s.skip(lo),
    decreases lo,
{
    if lo == 0 {
        assert(s.skip(0) =~= s);
    } else {
        lemma_trim_start(s.drop_first(), lo - 1);
        assert(s.drop_first().skip(lo - 1) =~= s.skip(lo));
    }
}

pub proof fn lemma_trim_end(s: Seq<char>, hi: int)
    requires
        0 <= hi <= s.len(),
        forall|j: int| hi <= j < s.len() ==> is_white(s[j]),
        hi == 0 || !is_white(s[hi - 1]),
    ensures
        trim_end(s) == s.take(hi),
    decreases s.len() - hi,
{
    if hi == s.len() {
        assert(s.take(hi) =~= s);
    } else {
        lemma_trim_end(s.drop_last(), hi);
        assert(s.drop_last().take(hi) =~= s.take(hi));
    }
}

/// The bounds of `v[lo..hi]` without leading and trailing white space.
pub fn trim_range(v: &Vec<char>, lo: usize, hi: usize) -> (r: (usize, usize))
    requires
        lo <= hi <= v.len(),
    ensures
        lo <= r.0 <= r.1 <= hi,
        v@.subrange(r.0 as int, r.1 as int) == trim(v@.subrange(lo as int, hi as int)),
{
    let ghost s = v@.subrange(lo as int, hi as int);
    let mut a: usize = lo;
    while a < hi && white(v[a])
        invariant
            lo <= a <= hi <= v.len(),
            forall|j: int| lo <= j < a ==> is_white(v@[j]),
        decreases hi - a,
    {
        a += 1;
    }
    let mut b: usize = hi;
    while b > a && white(v[b - 1])
        invariant
            lo <= a <= b <= hi <= v.len(),
            forall|j: int| b <= j < hi ==> is_white(v@[j]),
        decreases b,
    {
        b -= 1;
    }
    proof {
        assert forall|j: int| 0 <= j < a - lo implies is_white(s[j]) by {
            assert(s[j] == v@[lo + j]);
        }
        if a < hi {
            assert(s[a - lo] == v@[a as int]);
        }
        lemma_trim_start(s, a - lo);
        let t = s.skip(a - lo);
        assert forall|j: int| b - a <= j < t.len() implies is_white(t[j]) by {
            assert(t[j] == v@[a + j]);
        }
        if b > a {
            assert(t[b - a - 1] == v@[b - 1]);
        }
        lemma_trim_end(t, b - a);
        assert(t.take(b - a) =~= v@.subrange(a as int, b as int));
    }
    (a, b)
}

/// Length of the first line of `s`: the position of its first `\n`, or its length.
pub open spec fn line_len(s: Seq<char>) -> nat
    decreases s.len(),
{
    if s.len() == 0 || s[0] == '\n' {
        0
    } else {
        1 + line_len(s.drop_first())
    }
}

proof fn lemma_line_len(s: Seq<char>, k: int)
    requires
        0 <= k <= s.len(),
        forall|j: int| 0 <= j < k ==> s[j] != '\n',
        k == s.len() || s[k] == '\n',
    ensures
        line_len(s) == k,
    decreases k,
{
    if k > 0 {
        lemma_line_len(s.drop_first(), k - 1);
    }
}

/// `l` without one trailing carriage return.
pub open spec fn strip_cr(l: Seq<char>) -> Seq<char> {
    if l.len() > 0 && l.last() == '\r' {
        l.drop_last()
    } else {
        l
    }
}

/// The lines of `s`: split at each `\n`, a `\r` right before it removed; a
/// final line ending is optional and gives no empty last line.
pub open spec fn split_lines(s: Seq<char>) -> Seq<Seq<char>>
    decreases s.len(),
{
    if s.len() == 0 {
        seq![]
    } else {
        let k = line_len(s);
        if k < s.len() {
            seq![strip_cr(s.take(k as int))] + split_lines(s.skip((k + 1) as int))
        } else {
            seq![s]
        }
    }
}

/// The lines of `v`, as character vectors.
pub fn lines_of(v: &Vec<char>) -> (r: Vec<Vec<char>>)
    ensures
        r@.map_values(|l: Vec<char>| l@) == split_lines(v@),
{
    let ghost s = v@;
    let mut out: Vec<Vec<char>> = Vec::new();
    let mut pos: usize = 0;
    assert(s.skip(0) =~= s);
    while pos < v.len()
        invariant
            s == v@,
            pos <= v.len(),
            split_lines(s) == out@.map_values(|l: Vec<char>| l@) + split_lines(s.skip(pos as int)),
        decreases v.len() - pos,
    {
        let ghost t = s.skip(pos as int);
        let end = match find_char(v, pos, '\n') {
            Some(e) => e,
            None => v.len(),
        };
        proof {
            lemma_line_len(t, end - pos);
        }
        let mut hi = end;
        if end < v.len() && hi > pos && v[hi - 1] == '\r' {
            hi -= 1;
        }
        let mut line: Vec<char> = Vec::new();
        let mut i = pos;
        while i < hi
            invariant
                pos <= i <= hi <= v.len(),
                line@ == v@.subrange(pos as int, i as int),
            decreases hi - i,
        {
            line.push(v[i]);
            i += 1;
            assert(line@ =~= v@.subrange(pos as int, i as int));
        }
        let ghost before = out@.map_values(|l: Vec<char>| l@);
        out.push(line);
        proof {
            assert(out@.map_values(|l: Vec<char>| l@) =~= before.push(line@));
            if end < v.len() {
                assert(strip_cr(t.take(end - pos)) =~= line@);
                assert(t.skip(end - pos + 1) =~= s.skip(end + 1));
                assert(split_lines(t) == seq![line@] + split_lines(s.skip(end + 1)));
                assert(before + split_lines(t) =~= before.push(line@) + split_lines(s.skip(end + 1)));
            } else {
                assert(t =~= line@);
                assert(split_lines(t) == seq![line@]);
                assert(s.skip(v.len() as int) =~= Seq::<char>::empty());
                assert(before + split_lines(t) =~= before.push(line@) + split_lines(s.skip(v.len() as int)));
            }
        }
        pos = if end < v.len() { end + 1 } else { v.len() };
    }
    assert(s.skip(pos as int) =~= Seq::<char>::empty());
    assert(split_lines(s) =~= out@.map_values(|l: Vec<char>| l@));
    out
}

/// The lines joined with `\n` between them.
pub open spec fn join_lines(ls: Seq<Seq<char>>) -> Seq<char>
    decreases ls.len(),
{
    if ls.len() == 0 {
        seq![]
    } else if ls.len() == 1 {
        ls[0]
    } else {
        join_lines(ls.drop_last()) + seq!['\n'] + ls.last()
    }
}

/// `t`, with a `\n` added unless it already ends with one.
pub open spec fn terminated(t: Seq<char>) -> Seq<char> {
    if t.len() > 0 && t.last() == '\n' {
        t
    } else {
        t.push('\n')
    }
}

/// The file text made of `lines`: joined with `\n` and ending with `\n`.
pub open spec fn file_text(lines: Seq<Seq<char>>) -> Seq<char> {
    terminated(join_lines(lines))
}

/// The file text made of `lines`.
pub fn text_of_lines(lines: &Vec<Vec<char>>) -> (r: String)
    ensures
        r@ == file_text(lines@.map_values(|l: Vec<char>| l@)),
{
    let ghost ls = lines@.map_values(|l: Vec<char>| l@);
    let mut out = String::new();
    let mut i: usize = 0;
    while i < lines.len()
        invariant
            ls == lines@.map_values(|l: Vec<char>| l@),
            i <= lines.len(),
            out@ == join_lines(ls.take(i as int)),
        decreases lines.len() - i,
    {
        if i > 0 {
            push_char(&mut out, '\n');
        }
        let line = &lines[i];
        let mut j: usize = 0;
        let ghost start = out@;
        while j < line.len()
            invariant
                j <= line.len(),
                out@ == start + line@.take(j as int),
            decreases line.len() - j,
        {
            push_char(&mut out, line[j]);
            j += 1;
            assert(out@ =~= start + line@.take(j as int));
        }
        assert(line@.take(line.len() as int) =~= line@);
        assert(ls.take(i + 1).drop_last() =~= ls.take(i as int));
        assert(ls.take(i + 1).last() == line@);
        i += 1;
    }
    assert(ls.take(lines.len() as int) =~= ls);
    let n = out.unicode_len();
    if n == 0 || out.get_char(n - 1) != '\n' {
        push_char(&mut out, '\n');
    }
    out
}

/// A lower-case hexadecimal digit.
pub open spec fn hex_digit(d: int) -> char {
    if d < 10 {
        ((d + 48) as u8) as char
    } else {
        ((d + 87) as u8) as char
    }
}

/// How one character is written inside a TOML basic string: `"` and `\`
/// after a backslash; backspace, tab, line feed, form feed and carriage
/// return as their short escapes; the other control characters as
/// `\u00XX`; anything else as it is.
pub open spec fn escape_char(c: char) -> Seq<char> {
    if c == '"' || c == '\\' {
        seq!['\\', c]
    } else if c == '\u{8}' {
        seq!['\\', 'b']
    } else if c == '\t' {
        seq!['\\', 't']
    } else if c == '\n' {
        seq!['\\', 'n']
    } else if c == '\u{c}' {
        seq!['\\', 'f']
    } else if c == '\r' {
        seq!['\\', 'r']
    } else if (c as u32) < 32 || (c as u32) == 127 {
        seq!['\\', 'u', '0', '0', hex_digit(((c as u32) / 16) as int), hex_digit(((c as u32) % 16) as int)]
    } else {
        seq![c]
    }
}

/// Each character of `s` escaped.
pub open spec fn escape_text(s: Seq<char>) -> Seq<char>
    decreases s.len(),
{
    if s.len() == 0 {
        seq![]
    } else {
        escape_text(s.drop_last()) + escape_char(s.last())
    }
}

fn hex_char(d: u32) -> (c: char)
    requires
        d < 16,
    ensures
        c == hex_digit(d as int),
{
    if d < 10 {
        ((d + 48) as u8) as char
    } else {
        ((d + 87) as u8) as char
    }
}

/// Appends the escaped form of `c` to `out`.
pub fn push_escaped(out: &mut Vec<char>, c: char)
    ensures
        final(out)@ == old(out)@ + escape_char(c),
{
    if c == '"' || c == '\\' {
        out.push('\\');
        out.push(c);
    } else if c == '\u{8}' {
        out.push('\\');
        out.push('b');
    } else if c == '\t' {
        out.push('\\');
        out.push('t');
    } else if c == '\n' {
        out.push('\\');
        out.push('n');
    } else if c == '\u{c}' {
        out.push('\\');
        out.push('f');
    } else if c == '\r' {
        out.push('\\');
        out.push('r');
    } else if (c as u32) < 32 || (c as u32) == 127 {
        let n: u32 = c as u32;
        out.push('\\');
        out.push('u');
        out.push('0');
        out.push('0');
        out.push(hex_char(n / 16));
        out.push(hex_char(n % 16));
    } else {
        out.push(c);
    }
    assert(final(out)@ =~= old(out)@ + escape_char(c));
}

} // verus!
verus! {

/// `l` holds neither `\n` nor `\r`.
pub open spec fn no_breaks(l: Seq<char>) -> bool {
    forall|j: int| 0 <= j < l.len() ==> l[j] != '\n' && l[j] != '\r'
}

proof fn lemma_line_len_props(s: Seq<char>)
    ensures
        line_len(s) <= s.len(),
        forall|j: int| 0 <= j < line_len(s) ==> s[j] != '\n',
        line_len(s) < s.len() ==> s[line_len(s) as int] == '\n',
    decreases s.len(),
{
    if s.len() > 0 && s[0] != '\n' {
        lemma_line_len_props(s.drop_first());
        assert forall|j: int| 0 <= j < line_len(s) implies s[j] != '\n' by {
            if j > 0 {
                assert(s[j] == s.drop_first()[j - 1]);
            }
        }
    }
}

proof fn lemma_join_front(a: Seq<char>, ls: Seq<Seq<char>>)
    ensures
        join_lines(seq![a] + ls) == if ls.len() == 0 { a } else { a + seq!['\n'] + join_lines(ls) },
    decreases ls.len(),
{
    let all = seq![a] + ls;
    if ls.len() == 0 {
        assert(all =~= seq![a]);
    } else if ls.len() == 1 {
        assert(all.drop_last() =~= seq![a]);
        assert(all.last() == ls[0]);
        assert(join_lines(seq![a]) == a);
        assert(join_lines(ls) == ls[0]);
    } else {
        lemma_join_front(a, ls.drop_last());
        assert(all.drop_last() =~= seq![a] + ls.drop_last());
        assert(all.last() == ls.last());
        assert(join_lines(all) == join_lines(all.drop_last()) + seq!['\n'] + all.last());
        assert(join_lines(ls) == join_lines(ls.drop_last()) + seq!['\n'] + ls.last());
        assert(a + seq!['\n'] + join_lines(ls.drop_last()) + seq!['\n'] + ls.last()
            =~= a + seq!['\n'] + (join_lines(ls.drop_last()) + seq!['\n'] + ls.last()));
    }
}

/// A text without `\r` that ends its last line with `\n` is its lines
/// joined with `\n`, plus that final `\n`; no line holds a line break.
pub proof fn lemma_split_then_join(c: Seq<char>)
    requires
        c.len() > 0,
        c.last() == '\n',
        forall|i: int| 0 <= i < c.len() ==> c[i] != '\r',
    ensures
        split_lines(c).len() > 0,
        join_lines(split_lines(c)) + seq!['\n'] == c,
        forall|i: int| 0 <= i < split_lines(c).len() ==> no_breaks(#[trigger] split_lines(c)[i]),
    decreases c.len(),
{
    lemma_line_len_props(c);
    let k = line_len(c) as int;
    let line = c.take(k);
    let rest = c.skip(k + 1);
    assert(k < c.len());
    assert(strip_cr(line) == line);
    assert(no_breaks(line));
    if rest.len() == 0 {
        assert(split_lines(c) == seq![line] + split_lines(rest));
        assert(split_lines(rest) =~= Seq::<Seq<char>>::empty());
        assert(split_lines(c) =~= seq![line]);
        assert(line + seq!['\n'] =~= c);
    } else {
        assert(rest.last() == c.last());
        lemma_split_then_join(rest);
        let tail = split_lines(rest);
        assert(split_lines(c) == seq![line] + tail);
        lemma_join_front(line, tail);
        assert(line + seq!['\n'] + join_lines(tail) + seq!['\n'] =~= line + seq!['\n'] + rest);
        assert(line + seq!['\n'] + rest =~= c);
        assert forall|i: int| 0 <= i < split_lines(c).len() implies no_breaks(#[trigger] split_lines(c)[i]) by {
            if i > 0 {
                assert(split_lines(c)[i] == tail[i - 1]);
            }
        }
    }
}

/// Lines without line breaks, joined with `\n` and ended with `\n`, split
/// back into the same lines.
pub proof fn lemma_join_then_split(ls: Seq<Seq<char>>)
    requires
        ls.len() > 0,
        forall|i: int| 0 <= i < ls.len() ==> no_breaks(#[trigger] ls[i]),
    ensures
        split_lines(join_lines(ls) + seq!['\n']) == ls,
    decreases ls.len(),
{
    let a = ls[0];
    let rest = ls.drop_first();
    assert(ls =~= seq![a] + rest);
    lemma_join_front(a, rest);
    let t = join_lines(ls) + seq!['\n'];
    assert(no_breaks(a));
    assert(forall|j: int| 0 <= j < a.len() ==> t[j] == a[j]);
    assert(t[a.len() as int] == '\n');
    lemma_line_len(t, a.len() as int);
    assert(t.take(a.len() as int) =~= a);
    assert(strip_cr(a) == a) by {
        if a.len() > 0 {
            assert(a[a.len() - 1] != '\r');
        }
    }
    if rest.len() == 0 {
        assert(t.skip(a.len() as int + 1) =~= Seq::<char>::empty());
        assert(split_lines(t) == seq![a] + split_lines(Seq::<char>::empty()));
        assert(split_lines(t) =~= ls);
    } else {
        assert forall|i: int| 0 <= i < rest.len() implies no_breaks(#[trigger] rest[i]) by {
            assert(rest[i] == ls[i + 1]);
        }
        lemma_join_then_split(rest);
        assert(t.skip(a.len() as int + 1) =~= join_lines(rest) + seq!['\n']);
        assert(split_lines(t) == seq![a] + split_lines(t.skip(a.len() as int + 1)));
    }
}

/// An escaped text holds no line break.
pub proof fn lemma_escape_text_plain(s: Seq<char>)
    ensures
        no_breaks(escape_text(s)),
    decreases s.len(),
{
    if s.len() > 0 {
        lemma_escape_text_plain(s.drop_last());
        let e = escape_char(s.last());
        assert(no_breaks(e)) by {
            let c = s.last();
            let n = c as u32;
            if n < 32 || n == 127 {
                assert(n / 16 < 16 && n % 16 < 16);
                assert(hex_digit((n / 16) as int) != '\n' && hex_digit((n / 16) as int) != '\r');
                assert(hex_digit((n % 16) as int) != '\n' && hex_digit((n % 16) as int) != '\r');
            }
        }
        let p = escape_text(s.drop_last());
        assert forall|j: int| 0 <= j < escape_text(s).len() implies escape_text(s)[j] != '\n' && escape_text(s)[j] != '\r' by {
            if j < p.len() {
                assert(escape_text(s)[j] == p[j]);
            } else {
                assert(escape_text(s)[j] == e[j - p.len()]);
            }
        }
    }
}

/// A final line ending is optional: a text whose last line is not ended
/// (and does not end in `\r`) has the same lines once `\n` is added.
pub proof fn lemma_final_newline_optional(c: Seq<char>)
    requires
        c.len() > 0,
        c.last() != '\n',
        c.last() != '\r',
    ensures
        split_lines(c.push('\n')) == split_lines(c),
    decreases c.len(),
{
    let d = c.push('\n');
    lemma_line_len_props(c);
    let k = line_len(c) as int;
    if k < c.len() {
        assert(forall|j: int| 0 <= j <= k ==> d[j] == c[j]);
        lemma_line_len(d, k);
        assert(d.take(k) =~= c.take(k));
        let rest = c.skip(k + 1);
        assert(d.skip(k + 1) =~= rest.push('\n'));
        assert(k + 1 < c.len());
        assert(rest.last() == c.last());
        lemma_final_newline_optional(rest);
    } else {
        assert(forall|j: int| 0 <= j < k ==> d[j] == c[j]);
        lemma_line_len(d, k);
        assert(d.take(k) =~= c);
        assert(d.skip(k + 1) =~= Seq::<char>::empty());
        assert(split_lines(d) == seq![strip_cr(c)] + split_lines(Seq::<char>::empty()));
        assert(split_lines(d) =~= seq![c]);
    }
}

} // verus!
