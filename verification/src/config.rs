//! The user's configuration and the text edits made to the configuration file.

use vstd::prelude::*;
use crate::vars::Variables;
use crate::lines::{
    is_white, trim_start, trim_end, lemma_trim_start, lemma_trim_end,
    file_text, split_lines, trim, trim_range, lines_of, text_of_lines, escape_text, push_escaped,
    join_lines, no_breaks, lemma_split_then_join, lemma_join_then_split, lemma_escape_text_plain,
};
use crate::text::{chars_of, owned, starts_with};

verus! {

/// The user's configuration.
#[derive(Debug)]
pub struct Config {
    /// Default values of template variables.
    pub defaults: Variables,
    /// Short names for templates (`alias -> template`).
    pub aliases: Variables,
    /// Where templates are cached; a leading `~/` stands for the home directory.
    pub cache_dir: Option<String>,
    /// Token for private GitHub repositories.
    pub github_token: Option<String>,
    /// Whether generated projects get a fresh `git init`.
    pub init_git: bool,
    /// Whether templates' `post_create` hooks run.
    pub run_hooks: bool,
    /// Program that opens a generated project.
    pub open_with: Option<String>,
}

impl Default for Config {
    fn default() -> (r: Self)
        ensures
            r.defaults@ == Map::<Seq<char>, Seq<char>>::empty(),
            r.aliases@ == Map::<Seq<char>, Seq<char>>::empty(),
            r.cache_dir is None,
            r.github_token is None,
            !r.init_git,
            !r.run_hooks,
            r.open_with is None,
    {
        Config {
            defaults: Variables::new(),
            aliases: Variables::new(),
            cache_dir: None,
            github_token: None,
            init_git: false,
            run_hooks: false,
            open_with: None,
        }
    }
}

/// The header line of `table`: `[table]`.
pub open spec fn header_of(table: Seq<char>) -> Seq<char> {
    seq!['['] + table + seq![']']
}

/// The line that sets `key` to the quoted, escaped `value`.
pub open spec fn entry_of(key: Seq<char>, value: Seq<char>) -> Seq<char> {
    key + seq![' ', '=', ' ', '"'] + escape_text(value) + seq!['"']
}

/// The line starts a table section: trimmed, it begins with `[`.
pub open spec fn opens_section(line: Seq<char>) -> bool {
    trim(line).len() > 0 && trim(line)[0] == '['
}

/// The line sets `key`: trimmed, it begins with `key =`, followed by
/// something other than white space.
pub open spec fn sets_key(line: Seq<char>, key: Seq<char>) -> bool {
    let t = trim(line);
    let p = key + seq![' ', '='];
    p.is_prefix_of(t) && trim(t.skip(p.len() as int)).len() > 0
}

/// The part of `t` before its first `c` (all of `t` when it has none).
pub open spec fn before_char(t: Seq<char>, c: char) -> Seq<char>
    decreases t.len(),
{
    if t.len() == 0 || t[0] == c {
        seq![]
    } else {
        seq![t[0]] + before_char(t.drop_first(), c)
    }
}

/// The line names `key`: trimmed, its part before the first `=`, trimmed, is `key`.
pub open spec fn names_key(line: Seq<char>, key: Seq<char>) -> bool {
    trim(before_char(trim(line), '=')) == key
}

/// The first line at or after `i` whose trimmed text is `header`, or the number of lines.
pub open spec fn header_index(lines: Seq<Seq<char>>, header: Seq<char>, i: int) -> int
    decreases lines.len() - i,
{
    if i < 0 || i >= lines.len() {
        lines.len() as int
    } else if trim(lines[i]) == header {
        i
    } else {
        header_index(lines, header, i + 1)
    }
}

/// The first line at or after `i` that starts a section, or the number of lines.
pub open spec fn section_end(lines: Seq<Seq<char>>, i: int) -> int
    decreases lines.len() - i,
{
    if i < 0 || i >= lines.len() {
        lines.len() as int
    } else if opens_section(lines[i]) {
        i
    } else {
        section_end(lines, i + 1)
    }
}

/// The last line in `lo..hi` that sets `key`.
pub open spec fn last_key_line(lines: Seq<Seq<char>>, key: Seq<char>, lo: int, hi: int) -> Option<int>
    decreases hi - lo,
{
    if hi <= lo {
        None
    } else if sets_key(lines[hi - 1], key) {
        Some(hi - 1)
    } else {
        last_key_line(lines, key, lo, hi - 1)
    }
}

/// The first line in `i..end` that names `key`.
pub open spec fn first_named(lines: Seq<Seq<char>>, key: Seq<char>, i: int, end: int) -> Option<int>
    decreases end - i,
{
    if i >= end {
        None
    } else if names_key(lines[i], key) {
        Some(i)
    } else {
        first_named(lines, key, i + 1, end)
    }
}

/// The lines after setting `key` to `value` in `table`: the last line of the
/// table's section that sets `key` is replaced; failing that the entry goes
/// at the end of the section; failing a section, one is appended.
pub open spec fn patched_lines(lines: Seq<Seq<char>>, table: Seq<char>, key: Seq<char>, value: Seq<char>) -> Seq<Seq<char>> {
    let header = header_of(table);
    let entry = entry_of(key, value);
    let h = header_index(lines, header, 0);
    if h < lines.len() {
        let end = section_end(lines, h + 1);
        match last_key_line(lines, key, h + 1, end) {
            Some(k) => lines.update(k, entry),
            None => lines.insert(end, entry),
        }
    } else {
        let base = if lines.len() > 0 && lines.last().len() > 0 {
            lines.push(seq![])
        } else {
            lines
        };
        base + seq![header, entry, seq![]]
    }
}

/// The lines after removing `key` from `table`: the first line of the
/// table's section that names it; `None` when there is no such line.
pub open spec fn removed_lines(lines: Seq<Seq<char>>, table: Seq<char>, key: Seq<char>) -> Option<Seq<Seq<char>>> {
    let h = header_index(lines, header_of(table), 0);
    if h < lines.len() {
        match first_named(lines, key, h + 1, section_end(lines, h + 1)) {
            Some(k) => Some(lines.remove(k)),
            None => None,
        }
    } else {
        None
    }
}

proof fn lemma_header_index(lines: Seq<Seq<char>>, header: Seq<char>, i: int, h: int)
    requires
        0 <= i <= h <= lines.len(),
        forall|j: int| i <= j < h ==> trim(#[trigger] lines[j]) != header,
        h == lines.len() || trim(lines[h]) == header,
    ensures
        header_index(lines, header, i) == h,
    decreases h - i,
{
    if i < h {
        lemma_header_index(lines, header, i + 1, h);
    }
}

proof fn lemma_section_end(lines: Seq<Seq<char>>, i: int, e: int)
    requires
        0 <= i <= e <= lines.len(),
        forall|j: int| i <= j < e ==> !opens_section(#[trigger] lines[j]),
        e == lines.len() || opens_section(lines[e]),
    ensures
        section_end(lines, i) == e,
    decreases e - i,
{
    if i < e {
        lemma_section_end(lines, i + 1, e);
    }
}

proof fn lemma_first_named(lines: Seq<Seq<char>>, key: Seq<char>, i: int, k: int, end: int)
    requires
        0 <= i <= k <= end <= lines.len(),
        forall|j: int| i <= j < k ==> !names_key(#[trigger] lines[j], key),
        k == end || names_key(lines[k], key),
    ensures
        first_named(lines, key, i, end) == (if k < end { Some(k) } else { None::<int> }),
    decreases k - i,
{
    if i < k {
        lemma_first_named(lines, key, i + 1, k, end);
    }
}

/// Whether `v[lo..hi]` holds exactly the characters of `w`.
fn range_eq(v: &Vec<char>, lo: usize, hi: usize, w: &Vec<char>) -> (r: bool)
    requires
        lo <= hi <= v.len(),
    ensures
        r == (v@.subrange(lo as int, hi as int) == w@),
{
    if hi - lo != w.len() {
        return false;
    }
    let mut i: usize = 0;
    while i < w.len()
        invariant
            hi - lo == w.len(),
            lo <= hi <= v.len(),
            i <= w.len(),
            forall|j: int| 0 <= j < i ==> v@[lo + j] == w@[j],
        decreases w.len() - i,
    {
        if v[lo + i] != w[i] {
            return false;
        }
        i += 1;
    }
    assert(v@.subrange(lo as int, hi as int) =~= w@);
    true
}

/// Whether `w` is a prefix of `v[lo..hi]`.
fn range_starts_with(v: &Vec<char>, lo: usize, hi: usize, w: &Vec<char>) -> (r: bool)
    requires
        lo <= hi <= v.len(),
    ensures
        r == w@.is_prefix_of(v@.subrange(lo as int, hi as int)),
{
    if hi - lo < w.len() {
        return false;
    }
    let mut i: usize = 0;
    while i < w.len()
        invariant
            hi - lo >= w.len(),
            lo <= hi <= v.len(),
            i <= w.len(),
            forall|j: int| 0 <= j < i ==> v@[lo + j] == w@[j],
        decreases w.len() - i,
    {
        if v[lo + i] != w[i] {
            assert(v@.subrange(lo as int, hi as int)[i as int] == v@[lo + i]);
            return false;
        }
        i += 1;
    }
    true
}

/// Whether the trimmed `line` is `header`.
fn is_header_line(line: &Vec<char>, header: &Vec<char>) -> (r: bool)
    ensures
        r == (trim(line@) == header@),
{
    let (a, b) = trim_range(line, 0, line.len());
    assert(line@.subrange(0, line@.len() as int) =~= line@);
    range_eq(line, a, b, header)
}

/// Whether `line` starts a section.
fn starts_section(line: &Vec<char>) -> (r: bool)
    ensures
        r == opens_section(line@),
{
    let (a, b) = trim_range(line, 0, line.len());
    assert(line@.subrange(0, line@.len() as int) =~= line@);
    a < b && line[a] == '['
}

/// Whether `line` sets `key`; `prefix` is `key =`.
fn is_key_line(line: &Vec<char>, key: &Vec<char>, prefix: &Vec<char>) -> (r: bool)
    requires
        prefix@ == key@ + seq![' ', '='],
    ensures
        r == sets_key(line@, key@),
{
    let (a, b) = trim_range(line, 0, line.len());
    assert(line@.subrange(0, line@.len() as int) =~= line@);
    let ghost t = line@.subrange(a as int, b as int);
    if !range_starts_with(line, a, b, prefix) {
        return false;
    }
    let (c, d) = trim_range(line, a + prefix.len(), b);
    assert(t.skip(prefix@.len() as int) =~= line@.subrange(a + prefix.len(), b as int));
    c < d
}

/// Whether `line` names `key`.
fn is_named_line(line: &Vec<char>, key: &Vec<char>) -> (r: bool)
    ensures
        r == names_key(line@, key@),
{
    let (a, b) = trim_range(line, 0, line.len());
    assert(line@.subrange(0, line@.len() as int) =~= line@);
    let ghost t = line@.subrange(a as int, b as int);
    let mut e = a;
    assert(t.skip(0) =~= t);
    assert(line@.subrange(a as int, a as int) =~= Seq::<char>::empty());
    while e < b && line[e] != '='
        invariant
            a <= e <= b <= line.len(),
            t == line@.subrange(a as int, b as int),
            before_char(t, '=') == line@.subrange(a as int, e as int) + before_char(t.skip(e - a), '='),
        decreases b - e,
    {
        proof {
            let u = t.skip(e - a);
            assert(u[0] == line@[e as int]);
            assert(u.drop_first() =~= t.skip(e + 1 - a));
            assert(line@.subrange(a as int, e as int) + seq![u[0]] =~= line@.subrange(a as int, e + 1));
        }
        e += 1;
    }
    proof {
        let u = t.skip(e - a);
        if e < b {
            assert(u[0] == '=');
        }
        assert(before_char(u, '=') == Seq::<char>::empty());
        assert(before_char(t, '=') =~= line@.subrange(a as int, e as int));
    }
    let (c, d) = trim_range(line, a, e);
    range_eq(line, c, d, key)
}

/// `v` with `w` appended.
fn append_chars(v: &mut Vec<char>, w: &Vec<char>)
    ensures
        final(v)@ == old(v)@ + w@,
{
    let mut i: usize = 0;
    while i < w.len()
        invariant
            i <= w.len(),
            v@ == old(v)@ + w@.take(i as int),
        decreases w.len() - i,
    {
        v.push(w[i]);
        i += 1;
        assert(v@ =~= old(v)@ + w@.take(i as int));
    }
    assert(w@.take(w.len() as int) =~= w@);
}

/// The text of the configuration file `content` after setting `key` to
/// `value` in table `table`, every other line kept as it was.
pub fn patch_table_entry(content: &str, table: &str, key: &str, value: &str) -> (r: String)
    ensures
        r@ == file_text(patched_lines(split_lines(content@), table@, key@, value@)),
{
    let text = chars_of(content);
    let mut lines = lines_of(&text);
    let ghost ls = split_lines(content@);
    let key_chars = chars_of(key);
    let mut header: Vec<char> = Vec::new();
    header.push('[');
    append_chars(&mut header, &chars_of(table));
    header.push(']');
    assert(header@ =~= header_of(table@));
    let mut entry: Vec<char> = Vec::new();
    append_chars(&mut entry, &key_chars);
    entry.push(' ');
    entry.push('=');
    entry.push(' ');
    entry.push('"');
    let value_chars = chars_of(value);
    let mut vi: usize = 0;
    while vi < value_chars.len()
        invariant
            vi <= value_chars.len(),
            entry@ == key@ + seq![' ', '=', ' ', '"'] + escape_text(value_chars@.take(vi as int)),
        decreases value_chars.len() - vi,
    {
        push_escaped(&mut entry, value_chars[vi]);
        proof {
            let t = value_chars@.take(vi + 1);
            assert(t.drop_last() =~= value_chars@.take(vi as int));
        }
        vi += 1;
    }
    assert(value_chars@.take(value_chars.len() as int) =~= value@);
    entry.push('"');
    assert(entry@ =~= entry_of(key@, value@));
    let mut prefix: Vec<char> = Vec::new();
    append_chars(&mut prefix, &key_chars);
    prefix.push(' ');
    prefix.push('=');

    let mut h: usize = 0;
    while h < lines.len() && !is_header_line(&lines[h], &header)
        invariant
            h <= lines.len(),
            lines@.map_values(|l: Vec<char>| l@) == ls,
            forall|j: int| 0 <= j < h ==> trim(#[trigger] ls[j]) != header@,
        decreases lines.len() - h,
    {
        h += 1;
    }
    proof {
        if h < lines.len() {
            assert(ls[h as int] == lines@[h as int]@);
        }
        lemma_header_index(ls, header@, 0, h as int);
    }
    if h < lines.len() {
        let mut existing: Option<usize> = None;
        let mut insert_at = h + 1;
        let mut i = h + 1;
        loop
            invariant_except_break
                i < lines.len() ==> insert_at == h + 1,
            invariant
                lines@.map_values(|l: Vec<char>| l@) == ls,
                h < lines.len(),
                h + 1 <= i <= lines.len(),
                i == lines.len() ==> insert_at == i,
                forall|j: int| h + 1 <= j < i ==> !opens_section(#[trigger] ls[j]),
                match existing {
                    Some(e) => last_key_line(ls, key@, h + 1, i as int) == Some(e as int),
                    None => last_key_line(ls, key@, h + 1, i as int) is None,
                },
                prefix@ == key@ + seq![' ', '='],
                key_chars@ == key@,
                entry@ == entry_of(key@, value@),
            ensures
                insert_at == section_end(ls, h + 1),
                match existing {
                    Some(e) => last_key_line(ls, key@, h + 1, insert_at as int) == Some(e as int),
                    None => last_key_line(ls, key@, h + 1, insert_at as int) is None,
                },
            decreases lines.len() - i,
        {
            if i >= lines.len() {
                proof {
                    lemma_section_end(ls, h + 1, i as int);
                }
                break;
            }
            assert(ls[i as int] == lines@[i as int]@);
            if starts_section(&lines[i]) {
                insert_at = i;
                proof {
                    lemma_section_end(ls, h + 1, i as int);
                }
                break;
            }
            if is_key_line(&lines[i], &key_chars, &prefix) {
                existing = Some(i);
            }
            i += 1;
            if i == lines.len() {
                insert_at = i;
            }
        }
        proof {
            lemma_last_key_line_bounds(ls, key@, h + 1, insert_at as int);
            lemma_section_end_bounds(ls, h + 1);
        }
        match existing {
            Some(ei) => {
                let ghost old_lines = lines@;
                lines.set(ei, entry);
                assert(lines@.map_values(|l: Vec<char>| l@) =~= ls.update(ei as int, entry_of(key@, value@)));
            },
            None => {
                let ghost old_lines = lines@;
                lines.insert(insert_at, entry);
                assert(lines@.map_values(|l: Vec<char>| l@) =~= ls.insert(insert_at as int, entry_of(key@, value@)));
            },
        }
    } else {
        let ghost base = if ls.len() > 0 && ls.last().len() > 0 {
            ls.push(seq![])
        } else {
            ls
        };
        if lines.len() > 0 && lines[lines.len() - 1].len() > 0 {
            lines.push(Vec::new());
        }
        assert(lines@.map_values(|l: Vec<char>| l@) =~= base);
        lines.push(header);
        lines.push(entry);
        lines.push(Vec::new());
        assert(lines@.map_values(|l: Vec<char>| l@) =~= base + seq![header_of(table@), entry_of(key@, value@), seq![]]);
    }
    text_of_lines(&lines)
}

/// The text of the configuration file `content` after removing the first
/// line of table `table` that names `key`; `None` when no line does, in
/// which case the file is left as it is.
pub fn remove_table_entry(content: &str, table: &str, key: &str) -> (r: Option<String>)
    ensures
        match removed_lines(split_lines(content@), table@, key@) {
            Some(ls) => r matches Some(t) && t@ == file_text(ls),
            None => r is None,
        },
{
    let text = chars_of(content);
    let mut lines = lines_of(&text);
    let ghost ls = split_lines(content@);
    let key_chars = chars_of(key);
    let mut header: Vec<char> = Vec::new();
    header.push('[');
    append_chars(&mut header, &chars_of(table));
    header.push(']');
    assert(header@ =~= header_of(table@));

    let mut h: usize = 0;
    while h < lines.len() && !is_header_line(&lines[h], &header)
        invariant
            h <= lines.len(),
            lines@.map_values(|l: Vec<char>| l@) == ls,
            forall|j: int| 0 <= j < h ==> trim(#[trigger] ls[j]) != header@,
        decreases lines.len() - h,
    {
        h += 1;
    }
    proof {
        if h < lines.len() {
            assert(ls[h as int] == lines@[h as int]@);
        }
        lemma_header_index(ls, header@, 0, h as int);
    }
    assert(ls.len() == lines@.len());
    if h >= lines.len() {
        return None;
    }
    let mut i = h + 1;
    while i < lines.len()
        invariant
            lines@.map_values(|l: Vec<char>| l@) == ls,
            h < lines.len(),
            h + 1 <= i <= lines.len(),
            header_index(ls, header_of(table@), 0) == h,
            key_chars@ == key@,
            ls.len() == lines@.len(),
            ls == split_lines(content@),
            forall|j: int| h + 1 <= j < i ==> !opens_section(#[trigger] ls[j]) && !names_key(ls[j], key@),
        decreases lines.len() - i,
    {
        assert(ls[i as int] == lines@[i as int]@);
        if starts_section(&lines[i]) {
            proof {
                lemma_section_end(ls, h + 1, i as int);
                lemma_first_named(ls, key@, h + 1, i as int, i as int);
            }
            return None;
        }
        if is_named_line(&lines[i], &key_chars) {
            proof {
                let e = section_end(ls, h + 1);
                assert(i < e) by {
                    lemma_section_end_after(ls, h + 1, i as int);
                }
                lemma_section_end_bounds(ls, h + 1);
                lemma_first_named(ls, key@, h + 1, i as int, e);
            }
            lines.remove(i);
            assert(lines@.map_values(|l: Vec<char>| l@) =~= ls.remove(i as int));
            return Some(text_of_lines(&lines));
        }
        i += 1;
    }
    proof {
        lemma_section_end(ls, h + 1, i as int);
        lemma_first_named(ls, key@, h + 1, i as int, i as int);
    }
    None
}

/// No section starts in `i..=k`, so the section that contains `i` ends after `k`.
proof fn lemma_section_end_after(lines: Seq<Seq<char>>, i: int, k: int)
    requires
        0 <= i <= k < lines.len(),
        forall|j: int| i <= j <= k ==> !opens_section(#[trigger] lines[j]),
    ensures
        k < section_end(lines, i),
    decreases k - i,
{
    if i < k {
        lemma_section_end_after(lines, i + 1, k);
    } else {
        lemma_section_end_bounds(lines, k + 1);
    }
}

/// A section that contains line `i` ends at or after it, and within the lines.
pub proof fn lemma_section_end_bounds(lines: Seq<Seq<char>>, i: int)
    requires
        0 <= i <= lines.len(),
    ensures
        i <= section_end(lines, i) <= lines.len(),
    decreases lines.len() - i,
{
    if i < lines.len() {
        lemma_section_end_bounds(lines, i + 1);
    }
}

/// The line found by `last_key_line` lies in the range searched.
pub proof fn lemma_last_key_line_bounds(lines: Seq<Seq<char>>, key: Seq<char>, lo: int, hi: int)
    ensures
        last_key_line(lines, key, lo, hi) matches Some(k) ==> lo <= k < hi,
    decreases hi - lo,
{
    if hi > lo {
        lemma_last_key_line_bounds(lines, key, lo, hi - 1);
    }
}

/// A path to build: `base` joined with each of `parts` in turn.
pub struct PathPlan {
    pub base: String,
    pub parts: Vec<String>,
}

/// The texts of a path plan: its base and its parts.
pub open spec fn plan_model(p: PathPlan) -> (Seq<char>, Seq<Seq<char>>) {
    (p.base@, p.parts@.map_values(|s: String| s@))
}

/// Where the configuration file is: `INHERIT_CONFIG` when set (`env_path`),
/// else `inherit/config.toml` in the user's configuration directory.
pub fn config_path(env_path: Option<String>, config_dir: Option<String>) -> (r: Result<PathPlan, String>)
    ensures
        match env_path {
            Some(p) => r matches Ok(plan) && plan_model(plan) == (p@, Seq::<Seq<char>>::empty()),
            None => match config_dir {
                Some(d) => r matches Ok(plan) && plan_model(plan) == (d@, seq!["inherit"@, "config.toml"@]),
                None => r matches Err(e) && e@ == "Cannot determine config directory"@,
            },
        },
{
    match env_path {
        Some(p) => {
            let r = PathPlan { base: p, parts: Vec::new() };
            assert(plan_model(r).1 =~= Seq::<Seq<char>>::empty());
            Ok(r)
        },
        None => match config_dir {
            Some(d) => {
                let mut parts: Vec<String> = Vec::new();
                parts.push(owned("inherit"));
                parts.push(owned("config.toml"));
                let r = PathPlan { base: d, parts };
                assert(plan_model(r).1 =~= seq!["inherit"@, "config.toml"@]);
                Ok(r)
            },
            None => Err(owned("Cannot determine config directory")),
        },
    }
}

/// Where templates are cached: `INHERIT_CACHE_DIR` when set (`env_dir`);
/// else the configured directory, a leading `~/` standing for the home
/// directory; else `inherit` in the user's cache directory.
pub fn cache_dir(cfg: &Config, env_dir: Option<String>, home_dir: Option<String>, cache_base: Option<String>) -> (r: Result<PathPlan, String>)
    ensures
        match env_dir {
            Some(p) => r matches Ok(plan) && plan_model(plan) == (p@, Seq::<Seq<char>>::empty()),
            None => match cfg.cache_dir {
                Some(c) => if "~/"@.is_prefix_of(c@) {
                    match home_dir {
                        Some(h) => r matches Ok(plan) && plan_model(plan) == (h@, seq![c@.skip(2)]),
                        None => r matches Err(e) && e@ == "No home directory"@,
                    }
                } else {
                    r matches Ok(plan) && plan_model(plan) == (c@, Seq::<Seq<char>>::empty())
                },
                None => match cache_base {
                    Some(b) => r matches Ok(plan) && plan_model(plan) == (b@, seq!["inherit"@]),
                    None => r matches Err(e) && e@ == "Cannot determine cache directory"@,
                },
            },
        },
{
    if let Some(p) = env_dir {
        let r = PathPlan { base: p, parts: Vec::new() };
        assert(plan_model(r).1 =~= Seq::<Seq<char>>::empty());
        return Ok(r);
    }
    match &cfg.cache_dir {
        Some(c) => {
            if starts_with(c.as_str(), "~/") {
                match home_dir {
                    Some(h) => {
                        let v = chars_of(c.as_str());
                        proof {
                            assert("~/"@.len() == 2) by {
                                reveal_strlit("~/");
                            }
                        }
                        let rest = crate::text::string_of_range(&v, 2, v.len());
                        let mut parts: Vec<String> = Vec::new();
                        parts.push(rest);
                        let r = PathPlan { base: h, parts };
                        assert(plan_model(r).1 =~= seq![c@.skip(2)]);
                        Ok(r)
                    },
                    None => Err(owned("No home directory")),
                }
            } else {
                let r = PathPlan { base: c.clone(), parts: Vec::new() };
                assert(plan_model(r).1 =~= Seq::<Seq<char>>::empty());
                Ok(r)
            }
        },
        None => match cache_base {
            Some(b) => {
                let mut parts: Vec<String> = Vec::new();
                parts.push(owned("inherit"));
                let r = PathPlan { base: b, parts };
                assert(plan_model(r).1 =~= seq!["inherit"@]);
                Ok(r)
            },
            None => Err(owned("Cannot determine cache directory")),
        },
    }
}

proof fn lemma_trim_start_len(s: Seq<char>)
    ensures
        trim_start(s).len() <= s.len(),
    decreases s.len(),
{
    if s.len() > 0 && is_white(s[0]) {
        lemma_trim_start_len(s.drop_first());
    }
}

proof fn lemma_trim_end_len(s: Seq<char>)
    ensures
        trim_end(s).len() <= s.len(),
    decreases s.len(),
{
    if s.len() > 0 && is_white(s.last()) {
        lemma_trim_end_len(s.drop_last());
    }
}

/// A text with non-white ends is its own trim.
proof fn lemma_trim_identity(s: Seq<char>)
    requires
        s.len() > 0,
        !is_white(s[0]),
        !is_white(s.last()),
    ensures
        trim(s) == s,
{
    lemma_trim_start(s, 0);
    assert(s.skip(0) =~= s);
    lemma_trim_end(s, s.len() as int);
    assert(s.take(s.len() as int) =~= s);
}

/// A non-empty text that is its own trim has non-white ends.
proof fn lemma_trimmed_ends(s: Seq<char>)
    requires
        s.len() > 0,
        trim(s) == s,
    ensures
        !is_white(s[0]),
        !is_white(s.last()),
{
    if is_white(s[0]) {
        lemma_trim_start_len(s.drop_first());
        lemma_trim_end_len(trim_start(s.drop_first()));
    }
    assert(trim_start(s) == s);
    if is_white(s.last()) {
        lemma_trim_end_len(s.drop_last());
    }
}

/// A trimmed key followed by a space trims back to the key.
proof fn lemma_trim_key_space(key: Seq<char>)
    requires
        trim(key) == key,
    ensures
        trim(key + seq![' ']) == key,
{
    let t = key + seq![' '];
    if key.len() == 0 {
        assert(t.drop_first() =~= Seq::<char>::empty());
        assert(trim_start(t) == trim_start(t.drop_first()));
        assert(trim_start(Seq::<char>::empty()) == Seq::<char>::empty());
        assert(trim_end(Seq::<char>::empty()) == Seq::<char>::empty());
    } else {
        lemma_trimmed_ends(key);
        assert(t[0] == key[0]);
        lemma_trim_start(t, 0);
        assert(t.skip(0) =~= t);
        assert(t.drop_last() =~= key);
        assert(trim_end(t) == trim_end(key));
        lemma_trim_end(key, key.len() as int);
        assert(key.take(key.len() as int) =~= key);
    }
}

/// The part before `c` of a text that starts with a part free of `c`.
proof fn lemma_before_char_concat(a: Seq<char>, b: Seq<char>, c: char)
    requires
        !a.contains(c),
    ensures
        before_char(a + b, c) == a + before_char(b, c),
    decreases a.len(),
{
    if a.len() == 0 {
        assert(a + b =~= b);
    } else {
        assert(a[0] != c) by {
            assert(a.contains(a[0]));
        }
        assert((a + b).drop_first() =~= a.drop_first() + b);
        assert(!a.drop_first().contains(c)) by {
            if a.drop_first().contains(c) {
                let j = choose|j: int| 0 <= j < a.drop_first().len() && a.drop_first()[j] == c;
                assert(a[j + 1] == c);
            }
        }
        lemma_before_char_concat(a.drop_first(), b, c);
        assert(seq![a[0]] + (a.drop_first() + before_char(b, c)) =~= a + before_char(b, c));
    }
}

/// What `header_index` finds: the first header line at or after `i`.
proof fn lemma_header_index_props(lines: Seq<Seq<char>>, header: Seq<char>, i: int)
    requires
        0 <= i <= lines.len(),
    ensures
        i <= header_index(lines, header, i) <= lines.len(),
        forall|j: int| i <= j < header_index(lines, header, i) ==> trim(#[trigger] lines[j]) != header,
        header_index(lines, header, i) < lines.len() ==> trim(lines[header_index(lines, header, i)]) == header,
    decreases lines.len() - i,
{
    if i < lines.len() && trim(lines[i]) != header {
        lemma_header_index_props(lines, header, i + 1);
    }
}

/// What `section_end` finds: the first section start at or after `i`.
proof fn lemma_section_end_props(lines: Seq<Seq<char>>, i: int)
    requires
        0 <= i <= lines.len(),
    ensures
        i <= section_end(lines, i) <= lines.len(),
        forall|j: int| i <= j < section_end(lines, i) ==> !opens_section(#[trigger] lines[j]),
        section_end(lines, i) < lines.len() ==> opens_section(lines[section_end(lines, i)]),
    decreases lines.len() - i,
{
    if i < lines.len() && !opens_section(lines[i]) {
        lemma_section_end_props(lines, i + 1);
    }
}

proof fn lemma_last_key_line_props(lines: Seq<Seq<char>>, key: Seq<char>, lo: int, hi: int)
    ensures
        last_key_line(lines, key, lo, hi) matches Some(k) ==> lo <= k < hi && sets_key(lines[k], key),
    decreases hi - lo,
{
    if hi > lo && !sets_key(lines[hi - 1], key) {
        lemma_last_key_line_props(lines, key, lo, hi - 1);
    }
}

proof fn lemma_first_named_none(lines: Seq<Seq<char>>, key: Seq<char>, i: int, end: int)
    requires
        first_named(lines, key, i, end) is None,
    ensures
        forall|j: int| i <= j < end ==> !names_key(#[trigger] lines[j], key),
    decreases end - i,
{
    if i < end {
        lemma_first_named_none(lines, key, i + 1, end);
    }
}

/// The header line of a table is its own trim.
proof fn lemma_header_trimmed(table: Seq<char>)
    ensures
        trim(header_of(table)) == header_of(table),
        header_of(table).len() > 0,
{
    let h = header_of(table);
    assert(h[0] == '[');
    assert(h.last() == ']');
    lemma_trim_identity(h);
}

/// Setting a key puts its entry line into the table's section, the first
/// section under that header, and keeps every other line: the other lines
/// are unchanged when the key was set before, otherwise the entry is
/// inserted, or, when the table is missing, appended with a new header.
pub proof fn lemma_patch_places_entry(lines: Seq<Seq<char>>, table: Seq<char>, key: Seq<char>, value: Seq<char>) -> (k: int)
    requires
        !opens_section(entry_of(key, value)),
    ensures
        ({
            let p = patched_lines(lines, table, key, value);
            let h = header_index(p, header_of(table), 0);
            &&& h < p.len()
            &&& h < k < section_end(p, h + 1)
            &&& p[k] == entry_of(key, value)
            &&& p == lines.update(k, entry_of(key, value)) || p.remove(k) == lines
                || (lines.is_prefix_of(p) && header_index(lines, header_of(table), 0) == lines.len())
        }),
{
    let header = header_of(table);
    let entry = entry_of(key, value);
    let p = patched_lines(lines, table, key, value);
    lemma_header_index_props(lines, header, 0);
    lemma_header_trimmed(table);
    let h = header_index(lines, header, 0);
    if h < lines.len() {
        lemma_section_end_props(lines, h + 1);
        let e = section_end(lines, h + 1);
        lemma_last_key_line_props(lines, key, h + 1, e);
        match last_key_line(lines, key, h + 1, e) {
            Some(k) => {
                assert(p == lines.update(k, entry));
                assert forall|j: int| 0 <= j < h implies trim(#[trigger] p[j]) != header by {
                    assert(p[j] == lines[j]);
                }
                lemma_header_index(p, header, 0, h);
                assert forall|j: int| h + 1 <= j < e implies !opens_section(#[trigger] p[j]) by {
                    if j != k {
                        assert(p[j] == lines[j]);
                    }
                }
                if e < lines.len() {
                    assert(p[e] == lines[e]);
                }
                lemma_section_end(p, h + 1, e);
                k
            },
            None => {
                assert(p == lines.insert(e, entry));
                assert forall|j: int| 0 <= j < h implies trim(#[trigger] p[j]) != header by {
                    assert(p[j] == lines[j]);
                }
                assert(p[h] == lines[h]);
                lemma_header_index(p, header, 0, h);
                assert forall|j: int| h + 1 <= j <= e implies !opens_section(#[trigger] p[j]) by {
                    if j < e {
                        assert(p[j] == lines[j]);
                    }
                }
                lemma_section_end_after(p, h + 1, e);
                assert(p.remove(e) =~= lines);
                e
            },
        }
    } else {
        let base = if lines.len() > 0 && lines.last().len() > 0 {
            lines.push(seq![])
        } else {
            lines
        };
        assert(p == base + seq![header, entry, seq![]]);
        let b = base.len() as int;
        assert forall|j: int| 0 <= j < b implies trim(#[trigger] p[j]) != header by {
            if j < lines.len() {
                assert(p[j] == lines[j]);
            } else {
                assert(p[j] == Seq::<char>::empty());
                assert(trim_start(Seq::<char>::empty()) == Seq::<char>::empty());
                assert(trim_end(Seq::<char>::empty()) == Seq::<char>::empty());
            }
        }
        assert(p[b] == header);
        lemma_header_index(p, header, 0, b);
        assert(p[b + 1] == entry);
        lemma_section_end_after(p, b + 1, b + 1);
        assert(lines.is_prefix_of(p)) by {
            assert forall|j: int| 0 <= j < lines.len() implies p[j] == lines[j] by {}
        }
        b + 1
    }
}

/// A line that sets a key also names it, for a key without `=` and without
/// surrounding white space.
proof fn lemma_sets_key_names_key(line: Seq<char>, key: Seq<char>)
    requires
        sets_key(line, key),
        !key.contains('='),
        trim(key) == key,
    ensures
        names_key(line, key),
{
    let t = trim(line);
    let pre = key + seq![' ', '='];
    assert(t =~= key + seq![' '] + t.skip(key.len() + 1 as int)) by {
        assert forall|j: int| 0 <= j < key.len() + 1 implies t[j] == pre[j] by {}
    }
    assert(!(key + seq![' ']).contains('=')) by {
        if (key + seq![' ']).contains('=') {
            let j = choose|j: int| 0 <= j < key.len() + 1 && (key + seq![' '])[j] == '=';
            if j < key.len() {
                assert(key[j] == '=');
                assert(key.contains('='));
            }
        }
    }
    lemma_before_char_concat(key + seq![' '], t.skip(key.len() + 1 as int), '=');
    assert(t.take(pre.len() as int)[key.len() + 1 as int] == pre[key.len() + 1 as int]);
    assert(t.skip(key.len() + 1 as int)[0] == '=');
    assert(before_char(t.skip(key.len() + 1 as int), '=') == Seq::<char>::empty());
    assert(before_char(t, '=') =~= key + seq![' ']);
    lemma_trim_key_space(key);
}

/// The entry line written for a key names that key, for a key without `=`
/// and without surrounding white space.
proof fn lemma_entry_names_key(key: Seq<char>, value: Seq<char>)
    requires
        !key.contains('='),
        trim(key) == key,
    ensures
        names_key(entry_of(key, value), key),
{
    let entry = entry_of(key, value);
    let rest = seq!['=', ' ', '"'] + escape_text(value) + seq!['"'];
    assert(entry =~= key + seq![' '] + rest);
    assert(entry.last() == '"');
    if key.len() == 0 {
        assert(entry.drop_first() =~= rest);
        assert(trim_start(entry) == trim_start(rest));
        lemma_trim_start(rest, 0);
        assert(rest.skip(0) =~= rest);
        lemma_trim_end(rest, rest.len() as int);
        assert(rest.take(rest.len() as int) =~= rest);
        assert(trim(entry) == rest);
        assert(before_char(rest, '=') == Seq::<char>::empty());
        assert(trim_start(Seq::<char>::empty()) == Seq::<char>::empty());
        assert(trim_end(Seq::<char>::empty()) == Seq::<char>::empty());
        assert(trim(Seq::<char>::empty()) =~= key);
    } else {
        lemma_trimmed_ends(key);
        assert(entry[0] == key[0]);
        lemma_trim_identity(entry);
        assert(!(key + seq![' ']).contains('=')) by {
            if (key + seq![' ']).contains('=') {
                let j = choose|j: int| 0 <= j < key.len() + 1 && (key + seq![' '])[j] == '=';
                if j < key.len() {
                    assert(key[j] == '=');
                    assert(key.contains('='));
                }
            }
        }
        lemma_before_char_concat(key + seq![' '], rest, '=');
        assert(before_char(rest, '=') == Seq::<char>::empty());
        assert(before_char(entry, '=') =~= key + seq![' ']);
        lemma_trim_key_space(key);
    }
}

/// Removing a key undoes setting it: when the table exists and none of
/// its lines names the key, setting the key and then removing it gives the
/// lines back as they were (for a key without `=` or surrounding white space,
/// whose entry line does not look like a section header).
pub proof fn lemma_remove_undoes_patch(lines: Seq<Seq<char>>, table: Seq<char>, key: Seq<char>, value: Seq<char>)
    requires
        header_index(lines, header_of(table), 0) < lines.len(),
        first_named(
            lines,
            key,
            header_index(lines, header_of(table), 0) + 1,
            section_end(lines, header_index(lines, header_of(table), 0) + 1),
        ) is None,
        !opens_section(entry_of(key, value)),
        !key.contains('='),
        trim(key) == key,
    ensures
        removed_lines(patched_lines(lines, table, key, value), table, key) == Some(lines),
{
    let header = header_of(table);
    let entry = entry_of(key, value);
    let h = header_index(lines, header, 0);
    lemma_header_index_props(lines, header, 0);
    lemma_section_end_props(lines, h + 1);
    let e = section_end(lines, h + 1);
    lemma_first_named_none(lines, key, h + 1, e);
    lemma_last_key_line_props(lines, key, h + 1, e);
    if let Some(k) = last_key_line(lines, key, h + 1, e) {
        lemma_sets_key_names_key(lines[k], key);
    }
    let p = patched_lines(lines, table, key, value);
    assert(p == lines.insert(e, entry));
    lemma_header_trimmed(table);
    assert forall|j: int| 0 <= j < h implies trim(#[trigger] p[j]) != header by {
        assert(p[j] == lines[j]);
    }
    assert(p[h] == lines[h]);
    lemma_header_index(p, header, 0, h);
    assert forall|j: int| h + 1 <= j <= e implies !opens_section(#[trigger] p[j]) by {
        if j < e {
            assert(p[j] == lines[j]);
        }
    }
    lemma_section_end_after(p, h + 1, e);
    lemma_section_end_props(p, h + 1);
    lemma_entry_names_key(key, value);
    assert forall|j: int| h + 1 <= j < e implies !names_key(#[trigger] p[j], key) by {
        assert(p[j] == lines[j]);
    }
    lemma_first_named(p, key, h + 1, e, section_end(p, h + 1));
    assert(p.remove(e) =~= lines);
}

} // verus!

verus! {

/// A line of `lines` that is empty trims to the empty text, so it is no header.
proof fn lemma_empty_line_no_header(lines: Seq<Seq<char>>, table: Seq<char>)
    requires
        header_index(lines, header_of(table), 0) < lines.len(),
        lines.len() == 1,
    ensures
        lines[0].len() > 0,
{
    lemma_header_index_props(lines, header_of(table), 0);
    if lines[0].len() == 0 {
        assert(trim_start(lines[0]) == lines[0]);
        assert(trim_end(lines[0]) == lines[0]);
        assert(trim(lines[0]).len() == 0);
    }
}

/// The entry line holds no line break when its key holds none.
proof fn lemma_entry_plain(key: Seq<char>, value: Seq<char>)
    requires
        no_breaks(key),
    ensures
        no_breaks(entry_of(key, value)),
{
    lemma_escape_text_plain(value);
    let e = entry_of(key, value);
    let esc = escape_text(value);
    assert forall|j: int| 0 <= j < e.len() implies e[j] != '\n' && e[j] != '\r' by {
        if j < key.len() {
            assert(e[j] == key[j]);
        } else if key.len() + 4 <= j < key.len() + 4 + esc.len() {
            assert(e[j] == esc[j - key.len() - 4]);
        }
    }
}

/// Removing a key undoes setting it, on the file's text: for a file without
/// `\r` whose text ends with exactly one `\n`, where the table exists and
/// none of its lines names the key, setting the key and then removing it
/// gives the text back as it was (for a key without `=`, line breaks or
/// surrounding white space, whose entry line does not look like a section
/// header).
pub proof fn lemma_remove_undoes_patch_text(c: Seq<char>, table: Seq<char>, key: Seq<char>, value: Seq<char>)
    requires
        c.len() > 0,
        c.last() == '\n',
        c.len() == 1 || c[c.len() - 2] != '\n',
        forall|i: int| 0 <= i < c.len() ==> c[i] != '\r',
        header_index(split_lines(c), header_of(table), 0) < split_lines(c).len(),
        first_named(
            split_lines(c),
            key,
            header_index(split_lines(c), header_of(table), 0) + 1,
            section_end(split_lines(c), header_index(split_lines(c), header_of(table), 0) + 1),
        ) is None,
        !opens_section(entry_of(key, value)),
        !key.contains('='),
        no_breaks(key),
        trim(key) == key,
    ensures
        removed_lines(split_lines(file_text(patched_lines(split_lines(c), table, key, value))), table, key)
            == Some(split_lines(c)),
        file_text(split_lines(c)) == c,
{
    let l = split_lines(c);
    lemma_split_then_join(c);
    assert(join_lines(l) =~= c.drop_last());
    // The file's own text comes back from its lines.
    if c.len() == 1 {
        assert(join_lines(l).len() == 0);
        assert(file_text(l) =~= c);
    } else {
        assert(join_lines(l).last() == c[c.len() - 2]);
        assert(file_text(l) =~= c);
    }
    // Its last line is not empty.
    if l.len() == 1 {
        lemma_empty_line_no_header(l, table);
    } else if l.last().len() == 0 {
        assert(join_lines(l) == join_lines(l.drop_last()) + seq!['\n'] + l.last());
        assert(join_lines(l).last() == '\n');
        assert(false);
    }
    assert(l.last().len() > 0);
    // The patched lines hold no line break and end with a line that is not empty.
    let entry = entry_of(key, value);
    lemma_entry_plain(key, value);
    let header = header_of(table);
    let h = header_index(l, header, 0);
    lemma_header_index_props(l, header, 0);
    lemma_section_end_bounds(l, h + 1);
    let e = section_end(l, h + 1);
    lemma_last_key_line_bounds(l, key, h + 1, e);
    let p = patched_lines(l, table, key, value);
    match last_key_line(l, key, h + 1, e) {
        Some(k) => {
            assert(p == l.update(k, entry));
            assert forall|i: int| 0 <= i < p.len() implies no_breaks(#[trigger] p[i]) by {
                if i != k {
                    assert(p[i] == l[i]);
                }
            }
            if k != l.len() - 1 {
                assert(p.last() == l.last());
            }
        },
        None => {
            assert(p == l.insert(e, entry));
            assert forall|i: int| 0 <= i < p.len() implies no_breaks(#[trigger] p[i]) by {
                if i < e {
                    assert(p[i] == l[i]);
                } else if i > e {
                    assert(p[i] == l[i - 1]);
                }
            }
            if e < l.len() {
                assert(p.last() == l.last());
            }
        },
    }
    assert(p.len() > 0);
    assert(entry.len() > 0);
    assert(p.last().len() > 0);
    // The patched text splits back into the patched lines.
    assert(p.last().last() != '\n');
    if p.len() == 1 {
        assert(join_lines(p) == p[0]);
    } else {
        assert(join_lines(p) == join_lines(p.drop_last()) + seq!['\n'] + p.last());
    }
    assert(join_lines(p).last() == p.last().last());
    assert(file_text(p) == join_lines(p) + seq!['\n']);
    lemma_join_then_split(p);
    lemma_remove_undoes_patch(l, table, key, value);
}

} // verus!
