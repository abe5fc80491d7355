//! `.inherignore`: paths of a template that are not copied, in gitignore
//! syntax, matched by the `ignore` crate.

use vstd::prelude::*;
use crate::lines::{join_lines, lemma_final_newline_optional, lemma_split_then_join, line_len, lines_of, split_lines, strip_cr, trim_end};
use crate::text::{chars_of, string_of, string_of_range, text_eq, starts_with};

verus! {

/// `ignore::gitignore::Gitignore`, a compiled gitignore matcher; opaque here.
#[verifier::external_type_specification]
#[verifier::external_body]
pub struct ExGitignore(ignore::gitignore::Gitignore);

/// `ignore::gitignore::GitignoreBuilder`, which collects gitignore globs; opaque here.
#[verifier::external_type_specification]
#[verifier::external_body]
pub struct ExGitignoreBuilder(ignore::gitignore::GitignoreBuilder);

/// The name of the ignore file in a template's root.
pub const INHERIT_IGNORE_FILE: &'static str = ".inherignore";

/// The text that a gitignore line keeps as its glob: the line without
/// trailing white space, unless it ends with an escaped space.
pub open spec fn glob_text(line: Seq<char>) -> Seq<char> {
    if line.len() >= 2 && line[line.len() - 2] == '\\' && line[line.len() - 1] == ' ' {
        line
    } else {
        trim_end(line)
    }
}

/// Whether a gitignore line is a comment or blank, and so gives no glob.
pub open spec fn gives_no_glob(line: Seq<char>) -> bool {
    (line.len() > 0 && line[0] == '#') || glob_text(line).len() == 0
}

/// Whether a root directory text is kept as it is by a gitignore builder:
/// it does not begin with `.` (only a leading `./` is taken off).
pub open spec fn plain_root(root: Seq<char>) -> bool {
    root.len() == 0 || root[0] != '.'
}

/// Whether `GitignoreBuilder::add_line` accepts `line` (on a builder as
/// `GitignoreBuilder::new` makes it): comment and blank lines are accepted,
/// other lines when their glob parses.
pub uninterp spec fn gitignore_line_ok(line: Seq<char>) -> bool;

/// The globs, as kept texts, that a gitignore builder holds after being
/// handed `lines` in order.
pub open spec fn kept_globs(lines: Seq<Seq<char>>) -> Seq<Seq<char>>
    decreases lines.len(),
{
    if lines.len() == 0 {
        Seq::empty()
    } else {
        let prev = kept_globs(lines.drop_last());
        let l = lines.last();
        if !gives_no_glob(l) && gitignore_line_ok(l) {
            prev.push(glob_text(l))
        } else {
            prev
        }
    }
}

/// What a `GitignoreBuilder` holds: the texts of its globs, in order.
pub uninterp spec fn builder_globs(b: ignore::gitignore::GitignoreBuilder) -> Seq<Seq<char>>;

/// The root directory that a `GitignoreBuilder` keeps.
pub uninterp spec fn builder_root(b: ignore::gitignore::GitignoreBuilder) -> Seq<char>;

/// Whether `GitignoreBuilder::build` compiles the globs with texts `globs`
/// (on a builder as `GitignoreBuilder::new` makes it) into one matcher.
pub uninterp spec fn gitignore_builds(globs: Seq<Seq<char>>) -> bool;

/// What a compiled `Gitignore` holds: the texts of its globs, in order.
pub uninterp spec fn matcher_globs(m: ignore::gitignore::Gitignore) -> Seq<Seq<char>>;

/// The root directory of a compiled `Gitignore`.
pub uninterp spec fn matcher_root(m: ignore::gitignore::Gitignore) -> Seq<char>;

/// Whether a gitignore matcher holding the glob texts `globs` with root
/// `root` says that `path` (a directory where `is_dir`) is ignored: the last
/// glob that matches decides, a `!` glob re-includes, a glob ending in `/`
/// matches directories only.
pub uninterp spec fn gitignore_match(globs: Seq<Seq<char>>, root: Seq<char>, path: Seq<char>, is_dir: bool) -> bool;

/// `Gitignore::empty`, a matcher with no glob and an empty root.
#[verifier::external_body]
fn empty_matcher() -> (r: ignore::gitignore::Gitignore)
    ensures
        matcher_globs(r) == Seq::<Seq<char>>::empty(),
        matcher_root(r) == Seq::<char>::empty(),
{
    ignore::gitignore::Gitignore::empty()
}

/// `GitignoreBuilder::new`, a builder with no glob. It keeps `root` with a
/// leading `./` taken off (byte-wise on unix, by path component elsewhere);
/// a root that does not begin with `.` is kept as it is on every target,
/// and only that is stated.
#[verifier::external_body]
fn new_builder(root: &str) -> (r: ignore::gitignore::GitignoreBuilder)
    ensures
        builder_globs(r) == Seq::<Seq<char>>::empty(),
        plain_root(root@) ==> builder_root(r) == root@,
{
    ignore::gitignore::GitignoreBuilder::new(root)
}

/// `GitignoreBuilder::add_line` with no source file: a line that is neither
/// comment nor blank and that the builder accepts adds its glob; otherwise
/// nothing changes (the error of a line whose glob does not parse is
/// dropped). The root stays.
#[verifier::external_body]
fn add_pattern_line(builder: &mut ignore::gitignore::GitignoreBuilder, line: &str)
    ensures
        builder_globs(*final(builder)) == (if !gives_no_glob(line@) && gitignore_line_ok(line@) {
            builder_globs(*old(builder)).push(glob_text(line@))
        } else {
            builder_globs(*old(builder))
        }),
        builder_root(*final(builder)) == builder_root(*old(builder)),
{
    let _ = builder.add_line(None, line);
}

/// `GitignoreBuilder::build`: a matcher holding the builder's globs (and,
/// where there is one, its root), or `None` when the globs cannot be
/// compiled together; a builder with no glob always builds.
#[verifier::external_body]
fn build_matcher(builder: &ignore::gitignore::GitignoreBuilder) -> (r: Option<ignore::gitignore::Gitignore>)
    ensures
        (r is Some) == gitignore_builds(builder_globs(*builder)),
        builder_globs(*builder).len() == 0 ==> r is Some,
        r matches Some(m) ==> matcher_globs(m) == builder_globs(*builder)
            && (builder_globs(*builder).len() > 0 ==> matcher_root(m) == builder_root(*builder)),
{
    builder.build().ok()
}

/// `Gitignore::matched(path, is_dir).is_ignore()`: the gitignore match of
/// the matcher's globs and root; a matcher with no glob ignores nothing.
#[verifier::external_body]
fn matcher_ignores(matcher: &ignore::gitignore::Gitignore, path: &str, is_dir: bool) -> (r: bool)
    ensures
        r == gitignore_match(matcher_globs(*matcher), matcher_root(*matcher), path@, is_dir),
        matcher_globs(*matcher).len() == 0 ==> !r,
{
    matcher.matched(path, is_dir).is_ignore()
}

/// `s` without any byte-order marks at its start.
pub open spec fn strip_boms(s: Seq<char>) -> Seq<char>
    decreases s.len(),
{
    if s.len() > 0 && s[0] == '\u{feff}' {
        strip_boms(s.drop_first())
    } else {
        s
    }
}

/// The pattern lines of an ignore file: its lines, the first without
/// leading byte-order marks.
pub open spec fn pattern_lines(content: Seq<char>) -> Seq<Seq<char>> {
    let ls = split_lines(content);
    if ls.len() > 0 {
        ls.update(0, strip_boms(ls[0]))
    } else {
        ls
    }
}

/// Every line of an ignore file is a pattern line, the last one too
/// whether or not it ends with a line break: for a file without `\r` that
/// does not begin with a byte-order mark, its pattern lines joined with `\n`
/// give back its whole text but for one final `\n`; and adding that final
/// `\n` to a file changes none of its pattern lines.
pub proof fn lemma_pattern_lines_cover_file(c: Seq<char>)
    requires
        c.len() > 0,
        c[0] != '\u{feff}',
        forall|i: int| 0 <= i < c.len() ==> c[i] != '\r',
    ensures
        join_lines(pattern_lines(c)) == (if c.last() == '\n' { c.drop_last() } else { c }),
        c.last() != '\n' ==> pattern_lines(c.push('\n')) == pattern_lines(c),
{
    let d = if c.last() == '\n' { c } else { c.push('\n') };
    if c.last() != '\n' {
        lemma_final_newline_optional(c);
    }
    assert forall|i: int| 0 <= i < d.len() implies d[i] != '\r' by {
        if i < c.len() {
            assert(d[i] == c[i]);
        }
    }
    lemma_split_then_join(d);
    let ls = split_lines(c);
    assert(split_lines(d) == ls);
    assert(join_lines(ls) + seq!['\n'] == d);
    assert((join_lines(ls) + seq!['\n']).drop_last() =~= join_lines(ls));
    if c.last() != '\n' {
        assert(d.drop_last() =~= c);
    }
    assert(join_lines(ls) == (if c.last() == '\n' { c.drop_last() } else { c }));
    // The first line does not begin with a byte-order mark.
    let k = line_len(c);
    assert(ls[0] == if k < c.len() { strip_cr(c.take(k as int)) } else { c });
    if ls[0].len() > 0 {
        assert(ls[0][0] == c[0]);
    }
    assert(strip_boms(ls[0]) == ls[0]);
    assert(pattern_lines(c) =~= ls);
    if c.last() != '\n' {
        lemma_final_newline_optional(c);
        assert(pattern_lines(c.push('\n')) =~= pattern_lines(c));
    }
}

/// A filter built from `.inherignore` (gitignore-compatible syntax).
pub struct InheritIgnore {
    inner: ignore::gitignore::Gitignore,
    lines: Vec<String>,
}

impl View for InheritIgnore {
    /// The pattern lines the filter was built from.
    type V = Seq<Seq<char>>;

    closed spec fn view(&self) -> Seq<Seq<char>> {
        self.lines@.map_values(|l: String| l@)
    }
}

impl InheritIgnore {
    /// The texts of the globs that the filter matches with.
    pub closed spec fn globs(&self) -> Seq<Seq<char>> {
        matcher_globs(self.inner)
    }

    /// The root directory that the filter matches relative to.
    pub closed spec fn root(&self) -> Seq<char> {
        matcher_root(self.inner)
    }

    /// Builds the filter of a template whose root is `root`, given the text
    /// of its `.inherignore` when the file exists. Without the file (or when
    /// its globs cannot be compiled) the filter ignores nothing.
    pub fn load(root: &str, ignore_file: Option<&str>) -> (r: Self)
        ensures
            r@ == match ignore_file {
                Some(c) => pattern_lines(c@),
                None => Seq::<Seq<char>>::empty(),
            },
            r.globs() == match ignore_file {
                Some(c) => if gitignore_builds(kept_globs(pattern_lines(c@))) {
                    kept_globs(pattern_lines(c@))
                } else {
                    Seq::<Seq<char>>::empty()
                },
                None => Seq::<Seq<char>>::empty(),
            },
            r.globs().len() > 0 && plain_root(root@) ==> r.root() == root@,
    {
        match ignore_file {
            None => {
                let r = InheritIgnore { inner: empty_matcher(), lines: Vec::new() };
                assert(r@ =~= Seq::<Seq<char>>::empty());
                r
            },
            Some(content) => {
                let text = chars_of(content);
                let ls = lines_of(&text);
                let ghost model = split_lines(content@);
                let mut builder = new_builder(root);
                let mut lines: Vec<String> = Vec::new();
                let mut i: usize = 0;
                while i < ls.len()
                    invariant
                        i <= ls@.len(),
                        ls@.map_values(|l: Vec<char>| l@) == model,
                        model == split_lines(content@),
                        lines@.len() == i,
                        model.len() == pattern_lines(content@).len(),
                        builder_globs(builder) == kept_globs(pattern_lines(content@).take(i as int)),
                        plain_root(root@) ==> builder_root(builder) == root@,
                        forall|j: int| 0 <= j < i ==> (#[trigger] lines@[j])@ == pattern_lines(content@)[j],
                    decreases ls@.len() - i,
                {
                    let line = &ls[i];
                    let mut start: usize = 0;
                    assert(line@.skip(0) =~= line@);
                    if i == 0 {
                        while start < line.len() && line[start] == '\u{feff}'
                            invariant
                                start <= line@.len(),
                                strip_boms(line@) == strip_boms(line@.skip(start as int)),
                            decreases line@.len() - start,
                        {
                            assert(line@.skip(start as int).drop_first() =~= line@.skip(start + 1));
                            start += 1;
                        }
                    }
                    let mut cs: Vec<char> = Vec::new();
                    let mut k = start;
                    while k < line.len()
                        invariant
                            start <= k <= line@.len(),
                            cs@ == line@.subrange(start as int, k as int),
                        decreases line@.len() - k,
                    {
                        cs.push(line[k]);
                        k += 1;
                        assert(cs@ =~= line@.subrange(start as int, k as int));
                    }
                    let s = string_of(&cs);
                    proof {
                        assert(model.len() == ls@.len());
                        assert(model[i as int] == line@);
                        assert(line@.subrange(start as int, line@.len() as int) =~= line@.skip(start as int));
                        if i == 0 {
                            let t = line@.skip(start as int);
                            assert(t.len() == 0 || t[0] != '\u{feff}');
                            assert(strip_boms(t) == t);
                            assert(pattern_lines(content@)[0] == strip_boms(model[0]));
                        } else {
                            assert(pattern_lines(content@)[i as int] == model[i as int]);
                        }
                        assert(s@ == pattern_lines(content@)[i as int]);
                    }
                    add_pattern_line(&mut builder, s.as_str());
                    proof {
                        let pl = pattern_lines(content@);
                        assert(pl.take(i + 1).drop_last() =~= pl.take(i as int));
                        assert(pl.take(i + 1).last() == pl[i as int]);
                    }
                    lines.push(s);
                    i += 1;
                }
                assert(pattern_lines(content@).take(i as int) =~= pattern_lines(content@));
                let inner = match build_matcher(&builder) {
                    Some(m) => m,
                    None => empty_matcher(),
                };
                let r = InheritIgnore { inner, lines };
                assert(r@ =~= pattern_lines(content@));
                r
            },
        }
    }

    /// Whether `relative_path` (relative to the template root) is ignored:
    /// the gitignore match of the filter's globs and root; a filter with no
    /// glob ignores nothing.
    pub fn is_ignored(&self, relative_path: &str, is_dir: bool) -> (r: bool)
        ensures
            r == gitignore_match(self.globs(), self.root(), relative_path@, is_dir),
            self.globs().len() == 0 ==> !r,
    {
        matcher_ignores(&self.inner, relative_path, is_dir)
    }
}

impl InheritIgnore {
    /// Whether `rel` is excluded as gitignore excludes: the path itself is
    /// ignored, or one of the directories it lies in is (a path below an
    /// excluded directory cannot be re-included).
    pub open spec fn excludes(&self, rel: Seq<char>, is_dir: bool) -> bool {
        ||| gitignore_match(self.globs(), self.root(), rel, is_dir)
        ||| exists|j: int| 0 < j < rel.len() && rel[j] == '/' && gitignore_match(self.globs(), self.root(), #[trigger] rel.take(j), true)
    }

    /// Whether `relative_path` (relative to the template root) is excluded:
    /// it is ignored, or a directory above it is.
    pub fn is_excluded(&self, relative_path: &str, is_dir: bool) -> (r: bool)
        ensures
            r == self.excludes(relative_path@, is_dir),
            self.globs().len() == 0 ==> !r,
    {
        if self.is_ignored(relative_path, is_dir) {
            return true;
        }
        let cs = chars_of(relative_path);
        let mut j: usize = 1;
        while j < cs.len()
            invariant
                cs@ == relative_path@,
                1 <= j,
                forall|k: int| 0 < k < j && k < cs@.len() && cs@[k] == '/'
                    ==> !gitignore_match(self.globs(), self.root(), #[trigger] cs@.take(k), true),
            decreases cs@.len() - j,
        {
            if cs[j] == '/' {
                let parent = string_of_range(&cs, 0, j);
                assert(parent@ == cs@.take(j as int));
                if matcher_ignores(&self.inner, parent.as_str(), true) {
                    return true;
                }
            }
            j += 1;
        }
        false
    }
}

/// The paths of Inherit's own files, never copied: `Inherit.toml`,
/// `.inherignore`, `.git`, and anything below them.
pub open spec fn is_system_path(rel: Seq<char>) -> bool {
    ||| rel == "Inherit.toml"@ || ("Inherit.toml"@ + seq!['/']).is_prefix_of(rel)
    ||| rel == ".inherignore"@ || (".inherignore"@ + seq!['/']).is_prefix_of(rel)
    ||| rel == ".git"@ || (".git"@ + seq!['/']).is_prefix_of(rel)
}

/// Whether `rel` is one of Inherit's own files, or lies below one.
pub fn is_always_ignored(rel: &str) -> (r: bool)
    ensures
        r == is_system_path(rel@),
{
    proof {
        assert("Inherit.toml/"@ == "Inherit.toml"@ + seq!['/']) by {
            reveal_strlit("Inherit.toml/");
            reveal_strlit("Inherit.toml");
        }
        assert(".inherignore/"@ == ".inherignore"@ + seq!['/']) by {
            reveal_strlit(".inherignore/");
            reveal_strlit(".inherignore");
        }
        assert(".git/"@ == ".git"@ + seq!['/']) by {
            reveal_strlit(".git/");
            reveal_strlit(".git");
        }
    }
    text_eq(rel, "Inherit.toml") || starts_with(rel, "Inherit.toml/") || text_eq(rel, ".inherignore")
        || starts_with(rel, ".inherignore/") || text_eq(rel, ".git") || starts_with(rel, ".git/")
}

} // verus!
