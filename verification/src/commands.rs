//! The changes that the `alias` and `default` commands make to the
//! configuration.

use vstd::prelude::*;
use crate::config::Config;
use crate::resolve::{expand_alias, is_direct, resolve_model, resolve_template, SourceModel, TemplateSource};
use crate::text::{first_of, lemma_first_of_exists};
use crate::text::{chars_of, owned, string_of};
use crate::lines::{is_white, white};
use crate::valid::{is_valid_var_name, valid_name};

verus! {

/// The template that an alias stands for: `user/repo`, or the URL.
pub open spec fn alias_target_model(src: SourceModel) -> Seq<char> {
    match src {
        SourceModel::GitHub { user, repo } => user + seq!['/'] + repo,
        SourceModel::Url(u) => u,
    }
}

/// The template that an alias of `src` stands for.
pub fn alias_target(src: &TemplateSource) -> (r: String)
    ensures
        r@ == alias_target_model(src@),
{
    match src {
        TemplateSource::GitHub { user, repo } => {
            let mut r = user.clone();
            r.append("/");
            r.append(repo.as_str());
            proof {
                assert("/"@ == seq!['/']) by {
                    reveal_strlit("/");
                }
            }
            assert(r@ =~= alias_target_model(src@));
            r
        },
        TemplateSource::Url(u) => u.clone(),
    }
}

/// An alias as added: what it now stands for and what it stood for before.
pub struct AliasUpdate {
    pub full_name: String,
    pub previous: Option<String>,
}

/// Makes `alias` stand for `template` (resolved first, so that an alias of
/// an alias stands for the final template). When `template` cannot be
/// resolved, the configuration is left as it was.
pub fn add_alias(cfg: &mut Config, template: &str, alias: String) -> (r: Result<AliasUpdate, String>)
    ensures
        match r {
            Ok(u) => {
                &&& resolve_model(template@, old(cfg).aliases@) matches Ok(s)
                    && u.full_name@ == alias_target_model(s)
                &&& final(cfg).aliases@ == old(cfg).aliases@.insert(alias@, u.full_name@)
                &&& match u.previous {
                    Some(p) => old(cfg).aliases@.contains_key(alias@) && p@ == old(cfg).aliases@[alias@],
                    None => !old(cfg).aliases@.contains_key(alias@),
                }
            },
            Err(e) => {
                &&& resolve_model(template@, old(cfg).aliases@) == Err::<SourceModel, Seq<char>>(e@)
                &&& final(cfg).aliases@ == old(cfg).aliases@
            },
        },
        final(cfg).defaults@ == old(cfg).defaults@,
        final(cfg).cache_dir == old(cfg).cache_dir,
        final(cfg).github_token == old(cfg).github_token,
        final(cfg).init_git == old(cfg).init_git,
        final(cfg).run_hooks == old(cfg).run_hooks,
        final(cfg).open_with == old(cfg).open_with,
{
    let source = match resolve_template(template, cfg) {
        Ok(s) => s,
        Err(e) => return Err(e),
    };
    let full_name = alias_target(&source);
    let previous = cfg.aliases.insert(alias, full_name.clone());
    Ok(AliasUpdate { full_name, previous })
}

/// The message for a default whose name is not a valid variable name.
pub open spec fn invalid_default_message(name: Seq<char>) -> Seq<char> {
    "Invalid variable name `"@ + name + "`. Must match [a-zA-Z_][a-zA-Z0-9_]*"@
}

/// Checks that `name` may have a default value.
pub fn check_default_name(name: &str) -> (r: Result<(), String>)
    ensures
        r is Ok <==> valid_name(name@),
        r matches Err(e) ==> e@ == invalid_default_message(name@),
{
    if is_valid_var_name(name) {
        Ok(())
    } else {
        let mut e = owned("Invalid variable name `");
        e.append(name);
        e.append("`. Must match [a-zA-Z_][a-zA-Z0-9_]*");
        Err(e)
    }
}

/// Records the default entered for `name`: an empty value clears the
/// default, any other value sets it. Returns whether it was cleared.
pub fn apply_default(cfg: &mut Config, name: String, value: String) -> (cleared: bool)
    ensures
        cleared == (value@.len() == 0),
        cleared ==> final(cfg).defaults@ == old(cfg).defaults@.remove(name@),
        !cleared ==> final(cfg).defaults@ == old(cfg).defaults@.insert(name@, value@),
        final(cfg).aliases@ == old(cfg).aliases@,
        final(cfg).cache_dir == old(cfg).cache_dir,
        final(cfg).github_token == old(cfg).github_token,
        final(cfg).init_git == old(cfg).init_git,
        final(cfg).run_hooks == old(cfg).run_hooks,
        final(cfg).open_with == old(cfg).open_with,
{
    if value.as_str().is_empty() {
        cfg.defaults.remove(name.as_str());
        true
    } else {
        cfg.defaults.insert(name, value);
        false
    }
}

/// An alias resolves to the source that its template resolved to when the
/// alias was added.
pub proof fn lemma_alias_resolves_like_template(template: Seq<char>, aliases: Map<Seq<char>, Seq<char>>, alias: Seq<char>)
    requires
        resolve_model(template, aliases) is Ok,
    ensures
        resolve_model(
            alias,
            aliases.insert(alias, alias_target_model(resolve_model(template, aliases)->Ok_0)),
        ) == resolve_model(template, aliases),
{
    let e = expand_alias(template, aliases);
    let s = resolve_model(template, aliases)->Ok_0;
    let target = alias_target_model(s);
    let updated = aliases.insert(alias, target);
    assert(expand_alias(alias, updated) == target);
    if !is_direct(e) {
        lemma_first_of_exists(e, '/');
        let k = first_of(e, '/');
        assert(e.take(k) + seq!['/'] + e.skip(k + 1) =~= e);
    }
    assert(target == e);
}

/// The word being read at the end of `s`: its last run of non-white
/// characters, empty where `s` ends in white space.
pub open spec fn open_word(s: Seq<char>) -> Seq<char>
    decreases s.len(),
{
    if s.len() == 0 {
        Seq::empty()
    } else if is_white(s.last()) {
        Seq::empty()
    } else {
        open_word(s.drop_last()).push(s.last())
    }
}

/// The words of `s` that white space has closed.
pub open spec fn closed_words(s: Seq<char>) -> Seq<Seq<char>>
    decreases s.len(),
{
    if s.len() == 0 {
        Seq::empty()
    } else if is_white(s.last()) && open_word(s.drop_last()).len() > 0 {
        closed_words(s.drop_last()).push(open_word(s.drop_last()))
    } else {
        closed_words(s.drop_last())
    }
}

/// The words of `s`, in order: its maximal runs of characters that are not
/// white space.
pub open spec fn words(s: Seq<char>) -> Seq<Seq<char>> {
    if open_word(s).len() > 0 {
        closed_words(s).push(open_word(s))
    } else {
        closed_words(s)
    }
}

/// The command that opens a generated project: the words of the configured
/// `open_with` (the program, then its arguments), or `None` where nothing
/// is configured or it is blank.
pub fn open_command(open_with: Option<&str>) -> (r: Option<Vec<String>>)
    ensures
        match open_with {
            None => r is None,
            Some(c) => if words(c@).len() == 0 {
                r is None
            } else {
                r matches Some(v) && v@.map_values(|w: String| w@) == words(c@)
            },
        },
{
    let cmd = match open_with {
        None => return None,
        Some(c) => c,
    };
    let cs = chars_of(cmd);
    let mut out: Vec<String> = Vec::new();
    let mut cur: Vec<char> = Vec::new();
    let mut i: usize = 0;
    while i < cs.len()
        invariant
            cs@ == cmd@,
            i <= cs@.len(),
            out@.map_values(|w: String| w@) == closed_words(cs@.take(i as int)),
            cur@ == open_word(cs@.take(i as int)),
        decreases cs@.len() - i,
    {
        let c = cs[i];
        proof {
            assert(cs@.take(i + 1).drop_last() =~= cs@.take(i as int));
            assert(cs@.take(i + 1).last() == c);
        }
        if white(c) {
            if cur.len() > 0 {
                let w = string_of(&cur);
                out.push(w);
                assert(out@.map_values(|w: String| w@) =~= closed_words(cs@.take(i as int)).push(cur@));
            }
            cur = Vec::new();
            assert(cur@ =~= open_word(cs@.take(i + 1)));
        } else {
            cur.push(c);
        }
        i += 1;
    }
    assert(cs@.take(i as int) =~= cmd@);
    if cur.len() > 0 {
        let w = string_of(&cur);
        out.push(w);
        assert(out@.map_values(|w: String| w@) =~= words(cmd@));
    }
    if out.len() == 0 {
        return None;
    }
    Some(out)
}

} // verus!
