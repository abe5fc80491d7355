//! Where a template comes from: a GitHub repository or a URL.

use vstd::prelude::*;
use crate::config::Config;
use crate::text::{chars_of, find_char, first_of, is_first_of, lemma_first_of_exists, lemma_first_of_unique, owned, starts_with, string_of_range};

verus! {

/// Where a template is fetched from.
#[derive(Debug)]
pub enum TemplateSource {
    GitHub { user: String, repo: String },
    Url(String),
}

/// A `TemplateSource` with its texts as character sequences.
pub enum SourceModel {
    GitHub { user: Seq<char>, repo: Seq<char> },
    Url(Seq<char>),
}

impl View for TemplateSource {
    type V = SourceModel;

    open spec fn view(&self) -> SourceModel {
        match self {
            TemplateSource::GitHub { user, repo } => SourceModel::GitHub { user: user@, repo: repo@ },
            TemplateSource::Url(u) => SourceModel::Url(u@),
        }
    }
}

/// `name`, or what it is an alias of.
pub open spec fn expand_alias(name: Seq<char>, aliases: Map<Seq<char>, Seq<char>>) -> Seq<char> {
    if aliases.contains_key(name) {
        aliases[name]
    } else {
        name
    }
}

/// `e` is used as a URL or a path as it stands.
pub open spec fn is_direct(e: Seq<char>) -> bool {
    ||| "file://"@.is_prefix_of(e)
    ||| "http://"@.is_prefix_of(e)
    ||| "https://"@.is_prefix_of(e)
    ||| (e.len() > 0 && e[0] == '/')
}

/// The message for a name that is neither `user/repo` nor a URL.
pub open spec fn resolve_error(name: Seq<char>) -> Seq<char> {
    "Template '"@ + name + "' must be 'user/repo', a URL, or resolve to one via an alias"@
}

/// The source that `name` denotes, given the configured aliases.
pub open spec fn resolve_model(name: Seq<char>, aliases: Map<Seq<char>, Seq<char>>) -> Result<SourceModel, Seq<char>> {
    let e = expand_alias(name, aliases);
    if is_direct(e) {
        Ok(SourceModel::Url(e))
    } else if e.contains('/') && 0 < first_of(e, '/') && first_of(e, '/') + 1 < e.len() {
        let k = first_of(e, '/');
        Ok(SourceModel::GitHub { user: e.take(k), repo: e.skip(k + 1) })
    } else {
        Err(resolve_error(name))
    }
}

/// Resolves a template name, after alias expansion, to a URL (or absolute
/// path) or to a GitHub `user/repo`.
pub fn resolve_template(name: &str, cfg: &Config) -> (r: Result<TemplateSource, String>)
    ensures
        match r {
            Ok(s) => resolve_model(name@, cfg.aliases@) == Ok::<SourceModel, Seq<char>>(s@),
            Err(e) => resolve_model(name@, cfg.aliases@) == Err::<SourceModel, Seq<char>>(e@),
        },
{
    let expanded: &str = match cfg.aliases.get(name) {
        Some(target) => target.as_str(),
        None => name,
    };
    let ghost e = expand_alias(name@, cfg.aliases@);
    assert(expanded@ == e);
    if starts_with(expanded, "file://") || starts_with(expanded, "http://") || starts_with(expanded, "https://")
        || starts_with(expanded, "/") {
        proof {
            if "/"@.is_prefix_of(e) {
                assert("/"@.len() == 1 && "/"@[0] == '/') by {
                    reveal_strlit("/");
                }
                assert(e[0] == "/"@[0]);
            }
        }
        return Ok(TemplateSource::Url(owned(expanded)));
    }
    proof {
        if e.len() > 0 && e[0] == '/' {
            assert("/"@.len() == 1 && "/"@[0] == '/') by {
                reveal_strlit("/");
            }
            assert("/"@.is_prefix_of(e));
        }
    }
    let v = chars_of(expanded);
    let mut msg = owned("Template '");
    match find_char(&v, 0, '/') {
        Some(k) => {
            proof {
                assert(is_first_of(e, '/', k as int));
                lemma_first_of_unique(e, '/', k as int);
            }
            if 0 < k && k + 1 < v.len() {
                let user = string_of_range(&v, 0, k);
                let repo = string_of_range(&v, k + 1, v.len());
                assert(v@.subrange(0, k as int) == e.take(k as int));
                assert(v@.subrange(k + 1, v.len() as int) == e.skip(k + 1));
                return Ok(TemplateSource::GitHub { user, repo });
            }
        },
        None => {
            assert(!e.contains('/'));
        },
    }
    msg.append(name);
    msg.append("' must be 'user/repo', a URL, or resolve to one via an alias");
    Err(msg)
}

/// The URL that `git clone` is given for a source; a GitHub token, if any,
/// goes in front of the host.
pub open spec fn clone_url_model(src: SourceModel, token: Option<Seq<char>>) -> Seq<char> {
    match src {
        SourceModel::Url(u) => u,
        SourceModel::GitHub { user, repo } => match token {
            Some(t) => "https://"@ + t + "@github.com/"@ + user + "/"@ + repo + ".git"@,
            None => "https://github.com/"@ + user + "/"@ + repo + ".git"@,
        },
    }
}

/// The URL to clone a template from.
pub fn source_to_clone_url(src: &TemplateSource, token: Option<&str>) -> (r: String)
    ensures
        r@ == clone_url_model(src@, match token {
            Some(t) => Some(t@),
            None => None,
        }),
{
    match src {
        TemplateSource::Url(u) => u.clone(),
        TemplateSource::GitHub { user, repo } => {
            let mut r = match token {
                Some(t) => {
                    let mut r = owned("https://");
                    r.append(t);
                    r.append("@github.com/");
                    r
                },
                None => owned("https://github.com/"),
            };
            r.append(user.as_str());
            r.append("/");
            r.append(repo.as_str());
            r.append(".git");
            r
        },
    }
}

/// The key under which a source is cached: its URL without any token.
pub open spec fn cache_key_model(src: SourceModel) -> Seq<char> {
    clone_url_model(src, None)
}

/// The public URL of a source, which names its cache entry.
pub fn public_cache_key(src: &TemplateSource) -> (r: String)
    ensures
        r@ == cache_key_model(src@),
{
    source_to_clone_url(src, None)
}

} // verus!

verus! {

/// A name whose alias expansion (the name itself when it is no alias) is a
/// `file://`, `http://` or `https://` URL or an absolute path resolves to
/// that very text as a URL; a GitHub source comes only from an expansion
/// that is none of these, and is the expansion split at its first `/` into
/// a non-empty user and a non-empty repository.
pub proof fn lemma_resolution_kinds(name: Seq<char>, aliases: Map<Seq<char>, Seq<char>>)
    ensures
        ({
            let e = if aliases.contains_key(name) { aliases[name] } else { name };
            &&& ("file://"@.is_prefix_of(e) || "http://"@.is_prefix_of(e) || "https://"@.is_prefix_of(e)
                || (e.len() > 0 && e[0] == '/'))
                ==> resolve_model(name, aliases) == Ok::<SourceModel, Seq<char>>(SourceModel::Url(e))
            &&& (resolve_model(name, aliases) matches Ok(SourceModel::Url(u)) ==> u == e)
            &&& (resolve_model(name, aliases) matches Ok(SourceModel::GitHub { user, repo }) ==> {
                &&& !("file://"@.is_prefix_of(e) || "http://"@.is_prefix_of(e) || "https://"@.is_prefix_of(e)
                    || (e.len() > 0 && e[0] == '/'))
                &&& e == user + seq!['/'] + repo
                &&& user.len() > 0
                &&& !user.contains('/')
                &&& repo.len() > 0
            })
        }),
{
    let e = if aliases.contains_key(name) { aliases[name] } else { name };
    assert(e == expand_alias(name, aliases));
    if !is_direct(e) && e.contains('/') && 0 < first_of(e, '/') && first_of(e, '/') + 1 < e.len() {
        let k = first_of(e, '/');
        lemma_first_of_exists(e, '/');
        assert(e.take(k) + seq!['/'] + e.skip(k + 1) =~= e);
        if e.take(k).contains('/') {
            let j = choose|j: int| 0 <= j < e.take(k).len() && e.take(k)[j] == '/';
            assert(e[j] == '/');
        }
    }
}

} // verus!
