//! What the command line asks for when a template needs variables.

use vstd::prelude::*;
use crate::order::{sorted_names, strictly_sorted, text_lt};
use crate::text::owned;
use crate::vars::{NameSet, Variables};

verus! {

/// One question for a variable: its name, the text shown, and the value
/// suggested from the user's defaults.
pub struct PromptItem {
    pub name: String,
    pub label: String,
    pub default: Option<String>,
}

/// The text shown when asking for `name`: `NAME (description)`, the
/// description being `Value` when the template gives none.
pub open spec fn label_model(name: Seq<char>, descriptions: Map<Seq<char>, Seq<char>>) -> Seq<char> {
    name + seq![' ', '('] + (if descriptions.contains_key(name) {
        descriptions[name]
    } else {
        "Value"@
    }) + seq![')']
}

/// The text shown when asking for `name`.
pub fn prompt_label(name: &str, descriptions: &Variables) -> (r: String)
    ensures
        r@ == label_model(name@, descriptions@),
{
    let mut r = owned(name);
    r.append(" (");
    match descriptions.get(name) {
        Some(d) => r.append(d.as_str()),
        None => r.append("Value"),
    }
    r.append(")");
    proof {
        assert(" ("@ == seq![' ', '(']) by {
            reveal_strlit(" (");
        }
        assert(")"@ == seq![')']) by {
            reveal_strlit(")");
        }
    }
    assert(r@ =~= label_model(name@, descriptions@));
    r
}

/// The questions for the variables in `required`, in ascending order of name.
pub fn prompt_plan(required: &NameSet, descriptions: &Variables, defaults: &Variables) -> (r: Vec<PromptItem>)
    ensures
        strictly_sorted(r@.map_values(|p: PromptItem| p.name@)),
        r@.map_values(|p: PromptItem| p.name@).to_set() == required@,
        forall|i: int| 0 <= i < r@.len() ==> (#[trigger] r@[i]).label@ == label_model(r@[i].name@, descriptions@),
        forall|i: int| 0 <= i < r@.len() ==> match (#[trigger] r@[i]).default {
            Some(d) => defaults@.contains_key(r@[i].name@) && d@ == defaults@[r@[i].name@],
            None => !defaults@.contains_key(r@[i].name@),
        },
{
    let names = sorted_names(required);
    let mut out: Vec<PromptItem> = Vec::new();
    let mut i: usize = 0;
    while i < names.len()
        invariant
            i <= names@.len(),
            out@.len() == i,
            forall|j: int| 0 <= j < i ==> (#[trigger] out@[j]).name@ == names@[j]@,
            forall|j: int| 0 <= j < i ==> (#[trigger] out@[j]).label@ == label_model(out@[j].name@, descriptions@),
            forall|j: int| 0 <= j < i ==> match (#[trigger] out@[j]).default {
                Some(d) => defaults@.contains_key(out@[j].name@) && d@ == defaults@[out@[j].name@],
                None => !defaults@.contains_key(out@[j].name@),
            },
        decreases names@.len() - i,
    {
        let name = names[i].as_str();
        let label = prompt_label(name, descriptions);
        let default = match defaults.get(name) {
            Some(d) => Some(d.clone()),
            None => None,
        };
        out.push(PromptItem { name: names[i].clone(), label, default });
        i += 1;
    }
    assert(out@.map_values(|p: PromptItem| p.name@) =~= NameSet::names_of(names@));
    out
}

/// The message when `name` has no default and cannot be asked for.
pub open spec fn missing_default_message(name: Seq<char>) -> Seq<char> {
    "Missing required variable `"@ + name + "` (no default) in non-interactive mode"@
}

/// The values of the variables in `required` when no question can be
/// asked: each takes its default. Without one for some variable, the
/// message names the first such variable in ascending order.
pub fn non_interactive_values(required: &NameSet, defaults: &Variables) -> (r: Result<Variables, String>)
    ensures
        match r {
            Ok(vars) => {
                &&& forall|n: Seq<char>| #[trigger] required@.contains(n) ==> defaults@.contains_key(n)
                &&& vars@ == defaults@.restrict(required@)
            },
            Err(e) => exists|n: Seq<char>| {
                &&& #[trigger] required@.contains(n)
                &&& !defaults@.contains_key(n)
                &&& e@ == missing_default_message(n)
                &&& forall|m: Seq<char>| #[trigger] required@.contains(m) && text_lt(m, n) ==> defaults@.contains_key(m)
            },
        },
{
    let names = sorted_names(required);
    let ghost ns = NameSet::names_of(names@);
    let mut vars = Variables::new();
    let mut i: usize = 0;
    while i < names.len()
        invariant
            i <= names@.len(),
            ns == NameSet::names_of(names@),
            strictly_sorted(ns),
            ns.to_set() == required@,
            forall|j: int| 0 <= j < i ==> defaults@.contains_key(#[trigger] ns[j]),
            vars@ == defaults@.restrict(ns.take(i as int).to_set()),
        decreases names@.len() - i,
    {
        let name = names[i].as_str();
        assert(name@ == ns[i as int]);
        match defaults.get(name) {
            Some(d) => {
                vars.insert(names[i].clone(), d.clone());
                proof {
                    broadcast use vstd::seq_lib::group_seq_properties;
                    assert(ns.take(i + 1) =~= ns.take(i as int).push(name@));
                    assert(vars@ =~= defaults@.restrict(ns.take(i + 1).to_set()));
                }
            },
            None => {
                let mut e = owned("Missing required variable `");
                e.append(name);
                e.append("` (no default) in non-interactive mode");
                proof {
                    assert(required@.contains(name@)) by {
                        assert(ns.contains(ns[i as int]));
                    }
                    assert forall|m: Seq<char>| #[trigger] required@.contains(m) && text_lt(m, name@) implies defaults@.contains_key(m) by {
                        assert(ns.contains(m));
                        let j = choose|j: int| 0 <= j < ns.len() && ns[j] == m;
                        if j >= i {
                            if j > i {
                                assert(text_lt(ns[i as int], ns[j]));
                                crate::order::lemma_text_lt_transitive(m, name@, m);
                            }
                            crate::order::lemma_text_lt_irreflexive(m);
                        }
                    }
                }
                return Err(e);
            },
        }
        i += 1;
    }
    proof {
        assert(ns.take(names@.len() as int) =~= ns);
        assert forall|n: Seq<char>| #[trigger] required@.contains(n) implies defaults@.contains_key(n) by {
            assert(ns.contains(n));
        }
    }
    Ok(vars)
}

} // verus!
