//! Loading a template's variables and deciding, entry by entry, what a
//! generated project receives.

use vstd::prelude::*;
use crate::error::InheritError;
use crate::ignore_rules::{is_always_ignored, is_system_path};
use crate::manifest::{Hooks, Manifest};
use crate::replace::{render, KissReplace};
use crate::text::owned;
use crate::valid::{is_valid_var_name, valid_name};
use crate::vars::{lists_map, NameSet, Variables};

verus! {

/// A loaded template: its manifest, every variable it needs, and the
/// descriptions that the manifest gives.
#[derive(Debug)]
pub struct TemplateContext {
    pub manifest: Manifest,
    /// Variables declared in the manifest or used in the template's files.
    pub required_vars: NameSet,
    /// Variable name -> description, from the manifest.
    pub var_descriptions: Variables,
}

/// Counts of the files written into a generated project.
#[derive(Debug)]
pub struct ProcessResult {
    /// Text files, with their placeholders replaced.
    pub processed_files: usize,
    /// Other files, copied as they are.
    pub binary_files: usize,
}

/// What happens after the files are generated.
#[derive(Debug)]
pub struct ProcessOptions {
    /// Run `git init` in the generated project.
    pub init_git: bool,
    /// Run the manifest's `post_create` hooks.
    pub run_hooks: bool,
}

impl ProcessResult {
    /// Counts one more generated file: a text file whose placeholders were
    /// replaced, or else a file copied as it is.
    pub fn count_file(&mut self, is_text: bool)
        requires
            is_text ==> old(self).processed_files < usize::MAX,
            !is_text ==> old(self).binary_files < usize::MAX,
        ensures
            final(self).processed_files == old(self).processed_files + if is_text { 1int } else { 0int },
            final(self).binary_files == old(self).binary_files + if is_text { 0int } else { 1int },
    {
        if is_text {
            self.processed_files = self.processed_files + 1;
        } else {
            self.binary_files = self.binary_files + 1;
        }
    }
}

impl Default for ProcessResult {
    fn default() -> (r: Self)
        ensures
            r.processed_files == 0,
            r.binary_files == 0,
    {
        ProcessResult { processed_files: 0, binary_files: 0 }
    }
}

impl Default for ProcessOptions {
    fn default() -> (r: Self)
        ensures
            r.init_git,
            r.run_hooks,
    {
        ProcessOptions { init_git: true, run_hooks: true }
    }
}

impl Clone for ProcessOptions {
    fn clone(&self) -> (r: Self)
        ensures
            r.init_git == self.init_git,
            r.run_hooks == self.run_hooks,
    {
        ProcessOptions { init_git: self.init_git, run_hooks: self.run_hooks }
    }
}

/// A copy of `vars`.
pub fn copy_variables(vars: &Variables) -> (r: Variables)
    ensures
        r@ == vars@,
{
    let entries = vars.entries();
    let mut r = Variables::new();
    let mut i: usize = 0;
    while i < entries.len()
        invariant
            i <= entries@.len(),
            lists_map(entries@, vars@),
            r@ == Map::new(
                |k: Seq<char>| exists|j: int| 0 <= j < i && #[trigger] entries@[j].0@ == k,
                |k: Seq<char>| vars@[k],
            ),
        decreases entries@.len() - i,
    {
        let ghost before = r@;
        r.insert(entries[i].0.clone(), entries[i].1.clone());
        proof {
            assert(r@ =~= Map::new(
                |k: Seq<char>| exists|j: int| 0 <= j < i + 1 && #[trigger] entries@[j].0@ == k,
                |k: Seq<char>| vars@[k],
            )) by {
                assert forall|k: Seq<char>| (exists|j: int| 0 <= j < i + 1 && #[trigger] entries@[j].0@ == k)
                    implies #[trigger] r@.contains_key(k) by {
                    let j = choose|j: int| 0 <= j < i + 1 && #[trigger] entries@[j].0@ == k;
                    if j < i {
                        assert(before.contains_key(k));
                    }
                }
                assert forall|k: Seq<char>| #[trigger] r@.contains_key(k) implies exists|j: int| 0 <= j < i + 1 && #[trigger] entries@[j].0@ == k by {
                    if k != entries@[i as int].0@ {
                        let j = choose|j: int| 0 <= j < i && #[trigger] entries@[j].0@ == k;
                    }
                }
                assert forall|k: Seq<char>| #[trigger] r@.contains_key(k) implies r@[k] == vars@[k] by {
                    if k != entries@[i as int].0@ {
                        assert(before.contains_key(k));
                    } else {
                        assert(vars@.contains_key(entries@[i as int].0@));
                    }
                }
            }
        }
        i += 1;
    }
    proof {
        assert(r@ =~= vars@) by {
            assert forall|k: Seq<char>| #[trigger] vars@.contains_key(k) implies r@.contains_key(k) by {
                let j = choose|j: int| 0 <= j < entries@.len() && entries@[j].0@ == k;
                assert(entries@[j].0@ == k);
            }
        }
    }
    r
}

/// The loaded template: the variables that the manifest declares together
/// with those found in its files (`scanned_vars`), and the manifest's
/// descriptions.
pub fn load_template(manifest: Manifest, scanned_vars: NameSet) -> (r: TemplateContext)
    ensures
        r.required_vars@ == manifest.variables@.dom() + scanned_vars@,
        r.var_descriptions@ == manifest.variables@,
        r.manifest == manifest,
{
    let entries = manifest.variables.entries();
    let mut required_vars = NameSet::new();
    let mut i: usize = 0;
    while i < entries.len()
        invariant
            i <= entries@.len(),
            lists_map(entries@, manifest.variables@),
            required_vars@ == Set::new(|k: Seq<char>| exists|j: int| 0 <= j < i && #[trigger] entries@[j].0@ == k),
        decreases entries@.len() - i,
    {
        required_vars.insert(entries[i].0.clone());
        proof {
            assert(required_vars@ =~= Set::new(|k: Seq<char>| exists|j: int| 0 <= j < i + 1 && #[trigger] entries@[j].0@ == k)) by {
                assert forall|k: Seq<char>| #[trigger] required_vars@.contains(k) implies exists|j: int| 0 <= j < i + 1 && #[trigger] entries@[j].0@ == k by {
                    if k != entries@[i as int].0@ {
                        let j = choose|j: int| 0 <= j < i && #[trigger] entries@[j].0@ == k;
                    }
                }
            }
        }
        i += 1;
    }
    proof {
        assert(required_vars@ =~= manifest.variables@.dom()) by {
            assert forall|k: Seq<char>| manifest.variables@.dom().contains(k) implies #[trigger] required_vars@.contains(k) by {
                assert(manifest.variables@.contains_key(k));
                let j = choose|j: int| 0 <= j < entries@.len() && entries@[j].0@ == k;
                assert(entries@[j].0@ == k);
            }
        }
    }
    let names = scanned_vars.items();
    let mut k: usize = 0;
    while k < names.len()
        invariant
            k <= names@.len(),
            NameSet::names_of(names@).to_set() == scanned_vars@,
            required_vars@ == manifest.variables@.dom() + NameSet::names_of(names@).take(k as int).to_set(),
        decreases names@.len() - k,
    {
        required_vars.insert(names[k].clone());
        proof {
            broadcast use vstd::seq_lib::group_seq_properties;
            assert(NameSet::names_of(names@).take(k + 1) =~= NameSet::names_of(names@).take(k as int).push(names@[k as int]@));
            assert(required_vars@ =~= manifest.variables@.dom() + NameSet::names_of(names@).take(k + 1).to_set());
        }
        k += 1;
    }
    assert(NameSet::names_of(names@).take(names@.len() as int) =~= NameSet::names_of(names@));
    let var_descriptions = copy_variables(&manifest.variables);
    TemplateContext { manifest, required_vars, var_descriptions }
}

/// `vars` gives `name` a non-empty value.
pub open spec fn is_filled(vars: Map<Seq<char>, Seq<char>>, name: Seq<char>) -> bool {
    vars.contains_key(name) && vars[name].len() > 0
}

/// Checks the values supplied for a template: every supplied name must be a
/// valid variable name, and every required variable must have a non-empty
/// value. `MissingVariables` lists each required variable without one, once.
pub fn check_variables(required: &NameSet, final_vars: &Variables) -> (r: Result<(), InheritError>)
    ensures
        match r {
            Ok(()) => {
                &&& forall|k: Seq<char>| #[trigger] final_vars@.contains_key(k) ==> valid_name(k)
                &&& forall|n: Seq<char>| #[trigger] required@.contains(n) ==> is_filled(final_vars@, n)
            },
            Err(InheritError::InvalidVariable(k)) => final_vars@.contains_key(k@) && !valid_name(k@),
            Err(InheritError::MissingVariables(missing)) => {
                &&& forall|k: Seq<char>| #[trigger] final_vars@.contains_key(k) ==> valid_name(k)
                &&& missing@.len() > 0
                &&& NameSet::names_of(missing@).no_duplicates()
                &&& NameSet::names_of(missing@).to_set() == required@.filter(|n: Seq<char>| !is_filled(final_vars@, n))
            },
            Err(_) => false,
        },
{
    let entries = final_vars.entries();
    let mut i: usize = 0;
    while i < entries.len()
        invariant
            i <= entries@.len(),
            lists_map(entries@, final_vars@),
            forall|j: int| 0 <= j < i ==> valid_name(#[trigger] entries@[j].0@),
        decreases entries@.len() - i,
    {
        if !is_valid_var_name(entries[i].0.as_str()) {
            return Err(InheritError::InvalidVariable(entries[i].0.clone()));
        }
        i += 1;
    }
    proof {
        assert forall|k: Seq<char>| #[trigger] final_vars@.contains_key(k) implies valid_name(k) by {
            let j = choose|j: int| 0 <= j < entries@.len() && entries@[j].0@ == k;
            assert(valid_name(entries@[j].0@));
        }
    }
    let names = required.items();
    let ghost ns = NameSet::names_of(names@);
    let mut missing: Vec<String> = Vec::new();
    let mut k: usize = 0;
    while k < names.len()
        invariant
            k <= names@.len(),
            ns == NameSet::names_of(names@),
            ns.no_duplicates(),
            ns.to_set() == required@,
            NameSet::names_of(missing@).no_duplicates(),
            NameSet::names_of(missing@).to_set() == ns.take(k as int).to_set().filter(|n: Seq<char>| !is_filled(final_vars@, n)),
        decreases names@.len() - k,
    {
        let name = names[k].as_str();
        assert(name@ == ns[k as int]);
        let filled = match final_vars.get(name) {
            Some(v) => !v.as_str().is_empty(),
            None => false,
        };
        proof {
            if final_vars@.contains_key(name@) {
                let v = final_vars@[name@];
                assert(v.len() == 0 <==> final_vars@[name@].len() == 0);
            }
        }
        assert(filled == is_filled(final_vars@, name@));
        let ghost before = missing@;
        proof {
            broadcast use vstd::seq_lib::group_seq_properties;
            assert(!NameSet::names_of(before).to_set().contains(name@)) by {
                if NameSet::names_of(before).to_set().contains(name@) {
                    assert(ns.take(k as int).to_set().contains(name@));
                    let b = choose|b: int| 0 <= b < k && ns.take(k as int)[b] == name@;
                    assert(ns[b] == ns[k as int]);
                }
            }
        }
        if !filled {
            missing.push(names[k].clone());
            proof {
                broadcast use vstd::seq_lib::group_seq_properties;
                assert(NameSet::names_of(missing@) =~= NameSet::names_of(before).push(name@));
                assert(NameSet::names_of(missing@).no_duplicates()) by {
                    assert forall|a: int, c: int| 0 <= a < missing@.len() && 0 <= c < missing@.len() && a != c
                        implies NameSet::names_of(missing@)[a] != NameSet::names_of(missing@)[c] by {
                        if a == before.len() as int {
                            assert(NameSet::names_of(before).contains(NameSet::names_of(before)[c]));
                        } else if c == before.len() as int {
                            assert(NameSet::names_of(before).contains(NameSet::names_of(before)[a]));
                        }
                    }
                }
            }
        }
        proof {
            broadcast use vstd::seq_lib::group_seq_properties;
            assert(ns.take(k + 1) =~= ns.take(k as int).push(name@));
            assert(NameSet::names_of(missing@) =~= if filled { NameSet::names_of(before) } else { NameSet::names_of(before).push(name@) });
            assert(ns.take(k + 1).to_set() =~= ns.take(k as int).to_set().insert(name@));
            let pred = |n: Seq<char>| !is_filled(final_vars@, n);
            if filled {
                assert(ns.take(k + 1).to_set().filter(pred) =~= ns.take(k as int).to_set().filter(pred));
            } else {
                assert(NameSet::names_of(missing@).to_set() =~= NameSet::names_of(before).to_set().insert(name@));
                assert(ns.take(k + 1).to_set().filter(pred) =~= ns.take(k as int).to_set().filter(pred).insert(name@));
            }
            assert(NameSet::names_of(missing@).to_set() =~= ns.take(k + 1).to_set().filter(pred));
        }
        k += 1;
    }
    assert(ns.take(names@.len() as int) =~= ns);
    if missing.len() > 0 {
        return Err(InheritError::MissingVariables(missing));
    }
    proof {
        assert forall|n: Seq<char>| #[trigger] required@.contains(n) implies is_filled(final_vars@, n) by {
            if !is_filled(final_vars@, n) {
                assert(required@.filter(|n: Seq<char>| !is_filled(final_vars@, n)).contains(n));
                assert(NameSet::names_of(missing@).to_set().contains(n));
            }
        }
    }
    Ok(())
}

/// What a generated project receives for one entry of a template.
pub enum EntryPlan {
    /// Nothing.
    Skip,
    /// A directory at this path, relative to the project.
    Directory(String),
    /// The file, at this path relative to the project.
    File(String),
}

/// The plan for a template entry at `rel` (relative to the template root):
/// Inherit's own files and ignored paths are skipped, as is anything that is
/// neither a directory nor a regular file; the rest is created at `rel`
/// with its placeholders replaced.
pub open spec fn plan_model(rel: Seq<char>, is_dir: bool, is_file: bool, ignored: bool, vars: Map<Seq<char>, Seq<char>>) -> Option<(bool, Seq<char>)> {
    if is_system_path(rel) || ignored {
        None
    } else if is_dir {
        Some((true, render(vars, rel)))
    } else if is_file {
        Some((false, render(vars, rel)))
    } else {
        None
    }
}

/// Decides what becomes of the template entry at `rel`; `ignored` is what
/// the template's `.inherignore` says of it.
pub fn plan_entry(rel: &str, is_dir: bool, is_file: bool, ignored: bool, vars: &Variables) -> (r: EntryPlan)
    ensures
        match r {
            EntryPlan::Skip => plan_model(rel@, is_dir, is_file, ignored, vars@) is None,
            EntryPlan::Directory(p) => plan_model(rel@, is_dir, is_file, ignored, vars@) == Some((true, p@)),
            EntryPlan::File(p) => plan_model(rel@, is_dir, is_file, ignored, vars@) == Some((false, p@)),
        },
        ignored ==> r is Skip,
{
    if is_always_ignored(rel) {
        return EntryPlan::Skip;
    }
    if ignored {
        return EntryPlan::Skip;
    }
    let new_rel = vars.replace_str(rel);
    if is_dir {
        return EntryPlan::Directory(new_rel);
    }
    if !is_file {
        return EntryPlan::Skip;
    }
    EntryPlan::File(new_rel)
}

/// An entry that `.inherignore` ignores, or one of Inherit's own files, is
/// skipped whatever kind of entry it is: no directory or file is planned
/// for it. Any other directory or regular file is planned at its path with
/// the placeholders rendered.
pub proof fn lemma_ignored_entries_skipped(rel: Seq<char>, is_dir: bool, is_file: bool, ignored: bool, vars: Map<Seq<char>, Seq<char>>)
    ensures
        ignored ==> plan_model(rel, is_dir, is_file, ignored, vars) is None,
        is_system_path(rel) ==> plan_model(rel, is_dir, is_file, ignored, vars) is None,
        !ignored && !is_system_path(rel) && is_dir ==> plan_model(rel, is_dir, is_file, ignored, vars)
            == Some((true, render(vars, rel))),
        !ignored && !is_system_path(rel) && !is_dir && is_file ==> plan_model(rel, is_dir, is_file, ignored, vars)
            == Some((false, render(vars, rel))),
        plan_model(rel, is_dir, is_file, ignored, vars) is Some ==> !ignored && (is_dir || is_file),
{
}

/// The program and arguments that run a hook command through the shell:
/// `cmd /C` on Windows, `sh -c` elsewhere.
pub fn hook_command(cmd: &str, windows: bool) -> (r: (String, Vec<String>))
    ensures
        r.0@ == (if windows { "cmd"@ } else { "sh"@ }),
        r.1@.len() == 2,
        r.1@[0]@ == (if windows { "/C"@ } else { "-c"@ }),
        r.1@[1]@ == cmd@,
{
    let mut args: Vec<String> = Vec::new();
    if windows {
        args.push(owned("/C"));
        args.push(owned(cmd));
        (owned("cmd"), args)
    } else {
        args.push(owned("-c"));
        args.push(owned(cmd));
        (owned("sh"), args)
    }
}

/// A command run in the generated project; `label` names it in errors.
pub struct PlannedCommand {
    pub label: String,
    pub program: String,
    pub args: Vec<String>,
}

/// The label, program and arguments of a planned command.
pub open spec fn command_model(c: PlannedCommand) -> (Seq<char>, Seq<char>, Seq<Seq<char>>) {
    (c.label@, c.program@, c.args@.map_values(|a: String| a@))
}

/// The command that runs a hook through the shell.
pub open spec fn hook_model(cmd: Seq<char>, windows: bool) -> (Seq<char>, Seq<char>, Seq<Seq<char>>) {
    if windows {
        (cmd, "cmd"@, seq!["/C"@, cmd])
    } else {
        (cmd, "sh"@, seq!["-c"@, cmd])
    }
}

/// The commands run after the files are generated, in order: `git init -q`
/// when `init_git` is set, then each `post_create` hook when `run_hooks` is set.
pub fn finishing_commands(opts: &ProcessOptions, hooks: &Hooks, windows: bool) -> (r: Vec<PlannedCommand>)
    ensures
        ({
            let git: Seq<(Seq<char>, Seq<char>, Seq<Seq<char>>)> = if opts.init_git {
                seq![("git init"@, "git"@, seq!["init"@, "-q"@])]
            } else {
                seq![]
            };
            let hook_cmds = if opts.run_hooks {
                hooks.post_create@.map_values(|h: String| hook_model(h@, windows))
            } else {
                seq![]
            };
            r@.map_values(|c: PlannedCommand| command_model(c)) == git + hook_cmds
        }),
{
    let mut out: Vec<PlannedCommand> = Vec::new();
    if opts.init_git {
        let mut args: Vec<String> = Vec::new();
        args.push(owned("init"));
        args.push(owned("-q"));
        let c = PlannedCommand { label: owned("git init"), program: owned("git"), args };
        assert(command_model(c).2 =~= seq!["init"@, "-q"@]);
        out.push(c);
    }
    let ghost git = out@.map_values(|c: PlannedCommand| command_model(c));
    assert(git =~= if opts.init_git {
        seq![("git init"@, "git"@, seq!["init"@, "-q"@])]
    } else {
        Seq::<(Seq<char>, Seq<char>, Seq<Seq<char>>)>::empty()
    });
    if opts.run_hooks {
        let mut i: usize = 0;
        while i < hooks.post_create.len()
            invariant
                i <= hooks.post_create@.len(),
                out@.map_values(|c: PlannedCommand| command_model(c))
                    == git + hooks.post_create@.take(i as int).map_values(|h: String| hook_model(h@, windows)),
            decreases hooks.post_create@.len() - i,
        {
            let cmd = hooks.post_create[i].as_str();
            let (program, args) = hook_command(cmd, windows);
            let c = PlannedCommand { label: owned(cmd), program, args };
            assert(command_model(c).2 =~= hook_model(cmd@, windows).2);
            assert(command_model(c) == hook_model(cmd@, windows));
            assert(hooks.post_create@[i as int]@ == cmd@);
            let ghost before = out@.map_values(|c: PlannedCommand| command_model(c));
            let ghost cm = command_model(c);
            out.push(c);
            proof {
                assert(out@.map_values(|c: PlannedCommand| command_model(c)) =~= before.push(cm));
                assert(hooks.post_create@.take(i + 1).map_values(|h: String| hook_model(h@, windows))
                    =~= hooks.post_create@.take(i as int).map_values(|h: String| hook_model(h@, windows)).push(hook_model(cmd@, windows)));
                assert(out@.map_values(|c: PlannedCommand| command_model(c)) =~= git
                    + hooks.post_create@.take(i + 1).map_values(|h: String| hook_model(h@, windows)));
            }
            i += 1;
        }
        assert(hooks.post_create@.take(hooks.post_create@.len() as int) =~= hooks.post_create@);
    } else {
        assert(out@.map_values(|c: PlannedCommand| command_model(c)) =~= git + Seq::<(Seq<char>, Seq<char>, Seq<Seq<char>>)>::empty());
    }
    out
}

/// Whether the template entry at `rel` is read for placeholders: a regular
/// file that is not one of Inherit's own and not ignored.
pub fn should_scan(rel: &str, is_file: bool, ignored: bool) -> (r: bool)
    ensures
        r == (!is_system_path(rel@) && !ignored && is_file),
{
    !is_always_ignored(rel) && !ignored && is_file
}

/// Adds every name of `other` to `set`.
pub fn add_names(set: &mut NameSet, other: &NameSet)
    ensures
        final(set)@ == old(set)@ + other@,
{
    let names = other.items();
    let mut k: usize = 0;
    while k < names.len()
        invariant
            k <= names@.len(),
            NameSet::names_of(names@).to_set() == other@,
            set@ == old(set)@ + NameSet::names_of(names@).take(k as int).to_set(),
        decreases names@.len() - k,
    {
        set.insert(names[k].clone());
        proof {
            broadcast use vstd::seq_lib::group_seq_properties;
            assert(NameSet::names_of(names@).take(k + 1) =~= NameSet::names_of(names@).take(k as int).push(names@[k as int]@));
            assert(set@ =~= old(set)@ + NameSet::names_of(names@).take(k + 1).to_set());
        }
        k += 1;
    }
    assert(NameSet::names_of(names@).take(names@.len() as int) =~= NameSet::names_of(names@));
}

} // verus!
