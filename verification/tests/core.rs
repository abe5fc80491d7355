use inherit::ignore_rules::{is_always_ignored, InheritIgnore};
use inherit::manifest::{Hooks, TemplateInfo};
use inherit::pipeline::{
    add_names, check_variables, finishing_commands, hook_command, plan_entry, should_scan, EntryPlan,
};
use inherit::replace::KissReplace;
use inherit::scan::extract_vars;
use inherit::{load_template, InheritError, Manifest, NameSet, ProcessOptions, ProcessResult, Variables};

fn vars_of(pairs: &[(&str, &str)]) -> Variables {
    let mut vars = Variables::new();
    for (k, v) in pairs {
        vars.insert(k.to_string(), v.to_string());
    }
    vars
}

fn names_of(names: &[&str]) -> NameSet {
    let mut set = NameSet::new();
    for n in names {
        set.insert(n.to_string());
    }
    set
}

/// The manifest of the `cargo-lib` example template.
fn cargo_lib_manifest() -> Manifest {
    Manifest {
        template: TemplateInfo { name: Some("cargo-lib".to_string()), description: None },
        variables: vars_of(&[
            ("PROJECT_NAME", "Name of the project"),
            ("AUTHOR", "Author of the project"),
            ("VERSION", "Initial version"),
            ("DESCRIPTION", "Short description"),
        ]),
        hooks: Hooks { post_create: vec![] },
    }
}

#[test]
fn test_load_template_context() {
    let scanned = extract_vars("[package]\nname = \"@PROJECT_NAME@\"\nauthors = [\"@AUTHOR@\"]\n");
    let ctx = load_template(cargo_lib_manifest(), scanned);

    assert!(ctx.required_vars.contains("PROJECT_NAME"));
    assert!(ctx.required_vars.contains("AUTHOR"));

    assert_eq!(
        ctx.var_descriptions.get("PROJECT_NAME").unwrap(),
        "Name of the project"
    );
}

#[test]
fn load_template_adds_names_found_only_in_files() {
    let scanned = extract_vars("@EXTRA@ and @PROJECT_NAME@");
    let ctx = load_template(cargo_lib_manifest(), scanned);
    assert_eq!(ctx.required_vars.len(), 5);
    assert!(ctx.required_vars.contains("EXTRA"));
    assert!(!ctx.var_descriptions.contains_key("EXTRA"));
    assert_eq!(ctx.var_descriptions.len(), 4);
}

#[test]
fn test_missing_variable_error() {
    let ctx = load_template(cargo_lib_manifest(), NameSet::new());
    let final_vars = vars_of(&[
        ("PROJECT_NAME", "awesome_lib"),
        ("AUTHOR", "Alice"),
        ("VERSION", "0.1.0"),
    ]);
    match check_variables(&ctx.required_vars, &final_vars) {
        Err(InheritError::MissingVariables(missing)) => {
            assert_eq!(missing, vec!["DESCRIPTION".to_string()]);
        }
        _ => panic!("expected missing variables"),
    }
}

#[test]
fn empty_value_counts_as_missing() {
    let required = names_of(&["A", "B"]);
    let final_vars = vars_of(&[("A", ""), ("B", "x")]);
    match check_variables(&required, &final_vars) {
        Err(InheritError::MissingVariables(missing)) => assert_eq!(missing, vec!["A".to_string()]),
        _ => panic!("expected missing variables"),
    }
}

#[test]
fn invalid_supplied_name_is_rejected() {
    let required = names_of(&["A"]);
    let final_vars = vars_of(&[("A", "1"), ("not-valid", "2")]);
    match check_variables(&required, &final_vars) {
        Err(InheritError::InvalidVariable(k)) => assert_eq!(k, "not-valid"),
        _ => panic!("expected an invalid variable"),
    }
}

#[test]
fn complete_values_pass() {
    let required = names_of(&["A", "B"]);
    let final_vars = vars_of(&[("A", "1"), ("B", "2"), ("C", "3")]);
    assert!(check_variables(&required, &final_vars).is_ok());
}

#[test]
fn test_variable_in_filename() {
    let final_vars = vars_of(&[("NAME", "world")]);
    match plan_entry("hello-@NAME@.txt", false, true, false, &final_vars) {
        EntryPlan::File(p) => assert_eq!(p, "hello-world.txt"),
        _ => panic!("expected a file"),
    }
    assert_eq!(final_vars.replace_str("Hi @NAME@"), "Hi world");
}

#[test]
fn plan_skips_system_ignored_and_special_entries() {
    let vars = vars_of(&[("D", "dir")]);
    assert!(matches!(plan_entry("Inherit.toml", false, true, false, &vars), EntryPlan::Skip));
    assert!(matches!(plan_entry(".git/HEAD", false, true, false, &vars), EntryPlan::Skip));
    assert!(matches!(plan_entry("x.txt", false, true, true, &vars), EntryPlan::Skip));
    assert!(matches!(plan_entry("link", false, false, false, &vars), EntryPlan::Skip));
    match plan_entry("src/@D@", true, false, false, &vars) {
        EntryPlan::Directory(p) => assert_eq!(p, "src/dir"),
        _ => panic!("expected a directory"),
    }
}

#[test]
fn system_paths() {
    assert!(is_always_ignored("Inherit.toml"));
    assert!(is_always_ignored(".inherignore"));
    assert!(is_always_ignored(".git"));
    assert!(is_always_ignored(".git/config"));
    assert!(!is_always_ignored(".gitignore"));
    assert!(!is_always_ignored("src/Inherit.toml"));
    assert!(!is_always_ignored("Inherit.tomlx"));
    assert!(should_scan("a.txt", true, false));
    assert!(!should_scan("Inherit.toml", true, false));
    assert!(!should_scan("a.txt", true, true));
    assert!(!should_scan("dir", false, false));
}

#[test]
fn test_generate_respects_inherignore() {
    let ignore = InheritIgnore::load("tpl", Some("ignored.txt\n"));
    assert!(ignore.is_ignored("ignored.txt", false));
    assert!(!ignore.is_ignored("kept.txt", false));
    let vars = Variables::new();
    assert!(matches!(
        plan_entry("ignored.txt", false, true, ignore.is_ignored("ignored.txt", false), &vars),
        EntryPlan::Skip
    ));
}

#[test]
fn ignore_file_patterns() {
    let ignore = InheritIgnore::load("tpl", Some("\u{feff}# comment\r\ntarget/\n*.log\n!keep.log\n"));
    assert!(ignore.is_ignored("target", true));
    assert!(!ignore.is_ignored("target", false));
    assert!(ignore.is_ignored("a.log", false));
    assert!(ignore.is_ignored("sub/b.log", false));
    assert!(!ignore.is_ignored("keep.log", false));
    assert!(!ignore.is_ignored("a.txt", false));
    let none = InheritIgnore::load("tpl", None);
    assert!(!none.is_ignored("anything", false));
}

#[test]
fn hook_commands() {
    let (prog, args) = hook_command("touch x", false);
    assert_eq!(prog, "sh");
    assert_eq!(args, vec!["-c".to_string(), "touch x".to_string()]);
    let (prog, args) = hook_command("echo", true);
    assert_eq!(prog, "cmd");
    assert_eq!(args, vec!["/C".to_string(), "echo".to_string()]);
}

#[test]
fn defaults_of_options_and_results() {
    let o = ProcessOptions::default();
    assert!(o.init_git && o.run_hooks);
    let r = ProcessResult::default();
    assert_eq!((r.processed_files, r.binary_files), (0, 0));
    let m = Manifest::default();
    assert!(m.variables.is_empty() && m.hooks.post_create.is_empty() && m.template.name.is_none());
}

#[test]
fn union_of_name_sets() {
    let mut a = names_of(&["A", "B"]);
    add_names(&mut a, &names_of(&["B", "C"]));
    assert_eq!(a.len(), 3);
    assert!(a.contains("C"));
}

#[test]
fn commands_after_generation() {
    let hooks = Hooks { post_create: vec!["cargo fmt".to_string(), "touch x".to_string()] };
    let all = finishing_commands(&ProcessOptions::default(), &hooks, false);
    let labels: Vec<&str> = all.iter().map(|c| c.label.as_str()).collect();
    assert_eq!(labels, vec!["git init", "cargo fmt", "touch x"]);
    assert_eq!(all[0].program, "git");
    assert_eq!(all[0].args, vec!["init".to_string(), "-q".to_string()]);
    assert_eq!(all[2].program, "sh");
    assert_eq!(all[2].args, vec!["-c".to_string(), "touch x".to_string()]);
    let none = finishing_commands(&ProcessOptions { init_git: false, run_hooks: false }, &hooks, false);
    assert!(none.is_empty());
    let only_hooks = finishing_commands(&ProcessOptions { init_git: false, run_hooks: true }, &hooks, true);
    assert_eq!(only_hooks.len(), 2);
    assert_eq!(only_hooks[0].program, "cmd");
}

#[test]
fn test_ignore_trailing_space_and_dot_root() {
    let ignore = InheritIgnore::load("./tpl", Some("a.txt  \n# only a comment\n\n"));
    assert!(ignore.is_ignored("a.txt", false));
    assert!(ignore.is_ignored("sub/a.txt", false));
    assert!(!ignore.is_ignored("b.txt", false));
    let comments = InheritIgnore::load("tpl", Some("# nothing\n   \n"));
    assert!(!comments.is_ignored("nothing", false));
}

#[test]
fn test_ignored_directory_excludes_contents() {
    let ignore = InheritIgnore::load("tpl", Some("target/\n*.log\n"));
    assert!(ignore.is_excluded("target", true));
    assert!(!ignore.is_ignored("target/debug/app", false));
    assert!(ignore.is_excluded("target/debug/app", false));
    assert!(ignore.is_excluded("target/debug", true));
    assert!(ignore.is_excluded("logs/a.log", false));
    assert!(!ignore.is_excluded("src/main.rs", false));
    assert!(!ignore.is_excluded("targets/x", false));
}
