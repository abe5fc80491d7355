use inherit::cli::{parse, usage, Command, ALIAS_USAGE, CACHE_USAGE, DEFAULT_USAGE};
use inherit::commands::{add_alias, alias_target, apply_default, check_default_name, open_command};
use inherit::config::{cache_dir, config_path, patch_table_entry, remove_table_entry, Config};
use inherit::order::{sorted_entries, sorted_names, text_less};
use inherit::prompt::{non_interactive_values, prompt_label, prompt_plan};
use inherit::resolve::{public_cache_key, resolve_template, source_to_clone_url, TemplateSource};
use inherit::{NameSet, Variables};

fn args(a: &[&str]) -> Vec<String> {
    a.iter().map(|s| s.to_string()).collect()
}

fn vars_of(pairs: &[(&str, &str)]) -> Variables {
    let mut vars = Variables::new();
    for (k, v) in pairs {
        vars.insert(k.to_string(), v.to_string());
    }
    vars
}

#[test]
fn parse_commands() {
    assert!(matches!(parse(args(&["alias", "list"])), Ok(Command::AliasList)));
    assert!(matches!(parse(args(&["alias", "list", "extra"])), Ok(Command::AliasList)));
    assert!(matches!(parse(args(&["alias", "remove", "x"])), Ok(Command::AliasRemove { name }) if name == "x"));
    assert!(matches!(parse(args(&["default", "list"])), Ok(Command::DefaultList)));
    assert!(matches!(parse(args(&["default", "for", "A"])), Ok(Command::DefaultSet { name }) if name == "A"));
    assert!(matches!(parse(args(&["default", "unset", "A"])), Ok(Command::DefaultUnset { name }) if name == "A"));
    assert!(matches!(parse(args(&["cache", "list"])), Ok(Command::CacheList)));
    assert!(matches!(parse(args(&["cache", "clean"])), Ok(Command::CacheClean)));
    assert!(matches!(parse(args(&["u/r"])), Ok(Command::Generate { template, target: None }) if template == "u/r"));
    assert!(matches!(parse(args(&["u/r", "to", "d"])), Ok(Command::Generate { template, target: Some(t) }) if template == "u/r" && t == "d"));
    assert!(matches!(parse(args(&["u/r", "to", "alias", "a"])), Ok(Command::AliasAdd { template, alias }) if template == "u/r" && alias == "a"));
}

#[test]
fn parse_usage_errors() {
    assert_eq!(parse(args(&[])).err().unwrap(), usage());
    assert!(usage().starts_with("Usage:\n   inherit <user/repo>"));
    assert_eq!(parse(args(&["alias"])).err().unwrap(), ALIAS_USAGE);
    assert_eq!(parse(args(&["alias", "remove"])).err().unwrap(), ALIAS_USAGE);
    assert_eq!(parse(args(&["default", "for"])).err().unwrap(), DEFAULT_USAGE);
    assert_eq!(parse(args(&["cache", "x"])).err().unwrap(), CACHE_USAGE);
    assert_eq!(parse(args(&["u/r", "into", "d"])).err().unwrap(), usage());
    assert_eq!(parse(args(&["u/r", "to"])).err().unwrap(), usage());
}

#[test]
fn resolve_sources() {
    let mut cfg = Config::default();
    cfg.aliases.insert("rl".to_string(), "me/rust-lib".to_string());
    assert!(matches!(resolve_template("user/repo", &cfg), Ok(TemplateSource::GitHub { user, repo }) if user == "user" && repo == "repo"));
    assert!(matches!(resolve_template("user/a/b", &cfg), Ok(TemplateSource::GitHub { user, repo }) if user == "user" && repo == "a/b"));
    assert!(matches!(resolve_template("rl", &cfg), Ok(TemplateSource::GitHub { user, repo }) if user == "me" && repo == "rust-lib"));
    assert!(matches!(resolve_template("https://x.org/t.git", &cfg), Ok(TemplateSource::Url(u)) if u == "https://x.org/t.git"));
    assert!(matches!(resolve_template("/abs/path", &cfg), Ok(TemplateSource::Url(u)) if u == "/abs/path"));
    assert!(matches!(resolve_template("file:///t", &cfg), Ok(TemplateSource::Url(_))));
    assert_eq!(
        resolve_template("noslash", &cfg).err().unwrap(),
        "Template 'noslash' must be 'user/repo', a URL, or resolve to one via an alias"
    );
    assert!(resolve_template("/", &cfg).is_ok());
    assert!(resolve_template("user/", &cfg).is_err());
    assert!(resolve_template("/x", &cfg).is_ok());
    assert!(resolve_template("a//", &cfg).is_ok());
}

#[test]
fn clone_urls_and_cache_keys() {
    let gh = TemplateSource::GitHub { user: "u".to_string(), repo: "r".to_string() };
    assert_eq!(source_to_clone_url(&gh, None), "https://github.com/u/r.git");
    assert_eq!(source_to_clone_url(&gh, Some("tok")), "https://tok@github.com/u/r.git");
    assert_eq!(public_cache_key(&gh), "https://github.com/u/r.git");
    let url = TemplateSource::Url("file:///t".to_string());
    assert_eq!(source_to_clone_url(&url, Some("tok")), "file:///t");
    assert_eq!(public_cache_key(&url), "file:///t");
}

#[test]
fn test_add_alias() {
    let mut cfg = Config::default();
    let update = add_alias(&mut cfg, "user/repo", "myalias".to_string()).unwrap();
    assert_eq!(update.full_name, "user/repo");
    assert!(update.previous.is_none());

    let content = patch_table_entry("", "aliases", "myalias", &update.full_name);
    assert!(content.contains("[aliases]"));
    assert!(content.contains("myalias = \"user/repo\""));
}

#[test]
fn test_update_alias() {
    let mut cfg = Config::default();
    cfg.aliases.insert("myalias".to_string(), "old/repo".to_string());
    let update = add_alias(&mut cfg, "new/repo", "myalias".to_string()).unwrap();
    assert_eq!(update.previous.as_deref(), Some("old/repo"));

    let content = patch_table_entry("\n[aliases]\nmyalias = \"old/repo\"\n", "aliases", "myalias", &update.full_name);
    assert!(content.contains("myalias = \"new/repo\""));
    assert!(!content.contains("old/repo"));
}

#[test]
fn alias_of_alias_stands_for_its_template() {
    let mut cfg = Config::default();
    add_alias(&mut cfg, "user/repo", "a".to_string()).unwrap();
    let update = add_alias(&mut cfg, "a", "b".to_string()).unwrap();
    assert_eq!(update.full_name, "user/repo");
    assert!(matches!(resolve_template("b", &cfg), Ok(TemplateSource::GitHub { user, repo }) if user == "user" && repo == "repo"));
    let url = TemplateSource::Url("https://x".to_string());
    assert_eq!(alias_target(&url), "https://x");
}

#[test]
fn unresolvable_alias_changes_nothing() {
    let mut cfg = Config::default();
    assert!(add_alias(&mut cfg, "bad", "x".to_string()).is_err());
    assert!(cfg.aliases.is_empty());
}

#[test]
fn test_list_aliases() {
    let aliases = vars_of(&[("beta", "user/beta"), ("alpha", "user/alpha")]);
    let sorted = sorted_entries(&aliases);
    assert_eq!(
        sorted,
        vec![
            ("alpha".to_string(), "user/alpha".to_string()),
            ("beta".to_string(), "user/beta".to_string())
        ]
    );
}

#[test]
fn test_list_empty_aliases() {
    let cfg = Config::default();
    assert!(cfg.aliases.is_empty());
    assert!(sorted_entries(&cfg.aliases).is_empty());
}

#[test]
fn test_remove_alias() {
    let content = "\n[aliases]\nmyalias = \"user/repo\"\n";
    let out = remove_table_entry(content, "aliases", "myalias").unwrap();
    assert!(!out.contains("myalias"));
    assert_eq!(out, "\n[aliases]\n");
}

#[test]
fn test_remove_nonexistent_alias() {
    let cfg = Config::default();
    assert!(!cfg.aliases.contains_key("ghost"));
    assert!(remove_table_entry("", "aliases", "ghost").is_none());
}

#[test]
fn test_list_defaults() {
    let defaults = vars_of(&[("VERSION", "1.0"), ("AUTHOR", "Alice")]);
    let sorted = sorted_entries(&defaults);
    assert_eq!(sorted[0], ("AUTHOR".to_string(), "Alice".to_string()));
    assert_eq!(sorted[1], ("VERSION".to_string(), "1.0".to_string()));
}

#[test]
fn test_list_empty_defaults() {
    assert!(sorted_entries(&Config::default().defaults).is_empty());
}

#[test]
fn test_unset_default() {
    let content = "\n[defaults]\nAUTHOR = \"Alice\"\nVERSION = \"1.0\"\n";
    let out = remove_table_entry(content, "defaults", "AUTHOR").unwrap();
    assert!(!out.contains("AUTHOR"));
    assert!(out.contains("VERSION"));
}

#[test]
fn test_unset_nonexistent_default() {
    assert!(remove_table_entry("", "defaults", "GHOST").is_none());
    assert!(remove_table_entry("[defaults]\nA = \"1\"\n[aliases]\nGHOST = \"x\"\n", "defaults", "GHOST").is_none());
}

#[test]
fn patch_inserts_at_end_of_section_and_keeps_comments() {
    let content = "# top\n[defaults]\n# keep me\nA = \"1\"\n\n[aliases]\nx = \"y\"\n";
    let out = patch_table_entry(content, "defaults", "B", "2");
    assert_eq!(out, "# top\n[defaults]\n# keep me\nA = \"1\"\n\nB = \"2\"\n[aliases]\nx = \"y\"\n");
    let out = patch_table_entry(content, "defaults", "A", "z");
    assert_eq!(out, "# top\n[defaults]\n# keep me\nA = \"z\"\n\n[aliases]\nx = \"y\"\n");
    let out = patch_table_entry("a = 1", "t", "k", "v");
    assert_eq!(out, "a = 1\n\n[t]\nk = \"v\"\n");
}

#[test]
fn patch_escapes_values() {
    let out = patch_table_entry("[d]\n", "d", "K", "a\"b\\c\n\té\u{1}");
    assert_eq!(out, "[d]\nK = \"a\\\"b\\\\c\\n\\té\\u0001\"\n");
}

#[test]
fn remove_undoes_patch() {
    let content = "[defaults]\nA = \"1\"\n[aliases]\n";
    let patched = patch_table_entry(content, "defaults", "B", "2");
    assert_eq!(remove_table_entry(&patched, "defaults", "B").unwrap(), content);
}

#[test]
fn default_names_and_values() {
    assert!(check_default_name("AUTHOR").is_ok());
    assert_eq!(
        check_default_name("bad-name").err().unwrap(),
        "Invalid variable name `bad-name`. Must match [a-zA-Z_][a-zA-Z0-9_]*"
    );
    let mut cfg = Config::default();
    assert!(!apply_default(&mut cfg, "A".to_string(), "x".to_string()));
    assert_eq!(cfg.defaults.get("A").unwrap(), "x");
    assert!(apply_default(&mut cfg, "A".to_string(), String::new()));
    assert!(!cfg.defaults.contains_key("A"));
}

#[test]
fn config_and_cache_locations() {
    let p = config_path(Some("/c.toml".to_string()), Some("/home/u/.config".to_string())).unwrap();
    assert_eq!(p.base, "/c.toml");
    assert!(p.parts.is_empty());
    let p = config_path(None, Some("/home/u/.config".to_string())).unwrap();
    assert_eq!(p.parts, vec!["inherit".to_string(), "config.toml".to_string()]);
    assert_eq!(config_path(None, None).err().unwrap(), "Cannot determine config directory");

    let mut cfg = Config::default();
    let p = cache_dir(&cfg, None, Some("/home/u".to_string()), Some("/home/u/.cache".to_string())).unwrap();
    assert_eq!((p.base.as_str(), p.parts.clone()), ("/home/u/.cache", vec!["inherit".to_string()]));
    assert_eq!(cache_dir(&cfg, None, None, None).err().unwrap(), "Cannot determine cache directory");
    cfg.cache_dir = Some("~/cache/inherit".to_string());
    let p = cache_dir(&cfg, None, Some("/home/u".to_string()), None).unwrap();
    assert_eq!((p.base.as_str(), p.parts.clone()), ("/home/u", vec!["cache/inherit".to_string()]));
    assert_eq!(cache_dir(&cfg, None, None, None).err().unwrap(), "No home directory");
    cfg.cache_dir = Some("/var/cache".to_string());
    let p = cache_dir(&cfg, None, None, None).unwrap();
    assert_eq!(p.base, "/var/cache");
    let p = cache_dir(&cfg, Some("/env".to_string()), None, None).unwrap();
    assert_eq!(p.base, "/env");
}

#[test]
fn test_generate_missing_variable_error() {
    let mut required = NameSet::new();
    required.insert("PROJECT_NAME".to_string());
    required.insert("AUTHOR".to_string());
    let defaults = vars_of(&[("PROJECT_NAME", "p")]);
    let err = non_interactive_values(&required, &defaults).err().unwrap();
    assert!(err.contains("AUTHOR"));
    assert_eq!(err, "Missing required variable `AUTHOR` (no default) in non-interactive mode");
}

#[test]
fn non_interactive_values_take_defaults() {
    let mut required = NameSet::new();
    required.insert("B".to_string());
    required.insert("A".to_string());
    let defaults = vars_of(&[("A", "1"), ("B", "2"), ("C", "3")]);
    let vars = non_interactive_values(&required, &defaults).unwrap();
    assert_eq!(vars.len(), 2);
    assert_eq!(vars.get("B").unwrap(), "2");
    let err = non_interactive_values(&required, &vars_of(&[])).err().unwrap();
    assert!(err.contains("`A`"));
}

#[test]
fn prompt_plans_are_sorted_and_labelled() {
    let mut required = NameSet::new();
    required.insert("b".to_string());
    required.insert("A".to_string());
    required.insert("a".to_string());
    let descriptions = vars_of(&[("a", "lower")]);
    let defaults = vars_of(&[("A", "x")]);
    let plan = prompt_plan(&required, &descriptions, &defaults);
    let names: Vec<&str> = plan.iter().map(|p| p.name.as_str()).collect();
    assert_eq!(names, vec!["A", "a", "b"]);
    assert_eq!(plan[0].label, "A (Value)");
    assert_eq!(plan[1].label, "a (lower)");
    assert_eq!(plan[0].default.as_deref(), Some("x"));
    assert!(plan[1].default.is_none());
    assert_eq!(prompt_label("X", &descriptions), "X (Value)");
}

#[test]
fn text_order_is_string_order() {
    for (a, b) in [("a", "b"), ("", "a"), ("ab", "abc"), ("Z", "a"), ("é", "z")] {
        assert_eq!(text_less(a, b), a < b);
        assert_eq!(text_less(b, a), b < a);
    }
    assert!(!text_less("same", "same"));
    let mut set = NameSet::new();
    for n in ["zeta", "Alpha", "beta", "alpha"] {
        set.insert(n.to_string());
    }
    let mut expected = vec!["zeta", "Alpha", "beta", "alpha"];
    expected.sort();
    assert_eq!(sorted_names(&set), expected);
}

#[test]
fn patch_normalizes_line_endings() {
    let content = "[defaults]\r\nA = \"1\"\r\n";
    let out = patch_table_entry(content, "defaults", "B", "2");
    assert_eq!(out, "[defaults]\nA = \"1\"\nB = \"2\"\n");
    let out = remove_table_entry(content, "defaults", "A").unwrap();
    assert_eq!(out, "[defaults]\n");
}

#[test]
fn patch_updates_last_setting_within_the_first_table_only() {
    let content = "[defaults]\nA = \"1\"\nA = \"2\"\n[defaults]\nA = \"3\"\n";
    let out = patch_table_entry(content, "defaults", "A", "x");
    assert_eq!(out, "[defaults]\nA = \"1\"\nA = \"x\"\n[defaults]\nA = \"3\"\n");
    let out = remove_table_entry(content, "defaults", "A").unwrap();
    assert_eq!(out, "[defaults]\nA = \"2\"\n[defaults]\nA = \"3\"\n");
    // `A=1` (no space) does not count as setting `A` when patching, but names it when removing.
    let out = patch_table_entry("  [defaults]  \nA=1\n", "defaults", "A", "v");
    assert_eq!(out, "  [defaults]  \nA=1\nA = \"v\"\n");
    assert_eq!(remove_table_entry("[defaults]\n A =1\n", "defaults", "A").unwrap(), "[defaults]\n");
}

#[test]
fn test_parse_as_cargo_subcommand() {
    assert!(matches!(
        parse(args(&["inherit", "user/template-repo", "to", "my-project"])),
        Ok(Command::Generate { template, target: Some(t) }) if template == "user/template-repo" && t == "my-project"
    ));
    assert!(matches!(parse(args(&["inherit", "rust-lib", "to", "my-lib"])), Ok(Command::Generate { template, target: Some(t) }) if template == "rust-lib" && t == "my-lib"));
    assert!(matches!(parse(args(&["inherit", "alias", "list"])), Ok(Command::AliasList)));
    assert_eq!(parse(args(&["inherit"])).err().unwrap(), usage());
}

#[test]
fn test_open_command_words() {
    assert_eq!(open_command(None), None);
    assert_eq!(open_command(Some("")), None);
    assert_eq!(open_command(Some(" \t\n")), None);
    assert_eq!(open_command(Some("code")), Some(vec!["code".to_string()]));
    assert_eq!(
        open_command(Some("  code  --new-window\t-g ")),
        Some(vec!["code".to_string(), "--new-window".to_string(), "-g".to_string()])
    );
}

#[test]
fn test_patch_then_remove_gives_text_back() {
    let content = "[defaults]\nauthor = \"me\"\n\n[aliases]\nlib = \"u/lib\"\n";
    let patched = patch_table_entry(content, "aliases", "app", "u/app\n\"x\"");
    assert_ne!(patched, content);
    assert_eq!(remove_table_entry(&patched, "aliases", "app"), Some(content.to_string()));
    let patched = patch_table_entry(content, "defaults", "year", "2024");
    assert_eq!(remove_table_entry(&patched, "defaults", "year"), Some(content.to_string()));
}

#[test]
fn patch_writes_toml_basic_strings() {
    assert_eq!(patch_table_entry("[d]\n", "d", "n", "O'Brien"), "[d]\nn = \"O'Brien\"\n");
    assert_eq!(patch_table_entry("[d]\n", "d", "n", "Zoë"), "[d]\nn = \"Zoë\"\n");
    assert_eq!(
        patch_table_entry("[d]\n", "d", "n", "\u{8}\u{c}\r\u{1f}\u{7f}"),
        "[d]\nn = \"\\b\\f\\r\\u001f\\u007f\"\n"
    );
    for value in ["O'Brien", "Zoë", "a\"b\\c\n\té\u{1}\u{7f}", "日本語 🎉", "it's \"quoted\""] {
        let out = patch_table_entry("# config\n[defaults]\nauthor = \"me\"\n", "defaults", "name", value);
        let table: toml::Table = toml::from_str(&out).expect("patched file parses as TOML");
        let defaults = table["defaults"].as_table().unwrap();
        assert_eq!(defaults["name"].as_str(), Some(value));
        assert_eq!(defaults["author"].as_str(), Some("me"));
    }
}
