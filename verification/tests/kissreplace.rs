use inherit::replace::KissReplace;
use inherit::scan::extract_vars;
use inherit::valid::is_valid_var_name;
use inherit::Variables;
use std::path::PathBuf;

fn make_vars(pairs: &[(&str, &str)]) -> Variables {
    let mut vars = Variables::new();
    for (k, v) in pairs {
        vars.insert(k.to_string(), v.to_string());
    }
    vars
}

#[test]
fn test_basic_replacement() {
    let vars = make_vars(&[("NAME", "World"), ("PROJECT", "test")]);
    assert_eq!(
        vars.replace_str("Hello @NAME@, project @PROJECT@!"),
        "Hello World, project test!"
    );
}

#[test]
fn test_missing_var_preserved() {
    let vars = make_vars(&[("NAME", "World")]);
    assert_eq!(
        vars.replace_str("@NAME@ and @MISSING@"),
        "World and @MISSING@"
    );
}

#[test]
fn test_empty_at_at() {
    let vars = make_vars(&[("X", "Y")]);
    assert_eq!(vars.replace_str("@@X@@"), "@Y@");
}

#[test]
fn test_invalid_names_preserved() {
    let vars = make_vars(&[("X", "Y")]);
    assert_eq!(
        vars.replace_str("@var-name@ and @123@ and @X@"),
        "@var-name@ and @123@ and Y"
    );
}

#[test]
fn test_unclosed_at() {
    let vars = make_vars(&[("X", "Y")]);
    assert_eq!(vars.replace_str("hello @X and @X@"), "hello @X and Y");
}

#[test]
fn test_consecutive_vars() {
    let vars = make_vars(&[("A", "1"), ("B", "2")]);
    assert_eq!(vars.replace_str("@A@@B@"), "12");
}

#[test]
fn test_no_vars() {
    let vars = Variables::new();
    assert_eq!(vars.replace_str("no vars here"), "no vars here");
}

#[test]
fn test_empty_string() {
    let vars = Variables::new();
    assert_eq!(vars.replace_str(""), "");
}

#[test]
fn test_replace_paths() {
    let vars = make_vars(&[("PROJECT", "my_app")]);
    let paths = vec![
        PathBuf::from("src/@PROJECT@/main.rs"),
        PathBuf::from("config/@PROJECT@.toml"),
    ];
    let texts: Vec<String> = paths.iter().map(|p| p.to_string_lossy().into_owned()).collect();
    let result: Vec<PathBuf> = vars.replace_paths(texts).into_iter().map(PathBuf::from).collect();
    assert_eq!(result[0], PathBuf::from("src/my_app/main.rs"));
    assert_eq!(result[1], PathBuf::from("config/my_app.toml"));
}

#[test]
fn test_replace_mut() {
    let vars = make_vars(&[("X", "Y")]);
    let mut v = vec!["@X@".to_string(), "plain".to_string()];
    vars.replace_mut(&mut v);
    assert_eq!(v, vec!["Y", "plain"]);
}

#[test]
fn test_nested_looking() {
    let vars = make_vars(&[("A", "@B@"), ("B", "X")]);
    assert_eq!(vars.replace_str("@A@"), "@B@");
}

#[test]
fn replace_returns_new_strings() {
    let vars = make_vars(&[("A", "1")]);
    let out = vars.replace(vec!["x@A@y".to_string(), "@B@".to_string()]);
    assert_eq!(out, vec!["x1y".to_string(), "@B@".to_string()]);
}

#[test]
fn unknown_placeholders_survive_any_variables() {
    // Law: when no name used by the text has a value, the text is unchanged.
    let vars = make_vars(&[("OTHER", "zzz")]);
    let text = "a @B@ c @@ d @x_1@ @ e @9@";
    assert_eq!(vars.replace_str(text), text);
    assert_eq!(Variables::new().replace_str(text), text);
}

#[test]
fn text_without_at_is_unchanged() {
    let vars = make_vars(&[("A", "1")]);
    assert_eq!(vars.replace_str("plain A text"), "plain A text");
}

#[test]
fn placeholder_closed_by_later_at_after_invalid_candidate() {
    let vars = make_vars(&[("B", "2")]);
    // '@a b@' is no name; the second '@' then opens '@B@'.
    assert_eq!(vars.replace_str("@a b@B@"), "@a b2");
}

#[test]
fn non_ascii_text_is_kept() {
    let vars = make_vars(&[("N", "ü")]);
    assert_eq!(vars.replace_str("ä@N@ö €"), "äüö €");
}

#[test]
fn extract_vars_finds_valid_names_once() {
    let names = extract_vars("@A@ @B@ @A@ @no-name@ @_x9@ @ @@C");
    assert_eq!(names.len(), 3);
    assert!(names.contains("A"));
    assert!(names.contains("B"));
    assert!(names.contains("_x9"));
    assert!(!names.contains("no-name"));
    assert!(!names.contains("C"));
}

#[test]
fn extract_vars_of_text_without_placeholders_is_empty() {
    assert!(extract_vars("nothing here").is_empty());
    assert!(extract_vars("").is_empty());
}

#[test]
fn extract_matches_what_replace_substitutes() {
    let text = "@@X@@ and @Y@ @1@";
    let names = extract_vars(text);
    assert!(names.contains("X"));
    assert!(names.contains("Y"));
    assert_eq!(names.len(), 2);
    let vars = make_vars(&[("X", "x"), ("Y", "y")]);
    assert_eq!(vars.replace_str(text), "@x@ and y @1@");
}

#[test]
fn valid_names() {
    assert!(is_valid_var_name("PROJECT_NAME"));
    assert!(is_valid_var_name("_a1"));
    assert!(is_valid_var_name("z"));
    assert!(!is_valid_var_name(""));
    assert!(!is_valid_var_name("1abc"));
    assert!(!is_valid_var_name("a-b"));
    assert!(!is_valid_var_name("é"));
    assert!(!is_valid_var_name("a b"));
}

#[test]
fn variables_map_operations() {
    let mut vars = Variables::new();
    assert!(vars.is_empty());
    assert_eq!(vars.insert("A".to_string(), "1".to_string()), None);
    assert_eq!(vars.insert("A".to_string(), "2".to_string()), Some("1".to_string()));
    vars.insert("B".to_string(), "3".to_string());
    assert_eq!(vars.len(), 2);
    assert_eq!(vars.get("A").map(|s| s.as_str()), Some("2"));
    assert!(vars.contains_key("B"));
    assert_eq!(vars.remove("B"), Some("3".to_string()));
    assert_eq!(vars.remove("B"), None);
    assert!(!vars.contains_key("B"));
    assert_eq!(vars.len(), 1);
    assert_eq!(vars.entries().len(), 1);
}

#[test]
fn only_used_variables_matter() {
    let text = "x @A@ y @B@";
    let small = make_vars(&[("A", "1")]);
    let big = make_vars(&[("A", "1"), ("C", "3"), ("D", "4")]);
    assert_eq!(small.replace_str(text), big.replace_str(text));
    assert_eq!(small.replace_str(text), "x 1 y @B@");
}

#[test]
fn test_no_key_placeholder_leaves_text() {
    let vars = make_vars(&[("a", "1"), ("b", "2")]);
    let input = "x@c@y @a b@ @@ a@b";
    assert_eq!(vars.replace_str(input), input);
    assert_eq!(Variables::new().replace_str("no vars here"), "no vars here");
    assert_eq!(Variables::new().replace_str(""), "");
}

#[test]
fn test_scanned_name_iff_empty_value_changes_text() {
    let content = "@a@ and @b and @c@";
    let names = extract_vars(content);
    for n in ["a", "b", "c", "d"] {
        let changed = make_vars(&[(n, "")]).replace_str(content) != content;
        assert_eq!(names.contains(&n.to_string()), changed, "name {}", n);
    }
}
