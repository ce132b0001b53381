use replacer::expand::expand_typeof_replacements;
use replacer::plugin::{ReplaceError, ReplaceOptions, ReplacePlugin};
use replacer::source_map_type::SourceMapType;

fn table(pairs: &[(&str, &str)]) -> Vec<(String, String)> {
    pairs.iter().copied().map(|(k, v)| (k.to_string(), v.to_string())).collect()
}

fn plugin(pairs: &[(&str, &str)]) -> ReplacePlugin {
    ReplacePlugin::new(table(pairs)).unwrap()
}

#[test]
fn debug_flag_scenario() {
    let p = plugin(&[("DEBUG", "false")]);
    let out = p.transform("if (DEBUG) log();").unwrap();
    assert_eq!(out, Some("if (false) log();".to_string()));
}

#[test]
fn unchanged_text_is_identity() {
    let p = plugin(&[("DEBUG", "false")]);
    assert_eq!(p.transform("nothing to see here").unwrap(), None);
    assert_eq!(p.transform("").unwrap(), None);
}

#[test]
fn longest_target_wins() {
    let p = plugin(&[("a", "ONE"), ("ab", "TWO")]);
    assert_eq!(p.transform("ab").unwrap(), Some("TWO".to_string()));
    assert_eq!(p.transform("a").unwrap(), Some("ONE".to_string()));
}

#[test]
fn boundary_blocks_dotted_access() {
    let p = plugin(&[("window", "W")]);
    assert_eq!(p.transform("window.document").unwrap(), None);
    assert_eq!(p.transform("a window here").unwrap(), Some("a W here".to_string()));
    assert_eq!(p.transform("window").unwrap(), Some("W".to_string()));
}

#[test]
fn several_matches_all_replaced() {
    let p = plugin(&[("A", "1")]);
    assert_eq!(p.transform("A b A c A").unwrap(), Some("1 b 1 c 1".to_string()));
    assert_eq!(p.transform("b c d").unwrap(), None);
}

#[test]
fn compile_is_deterministic() {
    let pairs = [("DEBUG", "false"), ("VERSION", "\"1.0\"")];
    let p1 = plugin(&pairs);
    let p2 = plugin(&pairs);
    let text = "DEBUG VERSION DEBUG";
    assert_eq!(p1.transform(text).unwrap(), p2.transform(text).unwrap());
}

#[test]
fn expanded_typeof_rules_rewrite() {
    let values = table(&[("process.env.NODE_ENV", "\"production\"")]);
    let extra = expand_typeof_replacements(&values);
    let mut options = ReplaceOptions::default();
    options.values = values;
    options.literal_values = extra;
    let p = ReplacePlugin::with_options(options).unwrap();
    // The base table leaves the bare `typeof process` comparison alone, but
    // the expanded rule for the segment `process` is literal: it matches
    // without the boundary delimiters and rewrites the comparison head.
    assert_eq!(
        p.transform("typeof process === 'object'").unwrap(),
        Some("\"object\" === 'object'".to_string())
    );
    // Without the literal companion set the delimited alternation cannot
    // match `===` before a space, and the text comes back unchanged.
    let base_only = ReplacePlugin::new(table(&[("process.env.NODE_ENV", "\"production\"")]))
        .unwrap();
    assert_eq!(base_only.transform("typeof process === 'object'").unwrap(), None);
}

#[test]
fn target_with_special_characters_is_literal() {
    let p = plugin(&[("a.b", "X")]);
    assert_eq!(p.transform("a.b and acb").unwrap(), Some("X and acb".to_string()));
    assert_eq!(p.transform("acb").unwrap(), None);
}

#[test]
fn empty_table_changes_nothing() {
    let p = plugin(&[]);
    assert_eq!(p.transform("anything at all").unwrap(), None);
}

#[test]
fn custom_delimiters() {
    let options = ReplaceOptions {
        values: table(&[("NAME", "joe")]),
        delimiters: ("<".to_string(), ">".to_string()),
        literal_values: Vec::new(),
    };
    let p = ReplacePlugin::with_options(options).unwrap();
    // Only the captured target is replaced; the delimiter text stays.
    assert_eq!(p.transform("hello <NAME>!").unwrap(), Some("hello <joe>!".to_string()));
    assert_eq!(p.transform("hello NAME!").unwrap(), None);
}

#[test]
fn invalid_pattern_is_construction_error() {
    let options = ReplaceOptions {
        values: table(&[("x", "y")]),
        delimiters: ("(".to_string(), "".to_string()),
        literal_values: Vec::new(),
    };
    match ReplacePlugin::with_options(options) {
        Err(ReplaceError::InvalidPattern(_)) => {}
        Err(e) => panic!("expected an invalid-pattern error, got {e:?}"),
        Ok(_) => panic!("expected an invalid-pattern error, got a plugin"),
    }
}

#[test]
fn backtracking_budget_degrades_quietly() {
    // A delimiter built for catastrophic backtracking: the bounded budget
    // makes the scan give up quietly instead of hanging or failing.
    let options = ReplaceOptions {
        values: table(&[("x", "y")]),
        delimiters: ("(?:a+a+)+b".to_string(), "".to_string()),
        literal_values: Vec::new(),
    };
    let p = ReplacePlugin::with_options(options).unwrap();
    let text = "aaaaaaaaaaaaaaaaaaaaaaaaaaaaaaaaaaaa x aaaaaaaaaaaaaaaaaaaaaaaaaaaaaaaaaaaa";
    assert_eq!(p.transform(text).unwrap(), None);
}

#[test]
fn unicode_target_replaced() {
    let p = plugin(&[("héllo", "X")]);
    assert_eq!(p.transform("a héllo b").unwrap(), Some("a X b".to_string()));
}

#[test]
fn multibyte_replacement_spliced() {
    let p = plugin(&[("A", "ñ")]);
    assert_eq!(p.transform("A y A").unwrap(), Some("ñ y ñ".to_string()));
}

#[test]
fn empty_target_records_no_edit() {
    // An empty target matches an empty span at a word boundary; the edit is
    // degenerate and skipped, so the text comes back byte-identical even
    // though a match was found.
    let p = plugin(&[("", "X")]);
    assert_eq!(p.transform("ab").unwrap(), Some("ab".to_string()));
}

#[test]
fn plugin_reports_its_name() {
    let p = plugin(&[]);
    assert_eq!(p.name(), "builtin:replace".to_string());
}

#[test]
fn source_map_type_from_names() {
    assert!(matches!(SourceMapType::from("file".to_string()), SourceMapType::File));
    assert!(matches!(SourceMapType::from("inline".to_string()), SourceMapType::Inline));
    assert!(matches!(SourceMapType::from("hidden".to_string()), SourceMapType::Hidden));
}
