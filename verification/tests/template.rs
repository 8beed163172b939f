use swc_plugin_webpack_chunk_names::naming::generate_chunk_name;
use swc_plugin_webpack_chunk_names::template::{flatten_tpl, TemplateLiteral};

fn make_tpl(quasis_strs: &[&str], expr_names: &[&str]) -> TemplateLiteral {
    TemplateLiteral {
        cooked: quasis_strs.iter().map(|s| Some((*s).to_string())).collect(),
        expr_count: expr_names.len(),
    }
}

fn source_dirs() -> Option<&'static [String]> {
    None
}

#[test]
fn flatten_tpl_single_expr() {
    let tpl = make_tpl(&["./locale/", ""], &["language"]);
    assert_eq!(flatten_tpl(&tpl), Some("./locale/dynamic".to_string()));
}

#[test]
fn flatten_tpl_multiple_exprs() {
    let tpl = make_tpl(&["./", "/", ""], &["scope", "name"]);
    assert_eq!(flatten_tpl(&tpl), Some("./dynamic/dynamic".to_string()));
}

#[test]
fn flatten_tpl_no_exprs() {
    let tpl = make_tpl(&["./static/path"], &[]);
    assert_eq!(flatten_tpl(&tpl), Some("./static/path".to_string()));
}

#[test]
fn flatten_tpl_generates_chunk_name() {
    let dirs = source_dirs();
    let path = flatten_tpl(&make_tpl(&["./locale/", ""], &["language"])).unwrap();
    let name = generate_chunk_name(&path, Some("/project/mf-widgets/src/App.tsx"), dirs);
    assert_eq!(name, Some("mfWidgets.dynamic".to_string()));
}

#[test]
fn flatten_tpl_empty_quasis() {
    let tpl = make_tpl(&[""], &[]);
    assert_eq!(flatten_tpl(&tpl), None);
}

#[test]
fn flatten_tpl_only_expr() {
    let tpl = make_tpl(&["", ""], &["name"]);
    assert_eq!(flatten_tpl(&tpl), Some("dynamic".to_string()));
}

// A numeric expression (`./v${2}/api`) is one expression like any other.
#[test]
fn flatten_tpl_numeric_expr_uses_dynamic() {
    let tpl = TemplateLiteral {
        cooked: vec![Some("./v".to_string()), Some("/api".to_string())],
        expr_count: 1,
    };
    assert_eq!(flatten_tpl(&tpl), Some("./vdynamic/api".to_string()));
}

// A boolean expression (`./path/${true}`) is one expression like any other.
#[test]
fn flatten_tpl_any_expr_uses_dynamic() {
    let tpl = TemplateLiteral {
        cooked: vec![Some("./path/".to_string()), Some("".to_string())],
        expr_count: 1,
    };
    assert_eq!(flatten_tpl(&tpl), Some("./path/dynamic".to_string()));
}

#[test]
fn flatten_tpl_without_quasis_is_none() {
    let tpl = TemplateLiteral { cooked: vec![], expr_count: 0 };
    assert_eq!(flatten_tpl(&tpl), None);
}

#[test]
fn flatten_tpl_missing_first_cooked_is_none() {
    let tpl = TemplateLiteral { cooked: vec![None, Some("x".to_string())], expr_count: 1 };
    assert_eq!(flatten_tpl(&tpl), None);
}

#[test]
fn flatten_tpl_missing_later_cooked_is_none() {
    let tpl = TemplateLiteral {
        cooked: vec![Some("./a/".to_string()), None],
        expr_count: 1,
    };
    assert_eq!(flatten_tpl(&tpl), None);
}

#[test]
fn flatten_tpl_unpaired_quasi_is_not_read() {
    // Quasis beyond the number of expressions are not zipped in.
    let tpl = TemplateLiteral {
        cooked: vec![Some("lodash/".to_string()), Some("x".to_string()), None],
        expr_count: 1,
    };
    assert_eq!(flatten_tpl(&tpl), Some("lodash/dynamicx".to_string()));
}

#[test]
fn flatten_tpl_non_ascii_text_is_kept() {
    let tpl = make_tpl(&["./é/", ""], &["x"]);
    assert_eq!(flatten_tpl(&tpl), Some("./é/dynamic".to_string()));
}
