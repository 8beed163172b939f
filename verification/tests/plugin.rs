use swc_plugin_webpack_chunk_names::naming::generate_chunk_name;
use swc_plugin_webpack_chunk_names::plugin::{
    absolute_filename, is_dynamic_import, is_fallback_import_call, plan_import_call,
    resolve_filename, source_dirs_from_config, ArgumentSpan, Callee, ImportAction, ImportArgument,
    ImportCall, ImportWarning, PluginConfig,
};
use swc_plugin_webpack_chunk_names::template::TemplateLiteral;

/// Reads a raw plugin configuration the way the plugin entry point does:
/// a JSON object whose optional `dirs` member is a list of strings.
fn config_from_json(raw: Option<&str>) -> PluginConfig {
    let Some(raw) = raw else {
        return PluginConfig::Missing;
    };
    let Ok(value) = serde_json::from_str::<serde_json::Value>(raw) else {
        return PluginConfig::Invalid;
    };
    let Some(object) = value.as_object() else {
        return PluginConfig::Invalid;
    };
    match object.get("dirs") {
        None | Some(serde_json::Value::Null) => PluginConfig::Parsed { dirs: None },
        Some(serde_json::Value::Array(items)) => {
            let mut dirs = Vec::new();
            for item in items {
                match item.as_str() {
                    Some(s) => dirs.push(s.to_string()),
                    None => return PluginConfig::Invalid,
                }
            }
            PluginConfig::Parsed { dirs: Some(dirs) }
        },
        Some(_) => PluginConfig::Invalid,
    }
}

fn parse_plugin_config(raw: Option<String>) -> Option<Box<[String]>> {
    source_dirs_from_config(config_from_json(raw.as_deref())).map(Vec::into_boxed_slice)
}

#[test]
fn parse_plugin_config_missing_uses_defaults() {
    assert_eq!(parse_plugin_config(None), None);
}

#[test]
fn parse_plugin_config_invalid_uses_defaults() {
    assert_eq!(parse_plugin_config(Some("{invalid".to_string())), None);
}

#[test]
fn parse_plugin_config_valid_uses_source_dirs() {
    assert_eq!(
        parse_plugin_config(Some(r#"{"dirs":["client","shared"]}"#.to_string())),
        Some(vec!["client".to_string(), "shared".to_string()].into_boxed_slice())
    );
}

#[test]
fn parse_plugin_config_empty_object_uses_defaults() {
    assert_eq!(parse_plugin_config(Some("{}".to_string())), None);
}

#[test]
fn parse_plugin_config_extra_fields_ignored() {
    assert_eq!(
        parse_plugin_config(Some(r#"{"dirs":["client"],"unknown":true}"#.to_string())),
        Some(vec!["client".to_string()].into_boxed_slice())
    );
}

#[test]
fn config_with_empty_dirs_uses_defaults() {
    assert_eq!(source_dirs_from_config(PluginConfig::Parsed { dirs: Some(vec![]) }), None);
    assert_eq!(source_dirs_from_config(PluginConfig::Invalid), None);
    assert_eq!(source_dirs_from_config(PluginConfig::Missing), None);
}

#[test]
fn fallback_import_ident_call_is_supported() {
    let callee = Callee::Identifier("import".to_string());
    assert!(is_fallback_import_call(&callee));
}

#[test]
fn non_import_ident_call_is_not_fallback_import() {
    let callee = Callee::Identifier("load".to_string());
    assert!(!is_fallback_import_call(&callee));
}

#[test]
fn import_keyword_is_dynamic_import_but_not_fallback() {
    assert!(is_dynamic_import(&Callee::ImportKeyword));
    assert!(!is_fallback_import_call(&Callee::ImportKeyword));
    assert!(!is_dynamic_import(&Callee::Other));
    assert!(!is_dynamic_import(&Callee::Identifier("require".to_string())));
}

fn span(lo: u32) -> ArgumentSpan {
    ArgumentSpan { lo, synthetic: false, expr_lo: lo }
}

fn string_call(callee: Callee, value: &str) -> ImportCall {
    ImportCall {
        callee,
        first_argument: Some(ImportArgument::StringLiteral {
            value: value.to_string(),
            span: span(7),
        }),
    }
}

fn annotated(action: ImportAction) -> Option<(u32, String)> {
    match action {
        ImportAction::Annotate { position, chunk_name } => Some((position, chunk_name)),
        _ => None,
    }
}

fn warning(action: ImportAction) -> Option<ImportWarning> {
    match action {
        ImportAction::Warn(w) => Some(w),
        _ => None,
    }
}

#[test]
fn bare_import_is_annotated_at_the_literal() {
    let action = plan_import_call(&string_call(Callee::ImportKeyword, "lodash/fp/get"), None, None);
    assert_eq!(annotated(action), Some((7, "lodash.get".to_string())));
}

#[test]
fn fallback_import_is_annotated() {
    let call = string_call(Callee::Identifier("import".to_string()), "@scope/pkg/sub/Leaf");
    assert_eq!(annotated(plan_import_call(&call, None, None)), Some((7, "scopePkg.Leaf".to_string())));
}

#[test]
fn require_call_is_untouched() {
    let call = string_call(Callee::Identifier("require".to_string()), "lodash");
    assert!(matches!(plan_import_call(&call, None, None), ImportAction::Untouched));
}

#[test]
fn import_without_arguments_is_untouched() {
    let call = ImportCall { callee: Callee::ImportKeyword, first_argument: None };
    assert!(matches!(plan_import_call(&call, None, None), ImportAction::Untouched));
}

#[test]
fn absolute_specifier_warns() {
    let call = string_call(Callee::ImportKeyword, "/absolute/module");
    assert_eq!(warning(plan_import_call(&call, None, None)), Some(ImportWarning::NoChunkName));
}

#[test]
fn variable_argument_warns() {
    let call = ImportCall {
        callee: Callee::ImportKeyword,
        first_argument: Some(ImportArgument::Unsupported),
    };
    assert_eq!(
        warning(plan_import_call(&call, None, None)),
        Some(ImportWarning::UnsupportedArgument)
    );
}

#[test]
fn relative_import_without_filename_warns() {
    let call = string_call(Callee::ImportKeyword, "./components/Button");
    assert_eq!(warning(plan_import_call(&call, None, None)), Some(ImportWarning::NoChunkName));
}

#[test]
fn relative_import_with_filename_is_annotated() {
    let call = string_call(Callee::ImportKeyword, "./components/MyWidget");
    assert_eq!(
        annotated(plan_import_call(&call, Some("/project/mf-widgets/src/App.tsx"), None)),
        Some((7, "mfWidgets.MyWidget".to_string()))
    );
}

#[test]
fn custom_source_dir_marks_the_package_boundary() {
    let dirs = vec!["client".to_string()];
    let call = string_call(Callee::ImportKeyword, "acme/client/widgets/Card");
    assert_eq!(
        annotated(plan_import_call(&call, None, Some(&dirs[..]))),
        Some((7, "acme.Card".to_string()))
    );
}

#[test]
fn template_argument_is_flattened_and_annotated() {
    let call = ImportCall {
        callee: Callee::ImportKeyword,
        first_argument: Some(ImportArgument::Template {
            template: TemplateLiteral {
                cooked: vec![Some("lodash/".to_string()), Some("".to_string())],
                expr_count: 1,
            },
            span: ArgumentSpan { lo: 3, synthetic: true, expr_lo: 9 },
        }),
    };
    assert_eq!(annotated(plan_import_call(&call, None, None)), Some((9, "lodash.dynamic".to_string())));
}

#[test]
fn unflattenable_template_warns() {
    let call = ImportCall {
        callee: Callee::ImportKeyword,
        first_argument: Some(ImportArgument::Template {
            template: TemplateLiteral { cooked: vec![Some("".to_string())], expr_count: 0 },
            span: span(1),
        }),
    };
    assert_eq!(
        warning(plan_import_call(&call, None, None)),
        Some(ImportWarning::TemplateNotFlattened)
    );
}

#[test]
fn relative_filename_is_joined_to_the_working_directory() {
    assert_eq!(resolve_filename("mf-widgets/src/App.tsx", Some("/project")), "/project/mf-widgets/src/App.tsx");
    assert_eq!(resolve_filename("mf-widgets/src/App.tsx", Some("/project/")), "/project/mf-widgets/src/App.tsx");
    assert_eq!(resolve_filename("App.tsx", None), "App.tsx");
}

#[test]
fn absolute_filename_is_kept() {
    assert_eq!(absolute_filename("/project/a.ts", Some("/other")), "/project/a.ts");
    assert_eq!(absolute_filename("a.ts", Some("/other/")), "/other/a.ts");
    assert_eq!(absolute_filename("a.ts", None), "a.ts");
}

#[test]
fn filename_from_working_directory_names_like_absolute() {
    let abs = generate_chunk_name("./components/MyWidget", Some("/project/mf-widgets/src/App.tsx"), None);
    let joined = absolute_filename("mf-widgets/src/App.tsx", Some("/project/"));
    assert_eq!(generate_chunk_name("./components/MyWidget", Some(&joined), None), abs);
}
