use swc_plugin_webpack_chunk_names::naming::{
    extract_package_from_path, generate_chunk_name, resolve_relative_path, strip_extension,
    to_camel_case,
};

fn source_dirs() -> Option<&'static [String]> {
    None
}

// --- to_camel_case ---

#[test]
fn camel_case_kebab() {
    assert_eq!(to_camel_case("package-name"), "packageName");
}

#[test]
fn camel_case_snake() {
    assert_eq!(to_camel_case("package_name"), "packageName");
}

#[test]
fn camel_case_mixed() {
    assert_eq!(to_camel_case("my-cool_lib"), "myCoolLib");
}

#[test]
fn camel_case_no_separators() {
    assert_eq!(to_camel_case("lodash"), "lodash");
}

// --- strip_extension ---

#[test]
fn strip_ts_extension() {
    assert_eq!(strip_extension("Component.tsx"), "Component");
    assert_eq!(strip_extension("utils.ts"), "utils");
    assert_eq!(strip_extension("index.js"), "index");
    assert_eq!(strip_extension("helper.mjs"), "helper");
}

#[test]
fn strip_no_extension() {
    assert_eq!(strip_extension("ComponentName"), "ComponentName");
}

#[test]
fn strip_any_extension() {
    assert_eq!(strip_extension("data.json"), "data");
    assert_eq!(strip_extension("style.css"), "style");
    assert_eq!(strip_extension("template.vue"), "template");
}

#[test]
fn strip_hidden_file_unchanged() {
    assert_eq!(strip_extension(".hidden"), ".hidden");
}

// --- resolve_relative_path ---

#[test]
fn resolve_relative_current_dir() {
    let resolved = resolve_relative_path("/project/src/components/App.tsx", "./Button");
    assert_eq!(resolved, "project/src/components/Button");
}

#[test]
fn resolve_relative_parent_dir() {
    let resolved = resolve_relative_path("/project/src/components/App.tsx", "../utils/helpers");
    assert_eq!(resolved, "project/src/utils/helpers");
}

#[test]
fn resolve_deeply_nested() {
    let resolved = resolve_relative_path("/project/src/deep/nested/File.tsx", "../../other/Thing");
    assert_eq!(resolved, "project/src/other/Thing");
}

// --- extract_package_from_path ---

#[test]
fn extract_package_before_src() {
    let dirs = source_dirs();
    let pkg = extract_package_from_path("project/mf-widgets/src/components/Button", dirs);
    assert_eq!(pkg, Some("mf-widgets"));
}

#[test]
fn extract_package_before_lib() {
    let dirs = source_dirs();
    let pkg = extract_package_from_path("packages/my-lib/lib/utils", dirs);
    assert_eq!(pkg, Some("my-lib"));
}

#[test]
fn extract_package_fallback() {
    let dirs = source_dirs();
    let pkg = extract_package_from_path("foo/bar/baz", dirs);
    assert_eq!(pkg, Some("bar"));
}

#[test]
fn extract_package_right_to_left() {
    let dirs = source_dirs();
    let pkg =
        extract_package_from_path("project/src/packages/mf-widgets/src/components/Button", dirs);
    assert_eq!(pkg, Some("mf-widgets"));
}

// --- generate_chunk_name ---

#[test]
fn chunk_name_scoped_package() {
    let dirs = source_dirs();
    let name =
        generate_chunk_name("@my-company/package-name/src/my/test/ComponentName", None, dirs);
    assert_eq!(name, Some("myCompanyPackageName.ComponentName".to_string()));
}

#[test]
fn chunk_name_scoped_with_extension() {
    let dirs = source_dirs();
    let name = generate_chunk_name("@scope/my-lib/utils/helpers.ts", None, dirs);
    assert_eq!(name, Some("scopeMyLib.helpers".to_string()));
}

#[test]
fn chunk_name_scoped_distinct_scopes() {
    let dirs = source_dirs();
    let scope_a = generate_chunk_name("@scope-a/ui/Button.tsx", None, dirs);
    let scope_b = generate_chunk_name("@scope-b/ui/Button.tsx", None, dirs);
    assert_eq!(scope_a, Some("scopeAUi.Button".to_string()));
    assert_eq!(scope_b, Some("scopeBUi.Button".to_string()));
    assert_ne!(scope_a, scope_b);
}

#[test]
fn chunk_name_non_scoped() {
    let dirs = source_dirs();
    let name = generate_chunk_name("lodash/fp/get", None, dirs);
    assert_eq!(name, Some("lodash.get".to_string()));
}

#[test]
fn chunk_name_dotted_bare_and_deep_import_collide() {
    let dirs = source_dirs();
    let dotted = generate_chunk_name("lodash.get", None, dirs);
    let deep = generate_chunk_name("lodash/get", None, dirs);
    assert_eq!(dotted, Some("lodash.get".to_string()));
    assert_eq!(deep, Some("lodash.get".to_string()));
    assert_eq!(dotted, deep);
}

#[test]
fn chunk_name_bare_deep_path_with_source_dir() {
    let dirs = source_dirs();
    let name = generate_chunk_name("lib/lib/test-package/src/Component", None, dirs);
    assert_eq!(name, Some("testPackage.Component".to_string()));
}

#[test]
fn chunk_name_relative_with_filename() {
    let dirs = source_dirs();
    let name =
        generate_chunk_name("./components/MyWidget", Some("/project/mf-widgets/src/App.tsx"), dirs);
    assert_eq!(name, Some("mfWidgets.MyWidget".to_string()));
}

#[test]
fn chunk_name_relative_no_filename() {
    let dirs = source_dirs();
    let name = generate_chunk_name("./components/MyWidget", None, dirs);
    assert_eq!(name, None);
}

#[test]
fn chunk_name_relative_with_extension() {
    let dirs = source_dirs();
    let name = generate_chunk_name(
        "./Button.tsx",
        Some("/project/mf-widgets/src/components/App.tsx"),
        dirs,
    );
    assert_eq!(name, Some("mfWidgets.Button".to_string()));
}

#[test]
fn chunk_name_relative_filename_with_cwd_matches_absolute() {
    let dirs = source_dirs();
    let abs =
        generate_chunk_name("./components/MyWidget", Some("/project/mf-widgets/src/App.tsx"), dirs);
    let rel_with_cwd =
        generate_chunk_name("./components/MyWidget", Some("/project/mf-widgets/src/App.tsx"), dirs);
    assert_eq!(abs, rel_with_cwd);

    let cwd_joined = {
        let c = "/project";
        let f = "mf-widgets/src/App.tsx";
        let mut s = String::with_capacity(c.len() + 1 + f.len());
        s.push_str(c);
        s.push('/');
        s.push_str(f);
        s
    };
    let from_joined = generate_chunk_name("./components/MyWidget", Some(&cwd_joined), dirs);
    assert_eq!(abs, from_joined);
}

#[test]
fn chunk_name_relative_filename_cwd_trailing_slash() {
    let dirs = source_dirs();
    let c = "/project/";
    let f = "mf-widgets/src/App.tsx";
    let c_trimmed = c.strip_suffix('/').unwrap_or(c);
    let mut joined = String::with_capacity(c_trimmed.len() + 1 + f.len());
    joined.push_str(c_trimmed);
    joined.push('/');
    joined.push_str(f);

    let name = generate_chunk_name("./components/MyWidget", Some(&joined), dirs);
    assert_eq!(name, Some("mfWidgets.MyWidget".to_string()));
}

#[test]
fn chunk_name_absolute_leading_slash_returns_none() {
    let dirs = source_dirs();
    let name = generate_chunk_name("/project/mf-widgets/src/components/Button.tsx", None, dirs);
    assert_eq!(name, None);
}

// --- generate_chunk_name: bare packages ---

#[test]
fn chunk_name_bare_non_scoped() {
    let dirs = source_dirs();
    let name = generate_chunk_name("lodash", None, dirs);
    assert_eq!(name, Some("lodash".to_string()));
}

#[test]
fn chunk_name_bare_non_scoped_with_separator() {
    let dirs = source_dirs();
    let name = generate_chunk_name("my-package", None, dirs);
    assert_eq!(name, Some("myPackage".to_string()));
}

#[test]
fn chunk_name_bare_scoped() {
    let dirs = source_dirs();
    let name = generate_chunk_name("@scope/pkg", None, dirs);
    assert_eq!(name, Some("scopePkg".to_string()));
}

#[test]
fn chunk_name_bare_scoped_with_separators() {
    let dirs = source_dirs();
    let name = generate_chunk_name("@my-scope/my-pkg", None, dirs);
    assert_eq!(name, Some("myScopeMyPkg".to_string()));
}

#[test]
fn chunk_name_scoped_trailing_slash_returns_none() {
    let dirs = source_dirs();
    let name = generate_chunk_name("@scope/", None, dirs);
    assert_eq!(name, None);
}

#[test]
fn chunk_name_empty_returns_none() {
    let dirs = source_dirs();
    let name = generate_chunk_name("", None, dirs);
    assert_eq!(name, None);
}

// --- to_camel_case: edge cases ---

#[test]
fn camel_case_leading_separator() {
    assert_eq!(to_camel_case("-foo"), "Foo");
}

#[test]
fn camel_case_trailing_separator() {
    assert_eq!(to_camel_case("foo-"), "foo");
}

#[test]
fn camel_case_consecutive_separators() {
    assert_eq!(to_camel_case("a--b"), "aB");
}

#[test]
fn camel_case_empty() {
    assert_eq!(to_camel_case(""), "");
}

// --- strip_extension: edge cases ---

#[test]
fn strip_double_extension() {
    assert_eq!(strip_extension("file.test.tsx"), "file.test");
}

#[test]
fn strip_extension_dot_only() {
    assert_eq!(strip_extension("."), ".");
}

#[test]
fn strip_extension_empty() {
    assert_eq!(strip_extension(""), "");
}

// --- resolve_relative_path: edge cases ---

#[test]
fn resolve_relative_bare_filename() {
    let resolved = resolve_relative_path("App.tsx", "./components/Button");
    assert_eq!(resolved, "components/Button");
}

#[test]
fn resolve_relative_excessive_parent_traversal() {
    let resolved = resolve_relative_path("/a/b/File.tsx", "../../../x");
    assert_eq!(resolved, "x");
}

// --- extract_package_from_path: edge cases ---

#[test]
fn extract_package_single_segment() {
    let dirs = source_dirs();
    let pkg = extract_package_from_path("onlyone", dirs);
    assert_eq!(pkg, Some("onlyone"));
}

#[test]
fn extract_package_empty_path() {
    let dirs = source_dirs();
    let pkg = extract_package_from_path("", dirs);
    assert_eq!(pkg, None);
}

// --- generate_chunk_name: nested paths ---

#[test]
fn chunk_name_nested_components_via_lib() {
    let dirs = source_dirs();
    let name = generate_chunk_name(
        "./components/GroupName",
        Some("/project/my-app/lib/components/Group/index.tsx"),
        dirs,
    );
    assert_eq!(name, Some("myApp.GroupName".to_string()));
}

#[test]
fn chunk_name_nested_components_via_src() {
    let dirs = source_dirs();
    let name = generate_chunk_name(
        "./components/GroupName",
        Some("/project/mf-widgets/src/components/Group/index.tsx"),
        dirs,
    );
    assert_eq!(name, Some("mfWidgets.GroupName".to_string()));
}

#[test]
fn chunk_name_nested_parent_traversal_into_sibling_group() {
    let dirs = source_dirs();
    let name = generate_chunk_name(
        "../GroupB/components/GroupBChild",
        Some("/project/mf-widgets/src/components/GroupA/index.tsx"),
        dirs,
    );
    assert_eq!(name, Some("mfWidgets.GroupBChild".to_string()));
}

#[test]
fn chunk_name_deeply_nested_upward_traversal() {
    let dirs = source_dirs();
    let name = generate_chunk_name(
        "../../GroupTitle",
        Some("/project/mf-widgets/src/components/Group/components/GroupName/index.tsx"),
        dirs,
    );
    assert_eq!(name, Some("mfWidgets.GroupTitle".to_string()));
}

#[test]
fn extract_package_nested_components_finds_innermost_source_dir() {
    let dirs = source_dirs();
    let pkg =
        extract_package_from_path("project/my-app/lib/components/Group/components/GroupName", dirs);
    assert_eq!(pkg, Some("my-app"));
}

// --- generate_chunk_name: node_modules ---

#[test]
fn extract_package_nested_node_modules_with_src() {
    let dirs = source_dirs();
    let pkg = extract_package_from_path(
        "node_modules/@scope1/pkg1/node_modules/@scope2/pkg2/src/components/Button",
        dirs,
    );
    assert_eq!(pkg, Some("pkg2"));
}

#[test]
fn extract_package_single_node_modules_with_lib() {
    let dirs = source_dirs();
    let pkg = extract_package_from_path("node_modules/@scope/package/lib/utils/helper", dirs);
    assert_eq!(pkg, Some("package"));
}

#[test]
fn chunk_name_relative_import_inside_nested_node_modules() {
    let dirs = source_dirs();
    let name = generate_chunk_name(
        "./components/Button",
        Some("/project/node_modules/@scope1/pkg1/node_modules/@scope2/pkg2/src/index.tsx"),
        dirs,
    );
    assert_eq!(name, Some("pkg2.Button".to_string()));
}

#[test]
fn chunk_name_relative_import_inside_single_node_modules() {
    let dirs = source_dirs();
    let name = generate_chunk_name(
        "../utils/formatDate",
        Some("/project/node_modules/@company/ui-kit/src/components/DatePicker.tsx"),
        dirs,
    );
    assert_eq!(name, Some("uiKit.formatDate".to_string()));
}

#[test]
fn chunk_name_relative_import_unscoped_node_modules() {
    let dirs = source_dirs();
    let name = generate_chunk_name(
        "./locale/en",
        Some("/project/node_modules/some-lib/src/index.tsx"),
        dirs,
    );
    assert_eq!(name, Some("someLib.en".to_string()));
}

// --- generate_chunk_name: trailing slash ---

#[test]
fn chunk_name_non_scoped_trailing_slash() {
    let dirs = source_dirs();
    let name = generate_chunk_name("lodash/", None, dirs);
    assert_eq!(name, Some("lodash.index".to_string()));
}

#[test]
fn chunk_name_non_scoped_deep_trailing_slash() {
    let dirs = source_dirs();
    let name = generate_chunk_name("lodash/fp/", None, dirs);
    assert_eq!(name, Some("lodash.fp".to_string()));
}

#[test]
fn chunk_name_scoped_deep_trailing_slash() {
    let dirs = source_dirs();
    let name = generate_chunk_name("@scope/pkg/sub/", None, dirs);
    assert_eq!(name, Some("scopePkg.sub".to_string()));
}

#[test]
fn chunk_name_relative_trailing_slash() {
    let dirs = source_dirs();
    let name = generate_chunk_name("./components/", Some("/project/mf-widgets/src/App.tsx"), dirs);
    assert_eq!(name, Some("mfWidgets.components".to_string()));
}

// --- generate_chunk_name: scoped edge cases ---

#[test]
fn chunk_name_at_sign_only_returns_none() {
    let dirs = source_dirs();
    let name = generate_chunk_name("@scope", None, dirs);
    assert_eq!(name, None);
}

#[test]
fn chunk_name_at_alias_with_leaf() {
    let dirs = source_dirs();
    assert_eq!(
        generate_chunk_name("@/components/Button", None, dirs),
        Some("components.Button".to_string())
    );
}

#[test]
fn chunk_name_at_alias_deep_path() {
    let dirs = source_dirs();
    assert_eq!(
        generate_chunk_name("@/utils/helpers/format", None, dirs),
        Some("utils.format".to_string())
    );
}

#[test]
fn chunk_name_at_alias_bare() {
    let dirs = source_dirs();
    assert_eq!(generate_chunk_name("@/lib", None, dirs), Some("lib".to_string()));
}

#[test]
fn chunk_name_at_alias_trailing_slash() {
    let dirs = source_dirs();
    assert_eq!(generate_chunk_name("@/lib/", None, dirs), Some("lib.index".to_string()));
}

#[test]
fn chunk_name_non_scoped_with_index() {
    let dirs = source_dirs();
    let name = generate_chunk_name("lodash/index", None, dirs);
    assert_eq!(name, Some("lodash.index".to_string()));
}

// --- generate_chunk_name: source-dir aware ---

#[test]
fn chunk_name_scoped_with_and_without_source_dir_same() {
    let dirs = source_dirs();
    let with_src =
        generate_chunk_name("@my-company/package-name/src/my/test/ComponentName", None, dirs);
    let without_src =
        generate_chunk_name("@my-company/package-name/my/test/ComponentName", None, dirs);
    assert_eq!(with_src, Some("myCompanyPackageName.ComponentName".to_string()));
    assert_eq!(with_src, without_src);
}

#[test]
fn chunk_name_at_alias_with_source_dir() {
    let dirs = source_dirs();
    let name = generate_chunk_name("@/lib/test-package/src/Component", None, dirs);
    assert_eq!(name, Some("testPackage.Component".to_string()));
}

#[test]
fn chunk_name_bare_without_source_dir_unchanged() {
    let dirs = source_dirs();
    let name = generate_chunk_name("lodash/fp/get", None, dirs);
    assert_eq!(name, Some("lodash.get".to_string()));
}

// --- extract_package_from_path: source-dir at root ---

#[test]
fn extract_package_source_dir_at_root_uses_fallback() {
    let dirs = source_dirs();
    let pkg = extract_package_from_path("src/components/Button", dirs);
    assert_eq!(pkg, Some("components"));
}

// --- to_camel_case: digits & degenerate ---

#[test]
fn camel_case_only_separators() {
    assert_eq!(to_camel_case("---"), "");
}

#[test]
fn camel_case_with_digits() {
    assert_eq!(to_camel_case("lib-2"), "lib2");
}

// --- generate_chunk_name: trailing-slash disambiguation ---

#[test]
fn chunk_name_punycode_builtin_vs_npm() {
    let dirs = source_dirs();
    let builtin = generate_chunk_name("punycode", None, dirs);
    let npm = generate_chunk_name("punycode/", None, dirs);
    assert_eq!(builtin, Some("punycode".to_string()));
    assert_eq!(npm, Some("punycode.index".to_string()));
    assert_ne!(builtin, npm);
}

#[test]
fn chunk_name_scoped_bare_vs_trailing_slash() {
    let dirs = source_dirs();
    let bare = generate_chunk_name("@scope/pkg", None, dirs);
    let with_slash = generate_chunk_name("@scope/pkg/", None, dirs);
    assert_eq!(bare, Some("scopePkg".to_string()));
    assert_eq!(with_slash, Some("scopePkg.index".to_string()));
    assert_ne!(bare, with_slash);
}

