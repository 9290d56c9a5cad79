use sandpack_cdn::npm_specifier::{
    is_valid_package_name, package_name_from_specifier, parse_module_specifier, ModuleSpecifier,
};

#[test]
fn relative_specifiers() {
    assert!(matches!(
        parse_module_specifier("./foo.js"),
        Some(ModuleSpecifier::Relative(_))
    ));
    assert!(matches!(
        parse_module_specifier("../bar"),
        Some(ModuleSpecifier::Relative(_))
    ));
}

#[test]
fn bare_and_scoped_packages() {
    assert_eq!(
        parse_module_specifier("react"),
        Some(ModuleSpecifier::Package { name: "react".into(), subpath: None })
    );
    assert_eq!(
        parse_module_specifier("react-dom/client"),
        Some(ModuleSpecifier::Package {
            name: "react-dom".into(),
            subpath: Some("client".into())
        })
    );
    assert_eq!(
        parse_module_specifier("@swc/helpers"),
        Some(ModuleSpecifier::Package { name: "@swc/helpers".into(), subpath: None })
    );
    assert_eq!(
        parse_module_specifier("@swc/helpers/_/_interop_require_default"),
        Some(ModuleSpecifier::Package {
            name: "@swc/helpers".into(),
            subpath: Some("_/_interop_require_default".into())
        })
    );
    assert_eq!(package_name_from_specifier("lucide-react"), Some("lucide-react".into()));
}

#[test]
fn rejects_uri_schemes_and_paths() {
    assert_eq!(parse_module_specifier("https:"), None);
    assert_eq!(parse_module_specifier("https://cdn.example.com/x.js"), None);
    assert_eq!(parse_module_specifier("http://example.com"), None);
    assert_eq!(parse_module_specifier("node:fs"), None);
    assert_eq!(parse_module_specifier("data:text/javascript,1"), None);
    assert_eq!(parse_module_specifier("blob:http://localhost/uuid"), None);
    assert_eq!(parse_module_specifier("jsr:@std/fs"), None);
    assert_eq!(parse_module_specifier("npm:react@19"), None);
    assert_eq!(parse_module_specifier("deno:std/path"), None);
    assert_eq!(parse_module_specifier("bun:sqlite"), None);
    assert_eq!(parse_module_specifier("/abs/path"), None);
    assert_eq!(parse_module_specifier("C:\\Windows\\x"), None);
    assert_eq!(parse_module_specifier(""), None);
    assert_eq!(parse_module_specifier("@scope"), None);
    assert_eq!(parse_module_specifier("@scope/"), None);
}

#[test]
fn url_split_never_becomes_package_https() {
    assert!(package_name_from_specifier("https://esm.sh/react").is_none());
    assert!(!is_valid_package_name("https:"));
}

#[test]
fn outer_space_is_ignored() {
    assert_eq!(
        parse_module_specifier(" \u{a0}react\t\n"),
        Some(ModuleSpecifier::Package { name: "react".into(), subpath: None })
    );
    assert_eq!(parse_module_specifier("  . "), Some(ModuleSpecifier::Relative(".".into())));
    assert_eq!(parse_module_specifier(" \u{3000} "), None);
}

#[test]
fn found_name_is_valid_again() {
    for spec in ["react-dom/client", "@a/b/c/d", "lodash.merge", "@types/node"] {
        let name = package_name_from_specifier(spec).unwrap();
        assert!(is_valid_package_name(&name));
        assert_eq!(package_name_from_specifier(&name), Some(name.clone()));
        assert!(spec.starts_with(&name));
    }
}

#[test]
fn long_specifiers_and_segments() {
    let longest = "a".repeat(214);
    assert!(is_valid_package_name(&longest));
    let too_long = "a".repeat(215);
    assert!(!is_valid_package_name(&too_long));
    let mut path = "./".to_string();
    path.push_str(&"b".repeat(2046));
    assert!(parse_module_specifier(&path).is_some());
    path.push('b');
    assert!(parse_module_specifier(&path).is_none());
}
