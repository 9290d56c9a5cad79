use sandpack_cdn::app_error::ServerError;
use sandpack_cdn::package_json::{
    collect_pkg_entries, get_export_entry, get_main_entry, parse_pkg_json, PackageJSONExport,
};
use sandpack_cdn::str_map::StrMap;

fn entries(content: &str) -> Vec<String> {
    let parsed = parse_pkg_json(content.to_string()).unwrap();
    collect_pkg_entries(&parsed, Vec::new()).unwrap()
}

#[test]
fn pkg_json_parse_test() {
    let content = r#"{
        "name": "react",
        "version": "17.0.2",
        "main": "index.cjs",
        "module": "index.mjs",
        "jsnext:main": "index.next.js",
        "browser": "index.browser.js"
    }"#;
    let parsed = parse_pkg_json(content.to_string()).unwrap();

    assert_eq!(parsed.name, "react");
    assert_eq!(parsed.version, "17.0.2");
    assert_eq!(parsed.js_next_main.unwrap(), "index.next.js");
    assert_eq!(parsed.main.unwrap(), "index.cjs");
    assert_eq!(parsed.module.unwrap(), "index.mjs");
    assert_eq!(
        match parsed.browser.unwrap() {
            PackageJSONExport::Value(v) => v,
            _ => panic!("incorrect browser value"),
        },
        "index.browser.js"
    );
}

#[test]
fn pkg_json_accepts_main_false() {
    let content = r#"{
        "name": "math-intrinsics",
        "version": "1.1.0",
        "main": false,
        "exports": {
            "./abs": "./abs.js",
            "./package.json": "./package.json"
        }
    }"#;
    let parsed = parse_pkg_json(content.to_string()).unwrap();
    assert_eq!(parsed.name, "math-intrinsics");
    assert_eq!(parsed.main, None);
    let entries = collect_pkg_entries(&parsed, Vec::new()).unwrap();
    assert!(entries.iter().any(|e| e.ends_with("abs.js")));
    assert!(!entries.iter().any(|e| e == "index"));
}

#[test]
fn pkg_json_tolerates_real_world_quirks() {
    let content = r#"{
        "name": "weird-pkg",
        "version": 2,
        "main": false,
        "module": null,
        "jsnext:main": "",
        "browser": { "./index.js": false, ".": "./browser.js" },
        "exports": [
            { "import": "./esm.js", "require": "./cjs.js", "default": "./esm.js" },
            null,
            true
        ],
        "dependencies": {
            "ok": "^1.0.0",
            "num": 1,
            "obj": { "version": "1.0.0" },
            "nil": null,
            "": "skip-empty-key"
        },
        "peerDependencies": {
            "react": ">=17",
            "bad": false
        },
        "unexpected": { "totally": "fine" }
    }"#;
    let parsed = parse_pkg_json(content.to_string()).unwrap();
    assert_eq!(parsed.name, "weird-pkg");
    assert_eq!(parsed.version, "2");
    assert_eq!(parsed.main, None);
    assert_eq!(parsed.module, None);
    assert_eq!(parsed.js_next_main, None);
    assert!(matches!(parsed.browser, Some(PackageJSONExport::Table(_))));
    assert!(matches!(parsed.exports, Some(PackageJSONExport::Vec(_))));
    let deps = parsed.dependencies.unwrap();
    assert_eq!(deps.get("ok").map(String::as_str), Some("^1.0.0"));
    assert_eq!(deps.get("num").map(String::as_str), Some("1"));
    assert!(!deps.contains_key("obj"));
    assert!(!deps.contains_key("nil"));
    assert!(!deps.contains_key(""));
    let peers = parsed.peer_dependencies.unwrap();
    assert_eq!(peers.get("react").map(String::as_str), Some(">=17"));
    assert!(!peers.contains_key("bad"));
}

#[test]
fn pkg_json_non_object_root_is_stub_not_error() {
    let parsed = parse_pkg_json("[]".to_string()).unwrap();
    assert_eq!(parsed.name, "");
    assert_eq!(parsed.main, None);
}

#[test]
fn pkg_json_strips_bom() {
    let content = "\u{feff}{\"name\":\"x\",\"version\":\"1.0.0\",\"main\":\"index.js\"}";
    let parsed = parse_pkg_json(content.to_string()).unwrap();
    assert_eq!(parsed.name, "x");
    assert_eq!(parsed.main.as_deref(), Some("index.js"));
}

#[test]
fn pkg_json_invalid_json_still_errors() {
    assert!(parse_pkg_json("{not json".to_string()).is_err());
}

#[test]
fn invalid_json_is_reported_with_its_message() {
    match parse_pkg_json("{not json".to_string()) {
        Err(ServerError::JSONParseError(message)) => {
            assert!(message.contains("line 1 column 2"));
        }
        other => panic!("{:?}", other),
    }
}

#[test]
fn conditions_are_taken_in_their_order() {
    let order = ["browser", "development", "default", "require", "import"];
    for first in 0..order.len() {
        let mut table = StrMap::new();
        table.insert("worker".to_string(), PackageJSONExport::Value("worker.js".to_string()));
        for key in order[first..].iter().rev() {
            table.insert(key.to_string(), PackageJSONExport::Value(format!("{key}.js")));
        }
        assert_eq!(
            get_export_entry(&PackageJSONExport::Table(table)),
            Some(format!("{}.js", order[first]))
        );
    }
}

#[test]
fn deciding_condition_may_stand_for_nothing() {
    let content = r#"{ "exports": { "browser": null, "default": "./x.js" } }"#;
    assert_eq!(entries(content), vec!["index"]);
}

#[test]
fn list_takes_the_first_item_that_stands_for_anything() {
    let content = r#"{ "exports": [ null, { "node": "./n.js" }, { "default": ["./d.js"] }, "./e.js" ] }"#;
    assert_eq!(entries(content), vec!["./d.js"]);
}

#[test]
fn list_without_a_target_gains_no_entry() {
    let content = r#"{ "main": "m.js", "exports": [ null, false ] }"#;
    assert!(entries(content).is_empty());
}

#[test]
fn subpaths_are_sorted_and_unique() {
    let content = r#"{ "main": "m.js", "exports": {
        "./z": "./z.js", ".": { "import": "./a.js" }, "./a": "./a.js",
        "./x.node": "./x.js", "./y.server.js": "./y.js", "./nothing": null
    } }"#;
    assert_eq!(entries(content), vec!["./a.js", "./z.js"]);
}

#[test]
fn order_of_a_uniform_table_is_irrelevant() {
    let one = r#"{ "exports": { "require": "./r.js", "default": "./d.js" } }"#;
    let two = r#"{ "exports": { "default": "./d.js", "require": "./r.js" } }"#;
    assert_eq!(entries(one), vec!["./d.js"]);
    assert_eq!(entries(two), vec!["./d.js"]);
}

#[test]
fn main_entry_goes_by_the_fields() {
    let all = r#"{ "module": "m", "browser": "b", "main": "a", "jsnext:main": "j" }"#;
    let cases = [
        (all, "m"),
        (r#"{ "browser": "b", "main": "a", "jsnext:main": "j" }"#, "b"),
        (r#"{ "browser": { "x": "y" }, "main": " a ", "jsnext:main": "j" }"#, "a"),
        (r#"{ "main": false, "jsnext:main": "j" }"#, "j"),
        (r#"{}"#, "index"),
    ];
    for (content, expected) in cases {
        let parsed = parse_pkg_json(content.to_string()).unwrap();
        assert_eq!(get_main_entry(&parsed), expected);
        assert_eq!(entries(content), vec![expected]);
    }
}

#[test]
fn additional_exports_join_the_entries() {
    let parsed = parse_pkg_json(r#"{ "main": "m.js" }"#.to_string()).unwrap();
    let more = vec!["z.js".to_string(), "a.js".to_string(), "m.js".to_string()];
    assert_eq!(collect_pkg_entries(&parsed, more).unwrap(), vec!["a.js", "m.js", "z.js"]);
}
