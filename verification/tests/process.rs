use sandpack_cdn::app_error::ServerError;
use sandpack_cdn::file_queue::{FileOutcome, FileQueue, Task};
use sandpack_cdn::package_json::{parse_pkg_json, PackageJSON};
use sandpack_cdn::process::{
    add_file_path, collect_dependencies, collect_modules, deps_to_files_and_modules,
    finish_package, keep_graph_edges, parse_package_specifier,
    parse_package_specifier_no_validation, start_package, MinimalCachedModule, MinimalFile,
    ModuleDependenciesMap,
};
use sandpack_cdn::str_map::{StrMap, StrSet};
use sandpack_cdn::transform::TransformedFile;

fn strings(items: &[&str]) -> Vec<String> {
    items.iter().map(|s| s.to_string()).collect()
}

fn set(items: &[&str]) -> StrSet {
    let mut set = StrSet::new();
    for item in items {
        set.insert(item.to_string());
    }
    set
}

fn pkg(content: &str) -> PackageJSON {
    parse_pkg_json(content.to_string()).unwrap()
}

/// Runs a queue over files of which each is given with the specifiers that it holds;
/// a specifier stands for the file of its name.
fn run(queue: &mut FileQueue, files: &[(&str, &[&str])]) -> Vec<String> {
    let mut done = Vec::new();
    while let Some(task) = queue.next_task() {
        match task {
            Task::Resolve { specifier, .. } => {
                let path = specifier.trim_start_matches("./").to_string();
                if files.iter().any(|f| f.0 == path) || path == "package.json" {
                    queue.add_found(&vec![path]);
                } else {
                    queue.add_found(&Vec::new());
                }
            }
            Task::Transform(path) => {
                let file = files.iter().find(|f| f.0 == path).unwrap();
                let outcome = if path == "broken.js" {
                    FileOutcome::Untransformed("broken".to_string())
                } else if path == "gone.js" {
                    FileOutcome::Unreadable
                } else {
                    FileOutcome::Transformed(TransformedFile {
                        content: format!("code of {path}"),
                        dependencies: set(file.1),
                    })
                };
                queue.add_outcome(path.clone(), outcome);
                done.push(path);
            }
        }
    }
    done
}

fn finished(
    content: &str,
    files: &[(&str, &[&str])],
) -> (Vec<String>, MinimalCachedModule, ModuleDependenciesMap) {
    let parsed = pkg(content);
    let mut queue = start_package(&parsed, content.to_string(), Vec::new()).unwrap();
    let done = run(&mut queue, files);
    let mut sizes = StrMap::new();
    add_file_path(&mut sizes, "package.json", 99);
    for (i, file) in files.iter().enumerate() {
        add_file_path(&mut sizes, file.0, i as u64);
    }
    let (module, deps) = finish_package(&parsed, "self", queue, &sizes);
    (done, module, deps)
}

#[test]
fn paths_are_written_with_slashes() {
    let mut sizes = StrMap::new();
    add_file_path(&mut sizes, "cjs\\react.development.js", 7);
    assert_eq!(sizes.get("cjs/react.development.js"), Some(&7));
    assert_eq!(sizes.len(), 1);
}

#[test]
fn specifiers_are_parted() {
    let deps = strings(&[
        "./a", "react", "react-dom/client", "../b", "./a", "react-dom", "https://x/y", "node:fs",
    ]);
    let (files, modules) = deps_to_files_and_modules(&deps);
    assert_eq!(files.into_items(), strings(&["./a", "../b"]));
    assert_eq!(modules.into_items(), strings(&["react", "react-dom"]));
    assert_eq!(
        keep_graph_edges(&deps),
        strings(&["./a", "react", "react-dom/client", "../b", "./a", "react-dom"])
    );
}

#[test]
fn reachable_files_are_transformed_once() {
    let files: &[(&str, &[&str])] = &[
        ("index.js", &["./a.js", "./b.js", "react"]),
        ("a.js", &["./b.js", "./index.js"]),
        ("b.js", &["./c.js", "./missing.js"]),
        ("c.js", &["./a.js", "lodash/merge"]),
        ("unused.js", &["./index.js"]),
    ];
    let (done, module, _) = finished(r#"{ "main": "./index.js" }"#, files);
    assert_eq!(done, strings(&["index.js", "a.js", "b.js", "c.js"]));
    assert!(matches!(module.files.get("unused.js"), Some(MinimalFile::Ignored(4))));
    assert_eq!(module.files.len(), 6);
    assert_eq!(module.modules, strings(&["react", "lodash"]));
    match module.files.get("index.js").unwrap() {
        MinimalFile::File { content, dependencies, is_transpiled } => {
            assert_eq!(content, "code of index.js");
            assert_eq!(dependencies, &strings(&["./a.js", "./b.js", "react"]));
            assert!(*is_transpiled);
        }
        other => panic!("{:?}", other),
    }
}

#[test]
fn package_json_is_served_as_it_is() {
    let content = r#"{ "main": "./package.json" }"#;
    let (done, module, _) = finished(content, &[]);
    assert!(done.is_empty());
    match module.files.get("package.json").unwrap() {
        MinimalFile::File { content: served, dependencies, is_transpiled } => {
            assert_eq!(served, content);
            assert!(dependencies.is_empty());
            assert!(!*is_transpiled);
        }
        other => panic!("{:?}", other),
    }
}

#[test]
fn failures_are_served_as_such() {
    let files: &[(&str, &[&str])] =
        &[("index.js", &["./broken.js", "./gone.js"]), ("broken.js", &[]), ("gone.js", &[])];
    let (done, module, _) = finished(r#"{ "main": "./index.js" }"#, files);
    assert_eq!(done, strings(&["index.js", "broken.js", "gone.js"]));
    match module.files.get("broken.js").unwrap() {
        MinimalFile::File { content, dependencies, is_transpiled } => {
            assert_eq!(content, "broken");
            assert!(dependencies.is_empty());
            assert!(!*is_transpiled);
        }
        other => panic!("{:?}", other),
    }
    assert!(matches!(module.files.get("gone.js"), Some(MinimalFile::Failed(false))));
}

#[test]
fn first_found_file_is_finished_before_the_next() {
    let mut queue = FileQueue::new(StrMap::new(), &strings(&["e"]));
    assert!(matches!(queue.next_task(), Some(Task::Resolve { curr_file, specifier })
        if curr_file == "." && specifier == "e"));
    queue.add_found(&strings(&["one.js", "two.js"]));
    assert!(matches!(queue.next_task(), Some(Task::Transform(f)) if f == "one.js"));
    queue.add_outcome(
        "one.js".to_string(),
        FileOutcome::Transformed(TransformedFile {
            content: String::new(),
            dependencies: set(&["./x", "./y"]),
        }),
    );
    assert!(matches!(queue.next_task(), Some(Task::Resolve { curr_file, specifier })
        if curr_file == "one.js" && specifier == "./x"));
    queue.add_found(&strings(&["two.js"]));
    assert!(matches!(queue.next_task(), Some(Task::Transform(f)) if f == "two.js"));
    queue.add_outcome("two.js".to_string(), FileOutcome::Unreadable);
    assert!(matches!(queue.next_task(), Some(Task::Resolve { specifier, .. })
        if specifier == "./y"));
    queue.add_found(&Vec::new());
    assert!(queue.next_task().is_none());
}

#[test]
fn dependencies_come_from_what_is_declared_and_used() {
    let parsed = pkg(
        r#"{ "dependencies": { "a": "^1", "b": "^2" },
             "peerDependencies": { "a": "^9", "c": "^3", "d": "^4" } }"#,
    );
    let used = set(&["b", "c", "self", "extra", "a/b"]);
    let deps = collect_dependencies(&parsed, "self", &used);
    let look = |name: &str| deps.get(name).map(|d| (d.version.clone(), d.is_used));
    assert_eq!(look("a"), Some(("^1".to_string(), false)));
    assert_eq!(look("b"), Some(("^2".to_string(), true)));
    assert_eq!(look("c"), Some(("^3".to_string(), true)));
    assert_eq!(look("d"), None);
    assert_eq!(look("extra"), Some(("latest".to_string(), true)));
    assert_eq!(look("self"), None);
    assert_eq!(look("a/b"), None);
    assert_eq!(deps.len(), 4);
    assert_eq!(collect_modules("self", &used), strings(&["b", "c", "extra"]));
}

#[test]
fn package_specifiers_come_apart() {
    let cases = [
        ("react@18.2.0", Some(("react", "18.2.0"))),
        ("@mui/material@5.0.0-rc.1", Some(("@mui/material", "5.0.0-rc.1"))),
        ("react", Some(("", "react"))),
        ("", Some(("", ""))),
        ("a@b@c", Some(("a@b", "c"))),
        ("a@b@c@d", None),
        ("react @18", None),
        ("react@18\u{2003}", None),
    ];
    for (specifier, expected) in cases {
        match (parse_package_specifier_no_validation(specifier), expected) {
            (Ok((name, version)), Some(pair)) => {
                assert_eq!((name.as_str(), version.as_str()), pair);
            }
            (Err(ServerError::InvalidPackageSpecifier), None) => {}
            other => panic!("{:?}", other),
        }
    }
}

#[test]
fn package_specifier_needs_a_version() {
    assert_eq!(
        parse_package_specifier("react@18.2.0").unwrap(),
        ("react".to_string(), "18.2.0".to_string())
    );
    assert!(matches!(
        parse_package_specifier("a@b@c@d"),
        Err(ServerError::InvalidPackageSpecifier)
    ));
    match parse_package_specifier("react@^18") {
        Err(ServerError::InvalidSemver(message)) => assert!(!message.is_empty()),
        other => panic!("{:?}", other),
    }
}
