use sandpack_cdn::app_error::ServerError;
use sandpack_cdn::collect_dep_tree::{
    has_readable_ranges, has_readable_used_ranges, parse_dep_map, process_dep_map, resolve_dep,
    transient_requests, DepTreeCollector, Dependency, DependencyRequest, MAX_TREE_SIZE,
};
use sandpack_cdn::document::{MinimalPackageData, MinimalPackageVersionData};
use sandpack_cdn::process::ModuleDependency;
use sandpack_cdn::semver::is_readable_range;
use sandpack_cdn::str_map::StrMap;

fn pkg_with_versions(name: &str, versions: &[&str]) -> MinimalPackageData {
    let mut map = StrMap::new();
    for version in versions {
        map.insert(
            (*version).to_string(),
            MinimalPackageVersionData {
                tarball: format!("https://example.com/{name}/{version}.tgz"),
                dependencies: StrMap::new(),
            },
        );
    }
    MinimalPackageData { name: name.to_string(), dist_tags: StrMap::new(), versions: map }
}

fn request(name: &str) -> DependencyRequest {
    DependencyRequest::new(name, "*", 0).unwrap()
}

fn names(requests: &[DependencyRequest]) -> Vec<String> {
    requests.iter().map(|r| r.name().clone()).collect()
}

#[test]
fn caret_range_resolves_semver_max() {
    // "1.10.0" < "1.9.0" lexicographically; must still pick semver-highest.
    let pkg = pkg_with_versions("pkg", &["1.9.0", "1.10.0"]);
    let req = DependencyRequest::new("pkg", "^1.0.0", 0).unwrap();
    assert_eq!(req.resolve_version(&pkg).as_deref(), Some("1.10.0"));
}

#[test]
fn star_range_resolves_semver_max() {
    // "9.0.0" > "10.0.0" lexicographically; wildcard must still pick 10.x.
    let pkg = pkg_with_versions("pkg", &["9.0.0", "10.0.0"]);
    let req = DependencyRequest::new("pkg", "*", 0).unwrap();
    assert_eq!(req.resolve_version(&pkg).as_deref(), Some("10.0.0"));
}

#[test]
fn malformed_version_key_is_skipped() {
    let pkg = pkg_with_versions("pkg", &["not-semver", "1.2.3"]);
    let req = DependencyRequest::new("pkg", "^1.0.0", 0).unwrap();
    assert_eq!(req.resolve_version(&pkg).as_deref(), Some("1.2.3"));
}

#[test]
fn missing_exact_version_returns_none() {
    let pkg = pkg_with_versions("@mui/icons-material", &["9.1.1"]);
    let req = DependencyRequest::new("@mui/icons-material", "9.1.2", 0).unwrap();
    assert_eq!(req.resolve_version(&pkg), None);
}

#[test]
fn existing_exact_version_resolves() {
    let pkg = pkg_with_versions("@mui/material", &["9.1.2"]);
    let req = DependencyRequest::new("@mui/material", "9.1.2", 0).unwrap();
    assert_eq!(req.resolve_version(&pkg).as_deref(), Some("9.1.2"));
}

#[test]
fn dist_tag_resolves() {
    let mut pkg = pkg_with_versions("pkg", &["1.9.0", "1.10.0"]);
    pkg.dist_tags.insert("latest".to_string(), "1.10.0".to_string());
    let req = DependencyRequest::new("pkg", "latest", 0).unwrap();
    assert_eq!(req.resolve_version(&pkg).as_deref(), Some("1.10.0"));
}

#[test]
fn unknown_tag_resolves_to_nothing() {
    let pkg = pkg_with_versions("pkg", &["1.9.0"]);
    let req = DependencyRequest::new("pkg", "latest", 0).unwrap();
    assert_eq!(req.resolve_version(&pkg), None);
}

#[test]
fn order_of_the_versions_is_irrelevant() {
    let versions = ["1.0.0-rc.1", "1.0.0-rc.10", "1.0.0-rc.2", "1.0.0-beta", "1.0.0-9"];
    for turn in 0..versions.len() {
        let mut turned = versions.to_vec();
        turned.rotate_left(turn);
        let pkg = pkg_with_versions("pkg", &turned);
        let req = DependencyRequest::new("pkg", ">=1.0.0-0", 0).unwrap();
        assert_eq!(req.resolve_version(&pkg).as_deref(), Some("1.0.0-rc.10"));
    }
}

#[test]
fn release_is_above_its_pre_releases() {
    let pkg = pkg_with_versions("pkg", &["2.0.0", "2.0.0-rc.1"]);
    let req = DependencyRequest::new("pkg", ">=2.0.0-rc.0", 0).unwrap();
    assert_eq!(req.resolve_version(&pkg).as_deref(), Some("2.0.0"));
}

#[test]
fn versions_of_equal_rank_are_told_apart_by_their_texts() {
    let req = DependencyRequest::new("pkg", "1.0.0", 0).unwrap();
    let pkg = pkg_with_versions("pkg", &["1.0.0+b", "1.0.0+a"]);
    assert_eq!(req.resolve_version(&pkg).as_deref(), Some("1.0.0+b"));
    let pkg = pkg_with_versions("pkg", &["1.0.0+a", "1.0.0+b"]);
    assert_eq!(req.resolve_version(&pkg).as_deref(), Some("1.0.0+b"));
}

#[test]
fn resolved_version_is_written_plainly() {
    let pkg = pkg_with_versions("pkg", &["v1.02.3-alpha.7+build.5"]);
    let req = DependencyRequest::new("pkg", ">=1.0.0-0", 0).unwrap();
    assert_eq!(req.resolve_version(&pkg), None);
    let req = DependencyRequest::new("pkg", "1.2.3-alpha.7", 0).unwrap();
    assert_eq!(req.resolve_version(&pkg).as_deref(), Some("1.2.3-alpha.7+build.5"));
}

#[test]
fn ranges_that_cannot_be_read_are_known() {
    for range in ["=x", "= v *", "1 =X", "1||=x", "a|| =x", "||||=x", "~x", "~>*", "~ > v1.x.2"] {
        assert!(!is_readable_range(range), "{range}");
    }
    for range in [
        "", "*", "=1", ">=x", "a=x", "|=x", "|||=x", "~1", "~1.x", "~1.x.y", "~>1.2", "^x",
        "~900719925474100.x.1", "~1.x.900719925474100", "latest", "npm:preact@^7.0.0",
    ] {
        assert!(is_readable_range(range), "{range}");
        let req = DependencyRequest::new("pkg", range, 0).unwrap();
        assert_eq!(req.depth(), 0);
    }
}

#[test]
fn request_without_a_version_is_reported() {
    let pkg = pkg_with_versions("pkg", &["1.0.0"]);
    let req = DependencyRequest::new("pkg", "^2.0.0", 3).unwrap();
    match resolve_dep(&req, &pkg) {
        Err(ServerError::PackageVersionNotFound(name, range)) => {
            assert_eq!((name.as_str(), range.as_str()), ("pkg", "^2.0.0"));
        }
        other => panic!("{:?}", other),
    }
    let req = DependencyRequest::new("pkg", "^1.0.0", 3).unwrap();
    let dep = resolve_dep(&req, &pkg).unwrap();
    assert_eq!((dep.name.as_str(), dep.version.as_str(), dep.depth), ("pkg", "1.0.0", 3));
}

#[test]
fn dep_map_is_read() {
    let map = parse_dep_map(r#"{"react":"^18","lodash":"latest","react":"^17"}"#).unwrap();
    assert_eq!(map.len(), 2);
    assert_eq!(map.get("react").map(String::as_str), Some("^17"));
    assert!(has_readable_ranges(&map));
    let requests = process_dep_map(map, 0).unwrap();
    let mut found = names(&requests);
    found.sort();
    assert_eq!(found, vec!["lodash", "react"]);
    assert!(matches!(parse_dep_map("[]"), Err(ServerError::JSONParseError(_))));
    assert!(matches!(parse_dep_map(r#"{"a":1}"#), Err(ServerError::JSONParseError(_))));
    assert!(!has_readable_ranges(&parse_dep_map(r#"{"a":"1","b":"~x"}"#).unwrap()));
}

#[test]
fn used_dependencies_are_requested_one_level_down() {
    let mut deps = StrMap::new();
    for (name, version, is_used) in
        [("a", "^1", true), ("b", "=x", false), ("c", "latest", true)]
    {
        deps.insert(name.to_string(), ModuleDependency { version: version.to_string(), is_used });
    }
    assert!(has_readable_used_ranges(&deps));
    let dep = Dependency::new("p".to_string(), "1.0.0".to_string(), 4);
    let requests = transient_requests(&dep, &deps);
    assert_eq!(names(&requests), vec!["a", "c"]);
    assert!(requests.iter().all(|r| r.depth() == 5));
    deps.insert(
        "d".to_string(),
        ModuleDependency { version: "=x".to_string(), is_used: true },
    );
    assert!(!has_readable_used_ranges(&deps));
}

#[test]
fn packages_are_asked_for_once() {
    let mut c = DepTreeCollector::new();
    let start = c.add_dep_requests(vec![request("a"), request("a"), request("b")]);
    assert_eq!(names(&start), vec!["a", "b"]);
    let dep = Dependency::new("a".to_string(), "1.0.0".to_string(), 0);
    let start = c.on_resolved(Ok((dep, vec![request("b"), request("c"), request("a")])));
    assert_eq!(names(&start), vec!["c"]);
    assert_eq!(c.total_dep_count(), 4);
    assert!(c.has_dep_request(&request("c")));
    assert!(!c.has_dep_request(&request("d")));
}

#[test]
fn some_requests_are_refused() {
    let mut c = DepTreeCollector::new();
    let start = c.add_dep_requests(vec![
        request("@types/react"),
        request("https:"),
        request("@scope"),
        request("@types"),
        request("@typescript/vfs"),
    ]);
    assert_eq!(names(&start), vec!["@typescript/vfs"]);
    assert!(c.should_skip_dep_request(&request("@types/node")));
}

#[test]
fn tree_is_limited() {
    let mut c = DepTreeCollector::new();
    let requests: Vec<DependencyRequest> =
        (0..2 * MAX_TREE_SIZE).map(|i| request(&format!("p{i}"))).collect();
    let start = c.add_dep_requests(requests);
    assert_eq!(start.len(), MAX_TREE_SIZE + 1);
    assert_eq!(c.total_dep_count(), MAX_TREE_SIZE as u64 + 1);
    assert!(c.add_dep_requests(vec![request("more")]).is_empty());
}

#[test]
fn first_error_wins() {
    let mut c = DepTreeCollector::new();
    c.add_dep_requests(vec![request("a"), request("b")]);
    assert!(c.on_resolved(Err(ServerError::PackageNotFound("a".to_string()))).is_empty());
    c.on_resolved(Err(ServerError::InvalidQuery));
    match c.finish() {
        Err(ServerError::PackageNotFound(name)) => assert_eq!(name, "a"),
        other => panic!("{:?}", other),
    }
}

#[test]
fn tree_holds_each_package_once() {
    let mut c = DepTreeCollector::new();
    for (name, version) in [("a", "1.0.0"), ("b", "2.0.0"), ("a", "3.0.0")] {
        c.add_dependency(Dependency::new(name.to_string(), version.to_string(), 1));
    }
    let list = c.get_dependencies();
    assert_eq!(list.len(), 2);
    let list = c.finish().unwrap();
    let found: Vec<(String, String)> =
        list.iter().map(|d| (d.name.clone(), d.version.clone())).collect();
    assert_eq!(
        found,
        vec![("a".to_string(), "1.0.0".to_string()), ("b".to_string(), "2.0.0".to_string())]
    );
}

#[test]
fn unreadable_ranges_are_those_that_make_the_parser_panic() {
    let runtime = tokio::runtime::Builder::new_current_thread().build().unwrap();
    for range in ["=x", "= v *", "1||=x", "||||=x", "|||=x", "a=x", "~x", "~1.x.2", "~1.x"] {
        let joined = runtime.block_on(async move {
            tokio::spawn(async move { node_semver::Range::parse(range).is_ok() }).await
        });
        assert_eq!(joined.is_ok(), is_readable_range(range), "{range}");
    }
}

#[test]
fn finished_tree_is_complete() {
    // Each package with what it asks for; they are resolved last come, first served.
    let packages = [
        ("a", vec!["b", "c", "@types/c"]),
        ("b", vec!["c", "a", "node:fs"]),
        ("c", vec!["d"]),
        ("d", vec![]),
    ];
    let mut c = DepTreeCollector::new();
    let mut pending = c.add_dep_requests(vec![request("a")]);
    while let Some(req) = pending.pop() {
        let package = packages.iter().find(|p| p.0 == req.name()).unwrap();
        let dep = Dependency::new(package.0.to_string(), "1.0.0".to_string(), req.depth());
        let asked = package.1.iter().map(|name| request(name)).collect();
        pending.extend(c.on_resolved(Ok((dep, asked))));
    }
    let mut found: Vec<String> = c.finish().unwrap().into_iter().map(|d| d.name).collect();
    found.sort();
    assert_eq!(found, vec!["a", "b", "c", "d"]);
}
