use sandpack_cdn::disk_cache::{
    cache_file_name, load, seal, temp_file_name, CacheDecision, CacheRead, DiskEnvelope,
    DISK_FORMAT,
};
use sandpack_cdn::process::{MinimalCachedModule, MinimalFile, ModuleDependency};
use sandpack_cdn::str_map::StrMap;

fn module() -> MinimalCachedModule {
    let mut files = StrMap::new();
    files.insert("a.js".to_string(), MinimalFile::Ignored(3));
    MinimalCachedModule { files, modules: vec!["react".to_string()] }
}

fn dependencies() -> StrMap<ModuleDependency> {
    let mut deps = StrMap::new();
    deps.insert(
        "react".to_string(),
        ModuleDependency { version: "^18".to_string(), is_used: true },
    );
    deps
}

#[test]
fn file_names() {
    assert_eq!(cache_file_name("react", "18.2.0"), "react@18.2.0.v4.msgpack");
    assert_eq!(
        cache_file_name("@mui/material", "5.0.0-rc.1"),
        "@mui__material@5.0.0-rc.1.v4.msgpack"
    );
    assert_eq!(
        temp_file_name(&cache_file_name("react", "18.2.0")),
        "react@18.2.0.v4.msgpack.tmp"
    );
}

#[test]
fn stored_package_is_loaded() {
    match load(CacheRead::Entry(seal(module(), dependencies()))) {
        CacheDecision::Hit(module, deps) => {
            assert_eq!(module.modules, vec!["react".to_string()]);
            assert!(matches!(module.files.get("a.js"), Some(MinimalFile::Ignored(3))));
            assert_eq!(deps.get("react").unwrap().version, "^18");
        }
        other => panic!("{:?}", other),
    }
}

#[test]
fn other_formats_are_discarded() {
    for format in [0, DISK_FORMAT - 1, DISK_FORMAT + 1] {
        let envelope = DiskEnvelope { format, module: module(), dependencies: dependencies() };
        assert!(matches!(load(CacheRead::Entry(envelope)), CacheDecision::Discard));
    }
    assert!(matches!(load(CacheRead::Corrupt), CacheDecision::Discard));
}

#[test]
fn what_cannot_be_read_is_left_alone() {
    assert!(matches!(load(CacheRead::Missing), CacheDecision::Miss));
    assert!(matches!(load(CacheRead::Unreadable), CacheDecision::Miss));
}

#[test]
fn files_differ_unless_underscores_meet() {
    assert_ne!(cache_file_name("@a/b-c", "1.0.0"), cache_file_name("@a-b/c", "1.0.0"));
    assert_ne!(cache_file_name("a", "1.0.0"), cache_file_name("a", "1.0.1"));
    assert_ne!(cache_file_name("@a_/b__c", "1.0.0"), cache_file_name("@a_/b__c", "_1.0.0"));
    assert_eq!(cache_file_name("@a/b__c", "1.0.0"), cache_file_name("@a__b/c", "1.0.0"));
}
