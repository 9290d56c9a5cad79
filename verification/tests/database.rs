use sandpack_cdn::app_error::ServerError;
use sandpack_cdn::database::{
    check_manifest_status, entry_stored, registry_url, EnsurePlan, NpmDatabase, WritePlan,
    MANIFEST_CACHE_SIZE,
};
use sandpack_cdn::document::{MinimalPackageData, MinimalPackageVersionData};
use sandpack_cdn::str_map::StrMap;

fn package(name: &str, versions: &[&str]) -> MinimalPackageData {
    let mut map = StrMap::new();
    for version in versions {
        map.insert(
            version.to_string(),
            MinimalPackageVersionData { tarball: "t".to_string(), dependencies: StrMap::new() },
        );
    }
    MinimalPackageData { name: name.to_string(), dist_tags: StrMap::new(), versions: map }
}

#[test]
fn loaded_package_is_kept() {
    let mut db = NpmDatabase::new();
    assert!(db.cached_package("a").is_none());
    let data = db.get_package("a", Ok(Some(package("a", &["1.0.0"])))).unwrap();
    assert_eq!(data.name, "a");
    let again = db.cached_package("a").unwrap();
    assert!(again.versions.contains_key("1.0.0"));
    assert!(db.has_package("a", false));
    assert!(!db.has_package("b", false));
    assert!(db.has_package("b", true));
}

#[test]
fn unknown_package_is_not_found() {
    let mut db = NpmDatabase::new();
    match db.get_package("a", Ok(None)) {
        Err(ServerError::PackageNotFound(name)) => assert_eq!(name, "a"),
        other => panic!("{:?}", other),
    }
    match db.get_package("a", Err(ServerError::SQLiteError("locked".to_string()))) {
        Err(ServerError::SQLiteError(message)) => assert_eq!(message, "locked"),
        other => panic!("{:?}", other),
    }
    assert!(db.cached_package("a").is_none());
}

#[test]
fn changed_package_is_forgotten() {
    let mut db = NpmDatabase::new();
    for name in ["a", "b"] {
        db.get_package(name, Ok(Some(package(name, &["1.0.0"])))).unwrap();
    }
    assert_eq!(db.write_package("a", Ok(1)).unwrap(), 1);
    assert!(db.cached_package("a").is_none());
    assert!(db.cached_package("b").is_some());
    assert!(db.delete_package("b", Err(ServerError::InvalidQuery)).is_err());
    assert!(db.cached_package("b").is_some());
    assert_eq!(db.delete_package("b", Ok(0)).unwrap(), 0);
    assert!(db.cached_package("b").is_none());
}

#[test]
fn least_recently_used_package_is_displaced() {
    let mut db = NpmDatabase::new();
    for i in 0..MANIFEST_CACHE_SIZE {
        let name = format!("p{i}");
        db.get_package(&name, Ok(Some(package(&name, &["1.0.0"])))).unwrap();
    }
    assert!(db.cached_package("p0").is_some());
    db.get_package("more", Ok(Some(package("more", &["1.0.0"])))).unwrap();
    assert!(db.cached_package("p0").is_some());
    assert!(db.cached_package("p1").is_none());
    assert!(db.cached_package("p2").is_some());
    db.get_package("p2", Ok(Some(package("p2", &["2.0.0"])))).unwrap();
    assert!(db.cached_package("p3").is_some());
    assert!(db.cached_package("p2").unwrap().versions.contains_key("2.0.0"));
}

#[test]
fn package_without_versions_is_deleted() {
    assert_eq!(NpmDatabase::plan_write(&package("a", &[])), WritePlan::Delete);
    assert_eq!(NpmDatabase::plan_write(&package("a", &["1.0.0"])), WritePlan::Store);
}

#[test]
fn registry_addresses() {
    assert_eq!(registry_url("react"), "https://registry.npmjs.org/react");
    assert_eq!(registry_url("@mui/material"), "https://registry.npmjs.org/@mui%2fmaterial");
}

#[test]
fn only_success_is_success() {
    assert!(check_manifest_status(200, "a").is_ok());
    assert!(check_manifest_status(299, "a").is_ok());
    for status in [199, 300, 304, 404, 500] {
        match check_manifest_status(status, "a") {
            Err(ServerError::NpmManifestDownloadError { status_code, package_name }) => {
                assert_eq!((status_code, package_name.as_str()), (status, "a"));
            }
            other => panic!("{:?}", other),
        }
    }
}

/// A database in a list, with the memory in front of it.
struct Local {
    memory: NpmDatabase,
    rows: Vec<(String, Vec<String>)>,
}

impl Local {
    fn new() -> Local {
        Local { memory: NpmDatabase::new(), rows: Vec::new() }
    }

    fn stored(&self, name: &str) -> Option<MinimalPackageData> {
        let (_, versions) = self.rows.iter().find(|(id, _)| id == name)?;
        let versions: Vec<&str> = versions.iter().map(|v| v.as_str()).collect();
        Some(package(name, &versions))
    }

    fn write(&mut self, name: &str, versions: &[&str]) {
        self.rows.retain(|(id, _)| id != name);
        match NpmDatabase::plan_write(&package(name, versions)) {
            WritePlan::Delete => {
                self.memory.delete_package(name, Ok(1)).unwrap();
            }
            WritePlan::Store => {
                let versions = versions.iter().map(|v| v.to_string()).collect();
                self.rows.push((name.to_string(), versions));
                self.memory.write_package(name, Ok(1)).unwrap();
            }
        }
    }

    fn delete(&mut self, name: &str) {
        self.rows.retain(|(id, _)| id != name);
        self.memory.delete_package(name, Ok(1)).unwrap();
    }

    fn read(&mut self, name: &str) -> Option<MinimalPackageData> {
        if let Some(data) = self.memory.cached_package(name) {
            return Some(data);
        }
        let stored = self.stored(name);
        self.memory.get_package(name, Ok(stored)).ok()
    }

    fn has_version(&mut self, name: &str, version: &str) -> bool {
        match self.read(name) {
            Some(data) => data.versions.contains_key(version),
            None => false,
        }
    }
}

#[test]
fn read_gives_the_last_write() {
    let mut local = Local::new();
    assert!(local.read("a").is_none());
    local.write("a", &["1.0.0"]);
    local.write("b", &["5.0.0"]);
    assert!(local.has_version("a", "1.0.0"));
    local.write("a", &["2.0.0"]);
    assert!(local.has_version("a", "2.0.0"));
    assert!(!local.has_version("a", "1.0.0"));
    local.write("a", &[]);
    assert!(local.read("a").is_none());
    local.write("a", &["3.0.0"]);
    assert!(local.has_version("a", "3.0.0"));
    local.delete("a");
    assert!(local.read("a").is_none());
    assert!(local.has_version("b", "5.0.0"));
}

#[test]
fn full_memory_still_agrees_with_the_database() {
    let mut local = Local::new();
    for i in 0..MANIFEST_CACHE_SIZE + 3 {
        local.write(&format!("p{i}"), &[&format!("{i}.0.0")]);
    }
    for i in 0..MANIFEST_CACHE_SIZE + 3 {
        assert!(local.has_version(&format!("p{i}"), &format!("{i}.0.0")));
    }
    for i in 0..MANIFEST_CACHE_SIZE + 3 {
        if let Some(data) = local.memory.cached_package(&format!("p{i}")) {
            assert!(data.versions.contains_key(&format!("{i}.0.0")));
        }
    }
    assert!(local.has_version("p0", "0.0.0"));
}

#[test]
fn known_package_is_not_fetched() {
    let mut local = Local::new();
    local.write("a", &["1.0.0"]);
    assert_eq!(local.memory.ensure_package("a", true), EnsurePlan::Known);
    local.read("a").unwrap();
    assert_eq!(local.memory.ensure_package("a", false), EnsurePlan::Known);
}

#[test]
fn unknown_package_is_fetched() {
    let mut local = Local::new();
    let url = "https://registry.npmjs.org/@mui%2fmaterial".to_string();
    assert_eq!(local.memory.ensure_package("@mui/material", false), EnsurePlan::Fetch(url));
    assert!(check_manifest_status(200, "@mui/material").is_ok());
    local.write("@mui/material", &["1.0.0"]);
    let stored = local.stored("@mui/material").is_some();
    assert_eq!(local.memory.ensure_package("@mui/material", stored), EnsurePlan::Known);
    assert!(local.has_version("@mui/material", "1.0.0"));
}

#[test]
fn stored_entry_is_a_success() {
    assert!(entry_stored("a", &package("a", &["1.0.0"]), Ok(1)).is_ok());
}

#[test]
fn package_without_versions_is_not_found() {
    let mut local = Local::new();
    assert!(matches!(local.memory.ensure_package("a", false), EnsurePlan::Fetch(_)));
    local.write("b", &["1.0.0"]);
    local.write("a", &[]);
    match entry_stored("a", &package("a", &[]), Ok(0)) {
        Err(ServerError::PackageNotFound(name)) => assert_eq!(name, "a"),
        other => panic!("{:?}", other),
    }
    assert!(!local.memory.has_package("a", local.rows.iter().any(|(id, _)| id == "a")));
    assert!(local.has_version("b", "1.0.0"));
}

#[test]
fn failure_to_store_an_entry_is_handed_on() {
    for versions in [vec![], vec!["1.0.0"]] {
        let locked = Err(ServerError::SQLiteError("locked".to_string()));
        match entry_stored("a", &package("a", &versions), locked) {
            Err(ServerError::SQLiteError(message)) => assert_eq!(message, "locked"),
            other => panic!("{:?}", other),
        }
    }
}
