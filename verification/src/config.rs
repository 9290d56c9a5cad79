//! Where the server keeps its files.

use vstd::prelude::*;

verus! {

#[derive(Debug, Clone)]
pub struct AppConfig {
    pub temp_dir: String,
    /// Where processed packages are kept; it outlives the process.
    pub package_cache_dir: String,
}

/// The directory of the package cache: the one that is asked for, if it has a name;
/// else the one beside the database, if the database lies in a directory; else
/// `package_cache`.
pub fn package_cache_dir(asked_for: Option<String>, beside_database: Option<String>) -> (r: String)
    ensures
        r@ == (if asked_for is Some && asked_for->0@.len() > 0 {
            asked_for->0@
        } else if beside_database is Some {
            beside_database->0@
        } else {
            "package_cache"@
        }),
{
    if let Some(dir) = asked_for {
        if !dir.as_str().is_empty() {
            return dir;
        }
    }
    match beside_database {
        Some(dir) => dir,
        None => "package_cache".to_string(),
    }
}

} // verus!
