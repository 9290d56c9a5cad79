//! The decision logic of an npm package CDN: which packages a project needs to run
//! in a browser, which files of each package, and what is answered to a request.

pub mod text;
pub mod npm_specifier;
pub mod str_map;
pub mod app_error;
pub mod json;
pub mod package_json;
pub mod semver;
pub mod document;
pub mod process;
pub mod file_queue;
pub mod disk_cache;
pub mod database;
pub mod local_state;
pub mod request;
pub mod transform;
pub mod syntax_tree;
pub mod reply;
pub mod config;
pub mod collect_dep_tree;
