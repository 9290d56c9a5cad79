//! From the files of a package to what is served of it.
//!
//! Starting from the entries of a package, each file that is reached is
//! transformed, and what it imports is looked for in turn. What is served is the
//! content of those files, the sizes of all others, and the packages that the
//! code uses.

use vstd::prelude::*;

use crate::app_error::ServerError;
use crate::file_queue;
use crate::file_queue::FileQueue;
use crate::npm_specifier;
use crate::npm_specifier::ModuleSpecifier;
use crate::package_json;
use crate::package_json::PackageJSON;
use crate::package_json::PackageView;
use crate::semver;
use crate::str_map;
use crate::str_map::StrMap;
use crate::str_map::StrSet;
use crate::text;

verus! {

#[derive(Debug)]
pub enum MinimalFile {
    /// A file that is used, transformed if that is possible.
    File { content: String, dependencies: Vec<String>, is_transpiled: bool },
    /// A file of which no use is known, with its size in bytes.
    Ignored(u64),
    /// A file that something went wrong with.
    Failed(bool),
}

/// What a [`MinimalFile`] says.
#[verifier::ext_equal]
pub enum FileView {
    File { content: Seq<char>, dependencies: Seq<Seq<char>>, is_transpiled: bool },
    Ignored(u64),
    Failed(bool),
}

impl View for MinimalFile {
    type V = FileView;

    open spec fn view(&self) -> FileView {
        match self {
            MinimalFile::File { content, dependencies, is_transpiled } => FileView::File {
                content: content@,
                dependencies: text::views(dependencies@),
                is_transpiled: *is_transpiled,
            },
            MinimalFile::Ignored(size) => FileView::Ignored(*size),
            MinimalFile::Failed(b) => FileView::Failed(*b),
        }
    }
}

/// What is served of a package.
#[derive(Debug)]
pub struct MinimalCachedModule {
    pub files: StrMap<MinimalFile>,
    /// The packages that the code uses, whether they are declared or not.
    pub modules: Vec<String>,
}

/// A package that another one depends on.
#[derive(Debug, Clone)]
pub struct ModuleDependency {
    pub version: String,
    pub is_used: bool,
}

pub type ModuleDependenciesMap = StrMap<ModuleDependency>;

/// The files of a table, by their paths.
pub open spec fn file_views(files: StrMap<MinimalFile>) -> Map<Seq<char>, FileView> {
    str_map::map_of(str_map::with_values(files.entries(), |f: MinimalFile| f@))
}

/// Notes the size of a file. Paths are written with `/`, whatever the platform
/// writes, for so do module specifiers.
pub fn add_file_path(files_map: &mut StrMap<u64>, rel_path: &str, size: u64)
    ensures
        final(files_map)@ == old(files_map)@.insert(text::replaced(rel_path@, '\\', "/"@), size),
{
    files_map.insert(text::replace_char(rel_path, '\\', "/"), size);
}

/// `items` with `s` at the end, unless it is among them.
pub open spec fn push_new(items: Seq<Seq<char>>, s: Seq<char>) -> Seq<Seq<char>> {
    if items.contains(s) {
        items
    } else {
        items.push(s)
    }
}

/// The paths that `specifiers` name within their own package, each once.
pub open spec fn relative_paths(specifiers: Seq<Seq<char>>) -> Seq<Seq<char>>
    decreases specifiers.len(),
{
    if specifiers.len() == 0 {
        Seq::empty()
    } else {
        let rest = relative_paths(specifiers.drop_last());
        match npm_specifier::module_specifier(specifiers.last()) {
            Some(npm_specifier::SpecifierView::Relative(path)) => push_new(rest, path),
            _ => rest,
        }
    }
}

/// The packages that `specifiers` name, each once.
pub open spec fn package_names(specifiers: Seq<Seq<char>>) -> Seq<Seq<char>>
    decreases specifiers.len(),
{
    if specifiers.len() == 0 {
        Seq::empty()
    } else {
        let rest = package_names(specifiers.drop_last());
        match npm_specifier::module_specifier(specifiers.last()) {
            Some(npm_specifier::SpecifierView::Package { name, .. }) => push_new(rest, name),
            _ => rest,
        }
    }
}

/// The specifiers that the package graph can act on.
pub open spec fn graph_edges(specifiers: Seq<Seq<char>>) -> Seq<Seq<char>>
    decreases specifiers.len(),
{
    if specifiers.len() == 0 {
        Seq::empty()
    } else {
        let rest = graph_edges(specifiers.drop_last());
        if npm_specifier::module_specifier(specifiers.last()) is Some {
            rest.push(specifiers.last())
        } else {
            rest
        }
    }
}

/// What specifiers name as packages are well-formed package names, without a colon:
/// no URI gets among the packages that code uses.
pub proof fn law_named_packages_are_packages(specifiers: Seq<Seq<char>>, name: Seq<char>)
    requires
        package_names(specifiers).contains(name),
    ensures
        npm_specifier::valid_package_name(name),
        !name.contains(':'),
    decreases specifiers.len(),
{
    let all = package_names(specifiers);
    let k = choose|k: int| 0 <= k < all.len() && all[k] == name;
    let rest = package_names(specifiers.drop_last());
    if k < rest.len() && rest[k] == name {
        law_named_packages_are_packages(specifiers.drop_last(), name);
    } else {
        match npm_specifier::module_specifier(specifiers.last()) {
            Some(npm_specifier::SpecifierView::Package { name: n, subpath }) => {
                npm_specifier::law_package_name_is_valid(specifiers.last(), n, subpath);
                npm_specifier::law_package_name_has_no_colon(specifiers.last(), n, subpath);
            },
            _ => {},
        }
    }
}

proof fn lemma_same_specifiers(deps: Seq<String>, all: Seq<Seq<char>>)
    requires
        all == text::views(deps),
    ensures
        all.len() == deps.len(),
        forall|i: int| 0 <= i < deps.len() ==> (#[trigger] deps[i])@ == all[i],
        forall|i: int| 0 <= i < deps.len() ==> #[trigger] all[i] == deps[i]@,
{
}

/// A new item is the only one that comes in.
proof fn lemma_push_new(items: Seq<Seq<char>>, s: Seq<char>, x: Seq<char>)
    ensures
        push_new(items, s).contains(x) <==> items.contains(x) || x == s,
{
    let all = push_new(items, s);
    if !items.contains(s) {
        assert(all[items.len() as int] == s);
        if items.contains(x) {
            let k = choose|k: int| 0 <= k < items.len() && items[k] == x;
            assert(all[k] == x);
        }
        if all.contains(x) {
            let k = choose|k: int| 0 <= k < all.len() && all[k] == x;
            if k < items.len() {
                assert(items[k] == x);
            }
        }
    }
}

/// A path is among those of a list of specifiers if and only if one of the specifiers is
/// that path.
pub proof fn law_relative_specifiers_are_paths(specifiers: Seq<Seq<char>>, path: Seq<char>)
    ensures
        relative_paths(specifiers).contains(path) <==> exists|i: int|
            0 <= i < specifiers.len() && npm_specifier::module_specifier(#[trigger] specifiers[i])
                == Some(npm_specifier::SpecifierView::Relative(path)),
    decreases specifiers.len(),
{
    if specifiers.len() > 0 {
        let init = specifiers.drop_last();
        let last = specifiers.len() - 1;
        law_relative_specifiers_are_paths(init, path);
        if let Some(npm_specifier::SpecifierView::Relative(p)) = npm_specifier::module_specifier(
            specifiers.last(),
        ) {
            lemma_push_new(relative_paths(init), p, path);
        }
        assert(specifiers[last] == specifiers.last());
        if exists|i: int|
            0 <= i < specifiers.len() && npm_specifier::module_specifier(#[trigger] specifiers[i])
                == Some(npm_specifier::SpecifierView::Relative(path)) {
            let i = choose|i: int|
                0 <= i < specifiers.len() && npm_specifier::module_specifier(
                    #[trigger] specifiers[i],
                ) == Some(npm_specifier::SpecifierView::Relative(path));
            if i < last {
                assert(init[i] == specifiers[i]);
            }
        }
        if relative_paths(init).contains(path) {
            let i = choose|i: int|
                0 <= i < init.len() && npm_specifier::module_specifier(#[trigger] init[i]) == Some(
                    npm_specifier::SpecifierView::Relative(path),
                );
            assert(specifiers[i] == init[i]);
        }
    }
}

/// A package is among those of a list of specifiers if and only if one of the specifiers
/// names it, with a scope or without one, and with a subpath or without one.
pub proof fn law_package_specifiers_are_packages(specifiers: Seq<Seq<char>>, n: Seq<char>)
    ensures
        package_names(specifiers).contains(n) <==> exists|i: int|
            0 <= i < specifiers.len() && (npm_specifier::module_specifier(#[trigger] specifiers[i])
                matches Some(npm_specifier::SpecifierView::Package { name, .. }) && name == n),
    decreases specifiers.len(),
{
    if specifiers.len() > 0 {
        let init = specifiers.drop_last();
        let last = specifiers.len() - 1;
        law_package_specifiers_are_packages(init, n);
        if let Some(npm_specifier::SpecifierView::Package { name, .. }) =
            npm_specifier::module_specifier(specifiers.last()) {
            lemma_push_new(package_names(init), name, n);
        }
        assert(specifiers[last] == specifiers.last());
        if exists|i: int|
            0 <= i < specifiers.len() && (npm_specifier::module_specifier(#[trigger] specifiers[i])
                matches Some(npm_specifier::SpecifierView::Package { name, .. }) && name == n) {
            let i = choose|i: int|
                0 <= i < specifiers.len() && (npm_specifier::module_specifier(
                    #[trigger] specifiers[i],
                ) matches Some(npm_specifier::SpecifierView::Package { name, .. }) && name == n);
            if i < last {
                assert(init[i] == specifiers[i]);
            }
        }
        if package_names(init).contains(n) {
            let i = choose|i: int|
                0 <= i < init.len() && (npm_specifier::module_specifier(#[trigger] init[i])
                    matches Some(npm_specifier::SpecifierView::Package { name, .. }) && name == n);
            assert(specifiers[i] == init[i]);
        }
    }
}

/// The edges of the graph are those specifiers that name a path or a package, in their
/// order.
pub proof fn law_graph_edges_are_the_specifiers_that_name_something(specifiers: Seq<Seq<char>>)
    ensures
        graph_edges(specifiers) == specifiers.filter(
            |s: Seq<char>| npm_specifier::module_specifier(s) is Some,
        ),
    decreases specifiers.len(),
{
    reveal(Seq::filter);
    if specifiers.len() > 0 {
        law_graph_edges_are_the_specifiers_that_name_something(specifiers.drop_last());
    }
}

/// Parts specifiers into paths and packages; what is neither is left out.
pub fn deps_to_files_and_modules(deps: &Vec<String>) -> (r: (StrSet, StrSet))
    ensures
        r.0.items() == relative_paths(text::views(deps@)),
        r.1.items() == package_names(text::views(deps@)),
        forall|path: Seq<char>| #[trigger]
            r.0.items().contains(path) <==> exists|i: int|
                0 <= i < deps@.len() && npm_specifier::module_specifier((#[trigger] deps@[i])@)
                    == Some(npm_specifier::SpecifierView::Relative(path)),
        forall|n: Seq<char>| #[trigger]
            r.1.items().contains(n) <==> exists|i: int|
                0 <= i < deps@.len() && (npm_specifier::module_specifier((#[trigger] deps@[i])@)
                    matches Some(npm_specifier::SpecifierView::Package { name, .. }) && name == n),
        r.0.items().no_duplicates(),
        r.1.items().no_duplicates(),
{
    let ghost all = text::views(deps@);
    let mut file_specifiers: StrSet = StrSet::new();
    let mut used_modules: StrSet = StrSet::new();
    let mut i: usize = 0;
    while i < deps.len()
        invariant
            all == text::views(deps@),
            i <= all.len(),
            file_specifiers.items() == relative_paths(all.take(i as int)),
            used_modules.items() == package_names(all.take(i as int)),
        decreases all.len() - i,
    {
        proof {
            assert(all.take(i + 1).drop_last() =~= all.take(i as int));
            file_specifiers.lemma_items();
            used_modules.lemma_items();
        }
        match npm_specifier::parse_module_specifier(deps[i].as_str()) {
            Some(ModuleSpecifier::Relative(path)) => {
                file_specifiers.insert(path);
            },
            Some(ModuleSpecifier::Package { name, .. }) => {
                used_modules.insert(name);
            },
            None => {},
        }
        i += 1;
    }
    assert(all.take(i as int) =~= all);
    proof {
        file_specifiers.lemma_items();
        used_modules.lemma_items();
        use_type_invariant(&file_specifiers);
        use_type_invariant(&used_modules);
        assert forall|path: Seq<char>| #[trigger]
            file_specifiers.items().contains(path) <==> exists|i: int|
                0 <= i < deps@.len() && npm_specifier::module_specifier((#[trigger] deps@[i])@)
                    == Some(npm_specifier::SpecifierView::Relative(path)) by {
            law_relative_specifiers_are_paths(all, path);
            lemma_same_specifiers(deps@, all);
        }
        assert forall|n: Seq<char>| #[trigger]
            used_modules.items().contains(n) <==> exists|i: int|
                0 <= i < deps@.len() && (npm_specifier::module_specifier((#[trigger] deps@[i])@)
                    matches Some(npm_specifier::SpecifierView::Package { name, .. }) && name
                    == n) by {
            law_package_specifiers_are_packages(all, n);
            lemma_same_specifiers(deps@, all);
        }
    }
    (file_specifiers, used_modules)
}

/// Keeps the specifiers that the package graph can act on.
pub fn keep_graph_edges(deps: &Vec<String>) -> (r: Vec<String>)
    ensures
        text::views(r@) == graph_edges(text::views(deps@)),
{
    let ghost all = text::views(deps@);
    let mut kept: Vec<String> = Vec::new();
    let mut i: usize = 0;
    assert(text::views(kept@) =~= graph_edges(all.take(0)));
    while i < deps.len()
        invariant
            all == text::views(deps@),
            i <= all.len(),
            text::views(kept@) == graph_edges(all.take(i as int)),
        decreases all.len() - i,
    {
        let ghost before = text::views(kept@);
        assert(all.take(i + 1).drop_last() =~= all.take(i as int));
        if npm_specifier::parse_module_specifier(deps[i].as_str()).is_some() {
            kept.push(deps[i].clone());
            assert(text::views(kept@) =~= before.push(all[i as int]));
        }
        i += 1;
    }
    assert(all.take(i as int) =~= all);
    kept
}

proof fn lemma_file_views_put(
    before: StrMap<MinimalFile>,
    after: StrMap<MinimalFile>,
    path: Seq<char>,
    file: MinimalFile,
)
    requires
        str_map::distinct_keys(before.entries()),
        after.entries() == str_map::put(before.entries(), path, file),
    ensures
        file_views(after) == file_views(before).insert(path, file@),
{
    let f = |f: MinimalFile| f@;
    let mapped = str_map::with_values(before.entries(), f);
    assert forall|i: int, j: int| 0 <= i < j < mapped.len() implies (#[trigger] mapped[i]).0 != (
    #[trigger] mapped[j]).0 by {
        assert(before.entries()[i].0 != before.entries()[j].0);
    }
    str_map::lemma_put_with_values(before.entries(), f, path, file);
    str_map::lemma_put_map(mapped, path, file@);
}

/// Sets the entry of a file.
pub(crate) fn put_file(files: &mut StrMap<MinimalFile>, path: String, file: MinimalFile)
    ensures
        file_views(*final(files)) == file_views(*old(files)).insert(path@, file@),
{
    proof {
        use_type_invariant(&*files);
    }
    let ghost before = *files;
    files.insert(path, file);
    proof {
        lemma_file_views_put(before, *files, path@, file);
    }
}

pub(crate) fn has_file(files: &StrMap<MinimalFile>, path: &str) -> (r: bool)
    ensures
        r == file_views(*files).contains_key(path@),
{
    proof {
        let mapped = str_map::with_values(files.entries(), |f: MinimalFile| f@);
        str_map::lemma_map_of_keys(files.entries(), path@);
        str_map::lemma_map_of_keys(mapped, path@);
        assert forall|i: int| 0 <= i < mapped.len() implies (#[trigger] mapped[i]).0
            == files.entries()[i].0 by {}
        if files@.contains_key(path@) {
            let i = choose|i: int|
                0 <= i < files.entries().len() && (#[trigger] files.entries()[i]).0 == path@;
            assert(mapped[i].0 == path@);
        }
    }
    files.contains_key(path)
}

/// The queue of a package with the content `pkg_json_content` of its
/// `package.json`, which is served as it is.
pub fn start_package(
    pkg_json: &PackageJSON,
    pkg_json_content: String,
    additional_exports: Vec<String>,
) -> (r: Result<FileQueue, ServerError>)
    ensures
        r is Ok,
        r->Ok_0@.files == map![
            "package.json"@ => FileView::File {
                content: pkg_json_content@,
                dependencies: Seq::empty(),
                is_transpiled: false,
            }
        ],
        r->Ok_0@.used_modules == Set::<Seq<char>>::empty(),
        exists|entries: Seq<Seq<char>>|
            r->Ok_0@.tasks == #[trigger] file_queue::resolve_tasks("."@, entries) && text::ascending(entries)
                && forall|e: Seq<char>|
                entries.contains(e) <==> package_json::package_entry(
                    pkg_json@,
                    text::views(additional_exports@),
                    e,
                ),
{
    match package_json::collect_pkg_entries(pkg_json, additional_exports) {
        Ok(entries) => {
            let none: Vec<String> = Vec::new();
            assert(text::views(none@) =~= Seq::empty());
            let mut files: StrMap<MinimalFile> = StrMap::new();
            assert(file_views(files) =~= Map::empty());
            put_file(
                &mut files,
                "package.json".to_string(),
                MinimalFile::File {
                    content: pkg_json_content,
                    dependencies: none,
                    is_transpiled: false,
                },
            );
            let queue = FileQueue::new(files, &entries);
            assert(queue@.tasks == file_queue::resolve_tasks("."@, text::views(entries@)));
            Ok(queue)
        },
        Err(err) => Err(err),
    }
}

/// The files with all others of the package, of which only the size is served.
pub open spec fn with_ignored(
    files: Map<Seq<char>, FileView>,
    sizes: Map<Seq<char>, u64>,
) -> Map<Seq<char>, FileView> {
    sizes.map_values(|size: u64| FileView::Ignored(size)).union_prefer_right(files)
}

/// Adds those files that have not come up.
fn add_ignored_files(files: &mut StrMap<MinimalFile>, file_paths: &StrMap<u64>)
    ensures
        file_views(*final(files)) == with_ignored(file_views(*old(files)), file_paths@),
{
    proof {
        use_type_invariant(file_paths);
    }
    let ghost before = file_views(*files);
    let ghost all = file_paths.entries();
    let mut i: usize = 0;
    assert(file_views(*files) =~= with_ignored(before, str_map::map_of(all.take(0))));
    while i < file_paths.len()
        invariant
            all == file_paths.entries(),
            str_map::distinct_keys(all),
            i <= all.len(),
            file_views(*files) == with_ignored(before, str_map::map_of(all.take(i as int))),
        decreases all.len() - i,
    {
        let path: &String = file_paths.key_at(i);
        let size: u64 = *file_paths.value_at(i);
        let ghost sizes = str_map::map_of(all.take(i as int));
        proof {
            assert(all.take(i + 1).drop_last() =~= all.take(i as int));
            str_map::lemma_map_of_keys(all.take(i as int), path@);
            assert(!sizes.contains_key(path@));
        }
        if !has_file(files, path.as_str()) {
            put_file(files, path.clone(), MinimalFile::Ignored(size));
        }
        assert(file_views(*files) =~= with_ignored(before, sizes.insert(path@, size)));
        i += 1;
    }
    assert(all.take(i as int) =~= all);
}

/// What a [`ModuleDependency`] says.
#[verifier::ext_equal]
pub struct ModuleDependencyView {
    pub version: Seq<char>,
    pub is_used: bool,
}

impl View for ModuleDependency {
    type V = ModuleDependencyView;

    open spec fn view(&self) -> ModuleDependencyView {
        ModuleDependencyView { version: self.version@, is_used: self.is_used }
    }
}

/// The dependencies of a table, by their names.
pub open spec fn dependencies_view(deps: ModuleDependenciesMap) -> Map<
    Seq<char>,
    ModuleDependencyView,
> {
    str_map::map_of(str_map::with_values(deps.entries(), |d: ModuleDependency| d@))
}

/// The range that a table declares for a package.
pub open spec fn declared_range(
    table: Option<Seq<(Seq<char>, Seq<char>)>>,
    name: Seq<char>,
) -> Option<Seq<char>> {
    match table {
        Some(entries) => if str_map::map_of(entries).contains_key(name) {
            Some(str_map::map_of(entries)[name])
        } else {
            None
        },
        None => None,
    }
}

/// What a package depends on: on what it declares, used or not; on those of its
/// peers that it uses; and on whatever else its code uses, in the latest version.
pub open spec fn dependency_on(
    pkg: PackageView,
    package_name: Seq<char>,
    used_modules: Set<Seq<char>>,
    name: Seq<char>,
) -> Option<ModuleDependencyView> {
    let is_used = used_modules.contains(name);
    match declared_range(pkg.dependencies, name) {
        Some(version) => Some(ModuleDependencyView { version, is_used }),
        None => if !is_used {
            None
        } else {
            match declared_range(pkg.peer_dependencies, name) {
                Some(version) => Some(ModuleDependencyView { version, is_used: true }),
                None => if name != package_name && npm_specifier::valid_package_name(name) {
                    Some(ModuleDependencyView { version: "latest"@, is_used: true })
                } else {
                    None
                },
            }
        },
    }
}

/// The packages that are served as used by the code of a package.
pub open spec fn served_modules(names: Seq<Seq<char>>, package_name: Seq<char>) -> Seq<Seq<char>>
    decreases names.len(),
{
    if names.len() == 0 {
        Seq::empty()
    } else {
        let rest = served_modules(names.drop_last(), package_name);
        if names.last() != package_name && npm_specifier::valid_package_name(names.last()) {
            rest.push(names.last())
        } else {
            rest
        }
    }
}

fn put_dependency(deps: &mut ModuleDependenciesMap, name: String, version: String, is_used: bool)
    ensures
        dependencies_view(*final(deps)) == dependencies_view(*old(deps)).insert(
            name@,
            ModuleDependencyView { version: version@, is_used },
        ),
{
    proof {
        use_type_invariant(&*deps);
        let f = |d: ModuleDependency| d@;
        let mapped = str_map::with_values(deps.entries(), f);
        assert forall|i: int, j: int| 0 <= i < j < mapped.len() implies (#[trigger] mapped[i]).0
            != (#[trigger] mapped[j]).0 by {
            assert(deps.entries()[i].0 != deps.entries()[j].0);
        }
        let d = ModuleDependency { version, is_used };
        str_map::lemma_put_with_values(deps.entries(), f, name@, d);
        str_map::lemma_put_map(mapped, name@, d@);
    }
    deps.insert(name, ModuleDependency { version, is_used });
}

fn has_dependency(deps: &ModuleDependenciesMap, name: &str) -> (r: bool)
    ensures
        r == dependencies_view(*deps).contains_key(name@),
{
    proof {
        let mapped = str_map::with_values(deps.entries(), |d: ModuleDependency| d@);
        str_map::lemma_map_of_keys(deps.entries(), name@);
        str_map::lemma_map_of_keys(mapped, name@);
        assert forall|i: int| 0 <= i < mapped.len() implies (#[trigger] mapped[i]).0
            == deps.entries()[i].0 by {}
        if deps@.contains_key(name@) {
            let i = choose|i: int|
                0 <= i < deps.entries().len() && (#[trigger] deps.entries()[i]).0 == name@;
            assert(mapped[i].0 == name@);
        }
    }
    deps.contains_key(name)
}

pub open spec fn find(deps: Map<Seq<char>, ModuleDependencyView>, name: Seq<char>) -> Option<
    ModuleDependencyView,
> {
    if deps.contains_key(name) {
        Some(deps[name])
    } else {
        None
    }
}

/// [`dependency_on`] as far as some of the tables have been gone through.
spec fn dependency_so_far(
    dependencies: Seq<(Seq<char>, Seq<char>)>,
    peers: Seq<(Seq<char>, Seq<char>)>,
    names: Seq<Seq<char>>,
    package_name: Seq<char>,
    used_modules: Set<Seq<char>>,
    name: Seq<char>,
) -> Option<ModuleDependencyView> {
    let is_used = used_modules.contains(name);
    match declared_range(Some(dependencies), name) {
        Some(version) => Some(ModuleDependencyView { version, is_used }),
        None => if is_used && declared_range(Some(peers), name) is Some {
            Some(
                ModuleDependencyView {
                    version: declared_range(Some(peers), name)->0,
                    is_used: true,
                },
            )
        } else if names.contains(name) && name != package_name
            && npm_specifier::valid_package_name(name) {
            Some(ModuleDependencyView { version: "latest"@, is_used: true })
        } else {
            None
        },
    }
}

/// What a package depends on.
pub fn collect_dependencies(
    pkg_json: &PackageJSON,
    package_name: &str,
    used_modules: &StrSet,
) -> (r: ModuleDependenciesMap)
    ensures
        forall|name: Seq<char>| #[trigger]
            find(dependencies_view(r), name) == dependency_on(
                pkg_json@,
                package_name@,
                used_modules@,
                name,
            ),
{
    let none: StrMap<String> = StrMap::new();
    let declared: &StrMap<String> = match &pkg_json.dependencies {
        Some(table) => table,
        None => &none,
    };
    let peers: &StrMap<String> = match &pkg_json.peer_dependencies {
        Some(table) => table,
        None => &none,
    };
    let ghost d = str_map::pairs(*declared);
    let ghost p = str_map::pairs(*peers);
    let ghost names = used_modules.items();
    let ghost no_pairs = Seq::<(Seq<char>, Seq<char>)>::empty();
    let ghost no_names = Seq::<Seq<char>>::empty();
    proof {
        use_type_invariant(declared);
        use_type_invariant(peers);
        used_modules.lemma_items();
        assert(str_map::pairs(none) =~= no_pairs);
        assert(d.take(0) =~= no_pairs);
        assert(p.take(0) =~= no_pairs);
        assert(names.take(0) =~= no_names);
    }
    let mut deps: ModuleDependenciesMap = StrMap::new();
    assert(dependencies_view(deps) =~= Map::empty());
    let mut i: usize = 0;
    while i < declared.len()
        invariant
            d == str_map::pairs(*declared),
            i <= d.len(),
            forall|name: Seq<char>| #[trigger]
                find(dependencies_view(deps), name) == dependency_so_far(
                    d.take(i as int),
                    no_pairs,
                    no_names,
                    package_name@,
                    used_modules@,
                    name,
                ),
            no_pairs.len() == 0,
            no_names.len() == 0,
        decreases d.len() - i,
    {
        let ghost before = dependencies_view(deps);
        let name: &String = declared.key_at(i);
        let version: &String = declared.value_at(i);
        proof {
            assert(d[i as int] == (name@, version@));
            assert(d.take(i + 1).drop_last() =~= d.take(i as int));
        }
        put_dependency(
            &mut deps,
            name.clone(),
            version.clone(),
            used_modules.contains(name.as_str()),
        );
        proof {
            assert forall|n: Seq<char>| #[trigger]
                find(dependencies_view(deps), n) == dependency_so_far(
                    d.take(i + 1),
                    no_pairs,
                    no_names,
                    package_name@,
                    used_modules@,
                    n,
                ) by {
                assert(find(before, n) == dependency_so_far(
                    d.take(i as int),
                    no_pairs,
                    no_names,
                    package_name@,
                    used_modules@,
                    n,
                ));
            }
        }
        i += 1;
    }
    assert(d.take(i as int) =~= d);
    let mut i: usize = 0;
    while i < peers.len()
        invariant
            p == str_map::pairs(*peers),
            i <= p.len(),
            str_map::distinct_keys(peers.entries()),
            forall|name: Seq<char>| #[trigger]
                find(dependencies_view(deps), name) == dependency_so_far(
                    d,
                    p.take(i as int),
                    no_names,
                    package_name@,
                    used_modules@,
                    name,
                ),
            no_names.len() == 0,
        decreases p.len() - i,
    {
        let ghost before = dependencies_view(deps);
        let name: &String = peers.key_at(i);
        let version: &String = peers.value_at(i);
        proof {
            assert(p[i as int] == (name@, version@));
            assert(p.take(i + 1).drop_last() =~= p.take(i as int));
            str_map::lemma_map_of_keys(p.take(i as int), name@);
            assert forall|j: int| 0 <= j < i implies (#[trigger] p.take(i as int)[j]).0 != name@ by {
                assert(peers.entries()[j].0 != peers.entries()[i as int].0);
            }
            assert(find(dependencies_view(deps), name@) == dependency_so_far(
                d,
                p.take(i as int),
                no_names,
                package_name@,
                used_modules@,
                name@,
            ));
        }
        if !has_dependency(&deps, name.as_str()) && used_modules.contains(name.as_str()) {
            put_dependency(&mut deps, name.clone(), version.clone(), true);
        }
        proof {
            assert forall|n: Seq<char>| #[trigger]
                find(dependencies_view(deps), n) == dependency_so_far(
                    d,
                    p.take(i + 1),
                    no_names,
                    package_name@,
                    used_modules@,
                    n,
                ) by {
                assert(find(before, n) == dependency_so_far(
                    d,
                    p.take(i as int),
                    no_names,
                    package_name@,
                    used_modules@,
                    n,
                ));
            }
        }
        i += 1;
    }
    assert(p.take(i as int) =~= p);
    let mut i: usize = 0;
    while i < used_modules.len()
        invariant
            names == used_modules.items(),
            i <= names.len(),
            forall|s: Seq<char>| used_modules@.contains(s) <==> #[trigger] names.contains(s),
            forall|name: Seq<char>| #[trigger]
                find(dependencies_view(deps), name) == dependency_so_far(
                    d,
                    p,
                    names.take(i as int),
                    package_name@,
                    used_modules@,
                    name,
                ),
        decreases names.len() - i,
    {
        let ghost before = dependencies_view(deps);
        let name: &String = used_modules.item_at(i);
        proof {
            let a = names.take(i as int);
            let b = names.take(i + 1);
            assert(b =~= a.push(name@));
            assert forall|s: Seq<char>| #[trigger] b.contains(s) <==> a.contains(s) || s == name@ by {
                if a.contains(s) {
                    let k = choose|k: int| 0 <= k < a.len() && a[k] == s;
                    assert(b[k] == s);
                }
                if b.contains(s) {
                    let k = choose|k: int| 0 <= k < b.len() && b[k] == s;
                    if k < a.len() {
                        assert(a[k] == s);
                    }
                }
                assert(b[i as int] == name@);
            }
            assert(find(dependencies_view(deps), name@) == dependency_so_far(
                d,
                p,
                a,
                package_name@,
                used_modules@,
                name@,
            ));
        }
        if !text::same_text(name.as_str(), package_name) && !has_dependency(&deps, name.as_str())
            && npm_specifier::is_valid_package_name(name.as_str()) {
            put_dependency(&mut deps, name.clone(), "latest".to_string(), true);
        }
        proof {
            assert forall|n: Seq<char>| #[trigger]
                find(dependencies_view(deps), n) == dependency_so_far(
                    d,
                    p,
                    names.take(i + 1),
                    package_name@,
                    used_modules@,
                    n,
                ) by {
                assert(find(before, n) == dependency_so_far(
                    d,
                    p,
                    names.take(i as int),
                    package_name@,
                    used_modules@,
                    n,
                ));
            }
        }
        i += 1;
    }
    proof {
        assert(names.take(i as int) =~= names);
        assert forall|name: Seq<char>| #[trigger]
            find(dependencies_view(deps), name) == dependency_on(
                pkg_json@,
                package_name@,
                used_modules@,
                name,
            ) by {
            assert(used_modules@.contains(name) <==> names.contains(name));
        }
    }
    deps
}

/// The packages that are served as used by the code of a package.
pub fn collect_modules(package_name: &str, used_modules: &StrSet) -> (r: Vec<String>)
    ensures
        text::views(r@) == served_modules(used_modules.items(), package_name@),
{
    let ghost names = used_modules.items();
    let mut modules: Vec<String> = Vec::new();
    let mut i: usize = 0;
    assert(text::views(modules@) =~= served_modules(names.take(0), package_name@));
    while i < used_modules.len()
        invariant
            names == used_modules.items(),
            i <= names.len(),
            text::views(modules@) == served_modules(names.take(i as int), package_name@),
        decreases names.len() - i,
    {
        let ghost before = text::views(modules@);
        let name: &String = used_modules.item_at(i);
        assert(names.take(i + 1).drop_last() =~= names.take(i as int));
        if !text::same_text(name.as_str(), package_name) && npm_specifier::is_valid_package_name(
            name.as_str(),
        ) {
            modules.push(name.clone());
            assert(text::views(modules@) =~= before.push(name@));
        }
        i += 1;
    }
    assert(names.take(i as int) =~= names);
    modules
}

/// What is served of a package when nothing is left to do for it.
pub fn finish_package(
    pkg_json: &PackageJSON,
    package_name: &str,
    queue: FileQueue,
    file_paths: &StrMap<u64>,
) -> (r: (MinimalCachedModule, ModuleDependenciesMap))
    ensures
        file_views(r.0.files) == with_ignored(queue@.files, file_paths@),
        exists|names: Seq<Seq<char>>|
            text::views(r.0.modules@) == #[trigger] served_modules(names, package_name@)
                && names.no_duplicates() && forall|s: Seq<char>|
                names.contains(s) <==> queue@.used_modules.contains(s),
        forall|name: Seq<char>| #[trigger]
            find(dependencies_view(r.1), name) == dependency_on(
                pkg_json@,
                package_name@,
                queue@.used_modules,
                name,
            ),
{
    let (mut files, used_modules) = queue.into_parts();
    add_ignored_files(&mut files, file_paths);
    let dependencies: ModuleDependenciesMap = collect_dependencies(
        pkg_json,
        package_name,
        &used_modules,
    );
    let modules: Vec<String> = collect_modules(package_name, &used_modules);
    proof {
        use_type_invariant(&used_modules);
        used_modules.lemma_items();
        assert(text::views(modules@) == served_modules(used_modules.items(), package_name@));
    }
    (MinimalCachedModule { files, modules }, dependencies)
}

/// The range that a table declares for a package is the one that stands beside its name.
pub proof fn law_declared_range_stands_beside_the_name(entries: Seq<(Seq<char>, Seq<char>)>)
    requires
        str_map::distinct_keys(entries),
    ensures
        forall|i: int|
            0 <= i < entries.len() ==> declared_range(Some(entries), (#[trigger] entries[i]).0)
                == Some(entries[i].1),
        forall|name: Seq<char>| #[trigger]
            declared_range(Some(entries), name) is Some ==> exists|i: int|
                0 <= i < entries.len() && (#[trigger] entries[i]).0 == name,
        forall|name: Seq<char>| #[trigger] declared_range(None, name) is None,
{
    str_map::law_table_holds_its_entries(entries);
    assert forall|name: Seq<char>| #[trigger]
        declared_range(Some(entries), name) is Some implies exists|i: int|
        0 <= i < entries.len() && (#[trigger] entries[i]).0 == name by {
        str_map::lemma_map_of_keys(entries, name);
    }
}

/// What a package depends on, case by case: on what it declares, at the declared range, as
/// used or not; on peers only if its code uses them, at their range; on other packages only
/// if its code uses them, in the latest version, and never on itself.
pub proof fn law_dependency_case_by_case(
    pkg: PackageView,
    package_name: Seq<char>,
    used_modules: Set<Seq<char>>,
    name: Seq<char>,
)
    ensures
        declared_range(pkg.dependencies, name) is Some ==> dependency_on(
            pkg,
            package_name,
            used_modules,
            name,
        ) == Some(
            ModuleDependencyView {
                version: declared_range(pkg.dependencies, name)->0,
                is_used: used_modules.contains(name),
            },
        ),
        declared_range(pkg.dependencies, name) is None && !used_modules.contains(name)
            ==> dependency_on(pkg, package_name, used_modules, name) is None,
        declared_range(pkg.dependencies, name) is None && used_modules.contains(name)
            && declared_range(pkg.peer_dependencies, name) is Some ==> dependency_on(
            pkg,
            package_name,
            used_modules,
            name,
        ) == Some(
            ModuleDependencyView {
                version: declared_range(pkg.peer_dependencies, name)->0,
                is_used: true,
            },
        ),
        declared_range(pkg.dependencies, name) is None && used_modules.contains(name)
            && declared_range(pkg.peer_dependencies, name) is None && name != package_name && (
        npm_specifier::module_specifier(name) matches Some(
            npm_specifier::SpecifierView::Package { subpath: None, .. },
        )) ==> dependency_on(pkg, package_name, used_modules, name) == Some(
            ModuleDependencyView { version: "latest"@, is_used: true },
        ),
        declared_range(pkg.dependencies, name) is None && declared_range(
            pkg.peer_dependencies,
            name,
        ) is None && name == package_name ==> dependency_on(
            pkg,
            package_name,
            used_modules,
            name,
        ) is None,
        declared_range(pkg.dependencies, name) is None && declared_range(
            pkg.peer_dependencies,
            name,
        ) is None && !(npm_specifier::module_specifier(name) matches Some(
            npm_specifier::SpecifierView::Package { subpath: None, .. },
        )) ==> dependency_on(pkg, package_name, used_modules, name) is None,
{
}

/// The packages that are served as used are those that the code uses, in their order,
/// without the package itself and without names that are no package names.
pub proof fn law_served_modules_are_the_used_ones(
    names: Seq<Seq<char>>,
    package_name: Seq<char>,
)
    ensures
        served_modules(names, package_name) == names.filter(
            |name: Seq<char>|
                name != package_name && (npm_specifier::module_specifier(name) matches Some(
                    npm_specifier::SpecifierView::Package { subpath: None, .. },
                )),
        ),
    decreases names.len(),
{
    reveal(Seq::filter);
    if names.len() > 0 {
        law_served_modules_are_the_used_ones(names.drop_last(), package_name);
    }
}

/// Whatever the code of a package uses is among what it depends on, as used: the
/// package itself aside, and names that are no package names.
pub proof fn law_used_module_is_a_used_dependency(
    pkg: PackageView,
    package_name: Seq<char>,
    used_modules: Set<Seq<char>>,
    name: Seq<char>,
)
    requires
        used_modules.contains(name),
        name != package_name,
        npm_specifier::valid_package_name(name),
    ensures
        dependency_on(pkg, package_name, used_modules, name) is Some,
        dependency_on(pkg, package_name, used_modules, name)->0.is_used,
{
}

/// A dependency counts as used if and only if the code uses it, and one that is
/// not used is one that the package declares.
pub proof fn law_dependency_is_used_or_declared(
    pkg: PackageView,
    package_name: Seq<char>,
    used_modules: Set<Seq<char>>,
    name: Seq<char>,
)
    requires
        dependency_on(pkg, package_name, used_modules, name) is Some,
    ensures
        dependency_on(pkg, package_name, used_modules, name)->0.is_used <==> used_modules.contains(
            name,
        ),
        !used_modules.contains(name) ==> declared_range(pkg.dependencies, name) is Some,
{
}

/// What a package declares decides over what its peers declare, and either over
/// the latest version.
pub proof fn law_declared_range_decides(
    pkg: PackageView,
    package_name: Seq<char>,
    used_modules: Set<Seq<char>>,
    name: Seq<char>,
)
    requires
        used_modules.contains(name),
    ensures
        declared_range(pkg.dependencies, name) is Some ==> dependency_on(
            pkg,
            package_name,
            used_modules,
            name,
        )->0.version == declared_range(pkg.dependencies, name)->0,
        declared_range(pkg.dependencies, name) is None && declared_range(
            pkg.peer_dependencies,
            name,
        ) is Some ==> dependency_on(pkg, package_name, used_modules, name)->0.version
            == declared_range(pkg.peer_dependencies, name)->0,
{
}

proof fn lemma_served_modules(names: Seq<Seq<char>>, package_name: Seq<char>, m: Seq<char>)
    ensures
        served_modules(names, package_name).contains(m) <==> names.contains(m) && m != package_name
            && npm_specifier::valid_package_name(m),
    decreases names.len(),
{
    let all = served_modules(names, package_name);
    if names.len() > 0 {
        let init = names.drop_last();
        let rest = served_modules(init, package_name);
        lemma_served_modules(init, package_name, m);
        if names.contains(m) {
            let k = choose|k: int| 0 <= k < names.len() && names[k] == m;
            if k < init.len() {
                assert(init[k] == m);
            }
        }
        if init.contains(m) {
            let k = choose|k: int| 0 <= k < init.len() && init[k] == m;
            assert(names[k] == m);
        }
        assert(names[names.len() - 1] == names.last());
        if names.last() != package_name && npm_specifier::valid_package_name(names.last()) {
            assert(all == rest.push(names.last()));
            if rest.contains(m) {
                let k = choose|k: int| 0 <= k < rest.len() && rest[k] == m;
                assert(all[k] == m);
            }
            if all.contains(m) {
                let k = choose|k: int| 0 <= k < all.len() && all[k] == m;
                if k < rest.len() {
                    assert(rest[k] == m);
                }
            }
            assert(all[rest.len() as int] == names.last());
        }
    }
}

/// Each package that is served as used is one that the dependency tree follows.
pub proof fn law_served_module_is_followed(
    pkg: PackageView,
    package_name: Seq<char>,
    names: Seq<Seq<char>>,
    used_modules: Set<Seq<char>>,
    m: Seq<char>,
)
    requires
        forall|s: Seq<char>| names.contains(s) <==> used_modules.contains(s),
        served_modules(names, package_name).contains(m),
    ensures
        dependency_on(pkg, package_name, used_modules, m) is Some,
        dependency_on(pkg, package_name, used_modules, m)->0.is_used,
{
    lemma_served_modules(names, package_name, m);
}

/// A file that the package holds is served: with its content if it came up, with
/// its size otherwise.
pub proof fn law_every_file_is_served(
    files: Map<Seq<char>, FileView>,
    sizes: Map<Seq<char>, u64>,
    path: Seq<char>,
)
    ensures
        with_ignored(files, sizes).contains_key(path) <==> files.contains_key(path)
            || sizes.contains_key(path),
        files.contains_key(path) ==> with_ignored(files, sizes)[path] == files[path],
        !files.contains_key(path) && sizes.contains_key(path) ==> with_ignored(files, sizes)[path]
            == FileView::Ignored(sizes[path]),
{
}

/// The position of the last `c` in `s`; -1 when there is none.
pub open spec fn last_index(s: Seq<char>, c: char) -> int
    decreases s.len(),
{
    if s.len() == 0 {
        -1
    } else if s.last() == c {
        s.len() - 1
    } else {
        last_index(s.drop_last(), c)
    }
}

/// How many `c` stand in `s`.
pub open spec fn count(s: Seq<char>, c: char) -> nat
    decreases s.len(),
{
    if s.len() == 0 {
        0
    } else {
        count(s.drop_last(), c) + if s.last() == c {
            1nat
        } else {
            0nat
        }
    }
}

pub open spec fn has_white_space(s: Seq<char>) -> bool {
    exists|i: int| 0 <= i < s.len() && text::white_space(#[trigger] s[i])
}

/// The name and the version that a specifier such as `react@18.2.0` names. What
/// stands behind the last `@` is the version.
pub open spec fn name_and_version(s: Seq<char>) -> Option<(Seq<char>, Seq<char>)> {
    let at = last_index(s, '@');
    if has_white_space(s) || count(s, '@') > 2 {
        None
    } else if at < 0 {
        Some((Seq::empty(), s))
    } else {
        Some((s.take(at), s.skip(at + 1)))
    }
}

pub fn parse_package_specifier_no_validation(package_specifier: &str) -> (r: Result<
    (String, String),
    ServerError,
>)
    ensures
        (match name_and_version(package_specifier@) {
            Some((name, version)) => r is Ok && r->Ok_0.0@ == name && r->Ok_0.1@ == version,
            None => r matches Err(ServerError::InvalidPackageSpecifier),
        }),
{
    let ghost s = package_specifier@;
    let chars: Vec<char> = text::to_chars(package_specifier);
    let mut seen: usize = 0;
    let mut last: Option<usize> = None;
    let mut i: usize = 0;
    while i < chars.len()
        invariant
            s == package_specifier@,
            chars@ == s,
            i <= s.len(),
            seen <= i,
            seen == count(s.take(i as int), '@'),
            forall|j: int| 0 <= j < i ==> !text::white_space(#[trigger] s[j]),
            (match last {
                Some(at) => at < i && last_index(s.take(i as int), '@') == at,
                None => last_index(s.take(i as int), '@') == -1,
            }),
        decreases s.len() - i,
    {
        assert(s.take(i + 1).drop_last() =~= s.take(i as int));
        if chars[i].is_whitespace() {
            assert(text::white_space(s[i as int]));
            return Err(ServerError::InvalidPackageSpecifier);
        }
        if chars[i] == '@' {
            seen += 1;
            last = Some(i);
        }
        i += 1;
    }
    assert(s.take(i as int) =~= s);
    if seen > 2 {
        return Err(ServerError::InvalidPackageSpecifier);
    }
    match last {
        Some(at) => {
            assert(s.subrange(0, at as int) =~= s.take(at as int));
            assert(s.subrange(at + 1, s.len() as int) =~= s.skip(at + 1));
            Ok(
                (
                    text::chars_to_string(&chars, 0, at),
                    text::chars_to_string(&chars, at + 1, chars.len()),
                ),
            )
        },
        None => Ok((String::new(), package_specifier.to_string())),
    }
}

/// The name and the version of a package, the version being one that can be read.
pub fn parse_package_specifier(package_specifier: &str) -> (r: Result<
    (String, String),
    ServerError,
>)
    ensures
        (match name_and_version(package_specifier@) {
            Some((name, version)) => match semver::parsed_version(version) {
                Ok(_) => r is Ok && r->Ok_0.0@ == name && r->Ok_0.1@ == version,
                Err(message) => r matches Err(ServerError::InvalidSemver(m)) && m@ == message,
            },
            None => r matches Err(ServerError::InvalidPackageSpecifier),
        }),
{
    match parse_package_specifier_no_validation(package_specifier) {
        Ok((name, version)) => match semver::parse_version(version.as_str()) {
            Ok(_) => Ok((name, version)),
            Err(message) => Err(ServerError::InvalidSemver(message)),
        },
        Err(err) => Err(err),
    }
}

proof fn lemma_specifier_parts(name: Seq<char>, version: Seq<char>)
    requires
        count(version, '@') == 0,
    ensures
        last_index(name + seq!['@'] + version, '@') == name.len(),
        count(name + seq!['@'] + version, '@') == count(name, '@') + 1,
    decreases version.len(),
{
    let s = name + seq!['@'] + version;
    if version.len() == 0 {
        assert(s.drop_last() =~= name);
    } else {
        assert(s.drop_last() =~= name + seq!['@'] + version.drop_last());
        lemma_specifier_parts(name, version.drop_last());
    }
}

/// A name and a version that are joined by `@` come apart again: neither may hold
/// white space, the version no `@`, and the name one at most.
pub proof fn law_specifier_comes_apart(name: Seq<char>, version: Seq<char>)
    requires
        !has_white_space(name),
        !has_white_space(version),
        count(version, '@') == 0,
        count(name, '@') <= 1,
    ensures
        name_and_version(name + seq!['@'] + version) == Some((name, version)),
{
    let s = name + seq!['@'] + version;
    lemma_specifier_parts(name, version);
    assert(s.take(name.len() as int) =~= name);
    assert(s.skip(name.len() as int + 1) =~= version);
    if has_white_space(s) {
        let i = choose|i: int| 0 <= i < s.len() && text::white_space(#[trigger] s[i]);
        if i < name.len() {
            assert(text::white_space(name[i]));
        } else if i > name.len() {
            assert(text::white_space(version[i - name.len() - 1]));
        }
    }
}

/// How many of a character there are is how many places it stands at.
proof fn lemma_count(s: Seq<char>, c: char)
    ensures
        count(s, c) > 0 <==> exists|i: int| 0 <= i < s.len() && #[trigger] s[i] == c,
        count(s, c) > 1 <==> exists|i: int, j: int|
            0 <= i < j < s.len() && #[trigger] s[i] == c && #[trigger] s[j] == c,
        count(s, c) > 2 <==> exists|i: int, j: int, k: int|
            0 <= i < j < k < s.len() && #[trigger] s[i] == c && #[trigger] s[j] == c
                && #[trigger] s[k] == c,
    decreases s.len(),
{
    if s.len() > 0 {
        let init = s.drop_last();
        let last = s.len() - 1;
        lemma_count(init, c);
        assert forall|i: int| 0 <= i < last implies #[trigger] init[i] == s[i] by {}
        if count(init, c) > 0 {
            let i = choose|i: int| 0 <= i < init.len() && #[trigger] init[i] == c;
            assert(s[i] == c);
        }
        if count(init, c) > 1 {
            let (i, j) = choose|i: int, j: int|
                0 <= i < j < init.len() && #[trigger] init[i] == c && #[trigger] init[j] == c;
            assert(s[i] == c && s[j] == c);
        }
        if count(init, c) > 2 {
            let (i, j, k) = choose|i: int, j: int, k: int|
                0 <= i < j < k < init.len() && #[trigger] init[i] == c && #[trigger] init[j] == c
                    && #[trigger] init[k] == c;
            assert(s[i] == c && s[j] == c && s[k] == c);
        }
        if exists|i: int| 0 <= i < s.len() && #[trigger] s[i] == c {
            let i = choose|i: int| 0 <= i < s.len() && #[trigger] s[i] == c;
            if i < last {
                assert(init[i] == c);
            }
        }
        if exists|i: int, j: int|
            0 <= i < j < s.len() && #[trigger] s[i] == c && #[trigger] s[j] == c {
            let (i, j) = choose|i: int, j: int|
                0 <= i < j < s.len() && #[trigger] s[i] == c && #[trigger] s[j] == c;
            assert(init[i] == c);
            if j < last {
                assert(init[j] == c);
            }
        }
        if exists|i: int, j: int, k: int|
            0 <= i < j < k < s.len() && #[trigger] s[i] == c && #[trigger] s[j] == c
                && #[trigger] s[k] == c {
            let (i, j, k) = choose|i: int, j: int, k: int|
                0 <= i < j < k < s.len() && #[trigger] s[i] == c && #[trigger] s[j] == c
                    && #[trigger] s[k] == c;
            assert(init[i] == c && init[j] == c);
            if k < last {
                assert(init[k] == c);
            }
        }
    }
}

proof fn lemma_last_index(s: Seq<char>, c: char)
    ensures
        -1 <= last_index(s, c) < s.len(),
        last_index(s, c) >= 0 ==> s[last_index(s, c)] == c,
        forall|i: int| last_index(s, c) < i < s.len() ==> #[trigger] s[i] != c,
    decreases s.len(),
{
    if s.len() > 0 && s.last() != c {
        lemma_last_index(s.drop_last(), c);
        assert forall|i: int| last_index(s, c) < i < s.len() implies #[trigger] s[i] != c by {
            if i < s.len() - 1 {
                assert(s.drop_last()[i] != c);
            }
        }
    }
}

/// A specifier with white space in it, or with more than two `@`, is none. What stands
/// behind the last `@` of any other is the version, and what stands before it is the name;
/// without an `@` all of it is the version.
pub proof fn law_specifier_is_cut_at_its_last_at(s: Seq<char>)
    ensures
        (exists|i: int| 0 <= i < s.len() && text::white_space(#[trigger] s[i]))
            ==> name_and_version(s) is None,
        (exists|i: int, j: int, k: int|
            0 <= i < j < k < s.len() && #[trigger] s[i] == '@' && #[trigger] s[j] == '@'
                && #[trigger] s[k] == '@') ==> name_and_version(s) is None,
        (forall|i: int| 0 <= i < s.len() ==> !text::white_space(#[trigger] s[i])) && (forall|
            i: int,
            j: int,
            k: int,
        |
            0 <= i < j < k < s.len() ==> !(#[trigger] s[i] == '@' && #[trigger] s[j] == '@'
                && #[trigger] s[k] == '@')) ==> name_and_version(s) is Some && (
        match name_and_version(s) {
            Some((name, version)) => if name.len() < s.len() {
                s == name + seq!['@'] + version && !version.contains('@') || !s.contains('@')
                    && name.len() == 0 && version == s
            } else {
                s.len() == 0 && version.len() == 0
            },
            None => false,
        }),
{
    lemma_count(s, '@');
    lemma_last_index(s, '@');
    let at = last_index(s, '@');
    if at >= 0 {
        assert(s =~= s.take(at) + seq!['@'] + s.skip(at + 1));
        let version = s.skip(at + 1);
        assert forall|i: int| 0 <= i < version.len() implies #[trigger] version[i] != '@' by {
            assert(s[at + 1 + i] != '@');
        }
    }
}

/// What is found in a table is the entry of the name, and nothing where it has none.
pub proof fn law_found_dependency_is_the_entry(
    deps: Map<Seq<char>, ModuleDependencyView>,
    name: Seq<char>,
    dep: ModuleDependencyView,
)
    ensures
        find(deps.insert(name, dep), name) == Some(dep),
        find(deps.remove(name), name) is None,
        find(deps, name) == Some(dep) <==> deps.contains_key(name) && deps[name] == dep,
{
}

/// A file that was served stays as it is; of every other file of the package the size is
/// served, and there are no files besides.
pub proof fn law_other_files_are_served_by_size(
    files: Map<Seq<char>, FileView>,
    sizes: Map<Seq<char>, u64>,
    path: Seq<char>,
)
    ensures
        with_ignored(files, sizes).contains_key(path) <==> files.contains_key(path)
            || sizes.contains_key(path),
        files.contains_key(path) ==> with_ignored(files, sizes)[path] == files[path],
        !files.contains_key(path) && sizes.contains_key(path) ==> with_ignored(files, sizes)[path]
            == FileView::Ignored(sizes[path]),
{
}

} // verus!
