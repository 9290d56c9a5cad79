//! The dependency tree of a set of packages.
//!
//! A request names a package and a range. It is resolved to the highest version
//! that the range admits, and the dependencies that this version uses are
//! requested in turn. The collector says which requests are worth following.

use vstd::prelude::*;

use crate::app_error::ServerError;
use crate::document::ManifestView;
use crate::document::MinimalPackageData;
use crate::json;
use crate::npm_specifier;
use crate::process::ModuleDependency;
use crate::semver;
use crate::semver::Version;
use crate::semver::VersionText;
use crate::semver::VersionView;
use crate::str_map;
use crate::str_map::StrMap;
use crate::text;

verus! {

/// What a request asks for: a range of versions, or the name of a tag.
#[derive(Debug, Clone)]
pub enum VersionRange {
    Range(String),
    Alias(String),
}

#[derive(Debug)]
pub struct DependencyRequest {
    name: String,
    version_range: VersionRange,
    /// The range or tag as it was written.
    range_str: String,
    depth: u32,
}

/// What a [`DependencyRequest`] says.
#[verifier::ext_equal]
pub struct RequestView {
    pub name: Seq<char>,
    pub range: Seq<char>,
    pub depth: u32,
}

impl View for DependencyRequest {
    type V = RequestView;

    closed spec fn view(&self) -> RequestView {
        RequestView { name: self.name@, range: self.range_str@, depth: self.depth }
    }
}

/// True of the versions that a range admits, among those that are published.
pub open spec fn candidate(manifest: ManifestView, range: Seq<char>, key: Seq<char>) -> bool {
    &&& manifest.publishes(key)
    &&& semver::parsed_version(key) is Ok
    &&& semver::range_admits(range, semver::parsed_version(key)->Ok_0)
}

/// A version text ranks below another.
pub open spec fn text_below(a: Seq<char>, b: Seq<char>) -> bool {
    semver::ranks_below(
        semver::parsed_version(a)->Ok_0,
        a,
        semver::parsed_version(b)->Ok_0,
        b,
    )
}

proof fn lemma_text_below_order(a: Seq<char>, b: Seq<char>)
    ensures
        text_below(a, b) ==> !text_below(b, a),
        a == b || text_below(a, b) || text_below(b, a),
{
    let x = semver::parsed_version(a)->Ok_0;
    let y = semver::parsed_version(b)->Ok_0;
    semver::lemma_ranks_below_order(x, a, y, b, y, b);
}

/// True of the highest version that a range admits.
pub open spec fn highest(manifest: ManifestView, range: Seq<char>, key: Seq<char>) -> bool {
    &&& candidate(manifest, range, key)
    &&& forall|other: Seq<char>| #[trigger]
        candidate(manifest, range, other) ==> other == key || text_below(other, key)
}

/// The version that a range or tag stands for in a manifest: a range stands for
/// the highest version that it admits, anything else is the name of a tag.
pub open spec fn resolves_to(
    manifest: ManifestView,
    range: Seq<char>,
    version: Option<Seq<char>>,
) -> bool {
    if semver::range_parses(range) {
        match version {
            Some(v) => exists|key: Seq<char>| #[trigger]
                highest(manifest, range, key) && v == semver::version_text(
                    semver::parsed_version(key)->Ok_0,
                ),
            None => forall|key: Seq<char>| !candidate(manifest, range, key),
        }
    } else {
        version == manifest.tagged(range)
    }
}

impl DependencyRequest {
    /// The range is one that can be read, and whether it is a range is known.
    #[verifier::type_invariant]
    spec fn well_formed(self) -> bool {
        &&& semver::readable_range(self.range_str@)
        &&& match self.version_range {
            VersionRange::Range(range) => range@ == self.range_str@ && semver::range_parses(
                self.range_str@,
            ),
            VersionRange::Alias(alias) => alias@ == self.range_str@ && !semver::range_parses(
                self.range_str@,
            ),
        }
    }

    pub fn new(name: &str, version_range_str: &str, depth: u32) -> (r: Result<Self, ServerError>)
        requires
            semver::readable_range(version_range_str@),
        ensures
            r is Ok,
            r->Ok_0@ == (RequestView { name: name@, range: version_range_str@, depth }),
    {
        let version_range: VersionRange = if semver::is_range(version_range_str) {
            VersionRange::Range(version_range_str.to_string())
        } else {
            VersionRange::Alias(version_range_str.to_string())
        };
        Ok(
            DependencyRequest {
                name: name.to_string(),
                version_range,
                range_str: version_range_str.to_string(),
                depth,
            },
        )
    }

    /// The name of the package.
    pub fn name(&self) -> (name: &String)
        ensures
            name@ == self@.name,
    {
        &self.name
    }

    pub fn depth(&self) -> (depth: u32)
        ensures
            depth == self@.depth,
    {
        self.depth
    }

    /// The version that the request stands for in `manifest`. Version keys that
    /// are no versions are passed over.
    pub fn resolve_version(&self, manifest: &MinimalPackageData) -> (r: Option<String>)
        ensures
            resolves_to(manifest@, self@.range, text::opt_view(r)),
            semver::range_parses(self@.range) && r is None ==> forall|i: int|
                0 <= i < manifest@.versions.len() && semver::parsed_version(
                    (#[trigger] manifest@.versions[i]).0,
                ) is Ok ==> !semver::range_admits(
                    self@.range,
                    semver::parsed_version(manifest@.versions[i].0)->Ok_0,
                ),
            semver::range_parses(self@.range) && r is Some ==> exists|b: int|
                0 <= b < manifest@.versions.len() && semver::parsed_version(
                    (#[trigger] manifest@.versions[b]).0,
                ) is Ok && semver::range_admits(
                    self@.range,
                    semver::parsed_version(manifest@.versions[b].0)->Ok_0,
                ) && r->0@ == semver::version_text(
                    semver::parsed_version(manifest@.versions[b].0)->Ok_0,
                ) && forall|i: int|
                    0 <= i < manifest@.versions.len() && semver::parsed_version(
                        (#[trigger] manifest@.versions[i]).0,
                    ) is Ok && semver::range_admits(
                        self@.range,
                        semver::parsed_version(manifest@.versions[i].0)->Ok_0,
                    ) ==> !semver::precedes(
                        semver::parsed_version(manifest@.versions[b].0)->Ok_0,
                        semver::parsed_version(manifest@.versions[i].0)->Ok_0,
                    ),
            !semver::range_parses(self@.range) ==> (match r {
                Some(version) => exists|i: int|
                    0 <= i < manifest@.dist_tags.len() && #[trigger] manifest@.dist_tags[i] == (
                        self@.range,
                        version@,
                    ),
                None => forall|i: int|
                    0 <= i < manifest@.dist_tags.len() ==> (#[trigger] manifest@.dist_tags[i]).0
                        != self@.range,
            }),
    {
        proof {
            use_type_invariant(self);
            assert forall|version: Option<Seq<char>>| #[trigger]
                resolves_to(manifest@, self@.range, version) && semver::range_parses(
                    self@.range,
                ) && version is Some implies exists|b: int|
                0 <= b < manifest@.versions.len() && semver::parsed_version(
                    (#[trigger] manifest@.versions[b]).0,
                ) is Ok && semver::range_admits(
                    self@.range,
                    semver::parsed_version(manifest@.versions[b].0)->Ok_0,
                ) && version->0 == semver::version_text(
                    semver::parsed_version(manifest@.versions[b].0)->Ok_0,
                ) && forall|i: int|
                    0 <= i < manifest@.versions.len() && semver::parsed_version(
                        (#[trigger] manifest@.versions[i]).0,
                    ) is Ok && semver::range_admits(
                        self@.range,
                        semver::parsed_version(manifest@.versions[i].0)->Ok_0,
                    ) ==> !semver::precedes(
                        semver::parsed_version(manifest@.versions[b].0)->Ok_0,
                        semver::parsed_version(manifest@.versions[i].0)->Ok_0,
                    ) by {
                law_resolved_version_is_the_highest(manifest@, self@.range, version);
            }
            assert forall|version: Option<Seq<char>>| #[trigger]
                resolves_to(manifest@, self@.range, version) && semver::range_parses(
                    self@.range,
                ) && version is None implies forall|i: int|
                0 <= i < manifest@.versions.len() && semver::parsed_version(
                    (#[trigger] manifest@.versions[i]).0,
                ) is Ok ==> !semver::range_admits(
                    self@.range,
                    semver::parsed_version(manifest@.versions[i].0)->Ok_0,
                ) by {
                law_resolved_version_is_the_highest(manifest@, self@.range, version);
            }
            use_type_invariant(&manifest.dist_tags);
            assert forall|i: int, j: int|
                0 <= i < j < manifest@.dist_tags.len() implies (#[trigger] manifest@.dist_tags[i]).0
                != (#[trigger] manifest@.dist_tags[j]).0 by {
                assert(manifest.dist_tags.entries()[i].0 != manifest.dist_tags.entries()[j].0);
            }
            manifest@.law_tag_names_its_version(self@.range);
        }
        match &self.version_range {
            VersionRange::Alias(alias) => str_map::find_text(&manifest.dist_tags, alias.as_str()),
            VersionRange::Range(range) => match highest_admitted(manifest, range.as_str()) {
                Some(version) => Some(semver::version_to_string(&version)),
                None => None,
            },
        }
    }
}

impl Clone for DependencyRequest {
    fn clone(&self) -> (r: Self)
        ensures
            r@ == self@,
    {
        proof {
            use_type_invariant(self);
        }
        let version_range: VersionRange = match &self.version_range {
            VersionRange::Range(range) => VersionRange::Range(range.clone()),
            VersionRange::Alias(alias) => VersionRange::Alias(alias.clone()),
        };
        DependencyRequest {
            name: self.name.clone(),
            version_range,
            range_str: self.range_str.clone(),
            depth: self.depth,
        }
    }
}

/// The published versions that `range` admits.
fn admitted_versions(manifest: &MinimalPackageData, range: &str) -> (r: Vec<VersionText>)
    requires
        semver::readable_range(range@),
        semver::range_parses(range@),
    ensures
        forall|i: int|
            0 <= i < r@.len() ==> candidate(manifest@, range@, (#[trigger] r@[i]).text@)
                && semver::parsed_version(r@[i].text@) == Ok::<VersionView, Seq<char>>(
                r@[i].version@,
            ),
        forall|key: Seq<char>| #[trigger]
            candidate(manifest@, range@, key) ==> exists|i: int|
                0 <= i < r@.len() && (#[trigger] r@[i]).text@ == key,
{
    let ghost entries = manifest@.versions;
    let mut admitted: Vec<VersionText> = Vec::new();
    let mut i: usize = 0;
    while i < manifest.versions.len()
        invariant
            semver::readable_range(range@),
            semver::range_parses(range@),
            entries == manifest@.versions,
            i <= entries.len(),
            forall|k: int|
                0 <= k < admitted@.len() ==> candidate(
                    manifest@,
                    range@,
                    (#[trigger] admitted@[k]).text@,
                ) && semver::parsed_version(admitted@[k].text@) == Ok::<VersionView, Seq<char>>(
                    admitted@[k].version@,
                ),
            forall|j: int|
                0 <= j < i && candidate(manifest@, range@, (#[trigger] entries[j]).0) ==> exists|
                    k: int,
                |
                    0 <= k < admitted@.len() && (#[trigger] admitted@[k]).text@ == entries[j].0,
        decreases entries.len() - i,
    {
        let key: &String = manifest.versions.key_at(i);
        let ghost before = admitted@;
        assert(entries[i as int].0 == key@);
        if let Ok(version) = semver::parse_version(key.as_str()) {
            if semver::satisfies(range, key.as_str()) {
                admitted.push(VersionText { text: key.clone(), version });
                assert(admitted@[before.len() as int].text@ == key@);
                assert forall|k: int| 0 <= k < before.len() implies admitted@[k]
                    == #[trigger] before[k] by {}
            }
        }
        assert forall|j: int|
            0 <= j <= i && candidate(manifest@, range@, (#[trigger] entries[j]).0) implies exists|
            k: int,
        |
            0 <= k < admitted@.len() && (#[trigger] admitted@[k]).text@ == entries[j].0 by {
            if j < i {
                let k = choose|k: int|
                    0 <= k < before.len() && (#[trigger] before[k]).text@ == entries[j].0;
                assert(admitted@[k] == before[k]);
            }
        }
        i += 1;
    }
    admitted
}

/// The highest version that `range` admits.
fn highest_admitted(manifest: &MinimalPackageData, range: &str) -> (r: Option<Version>)
    requires
        semver::readable_range(range@),
        semver::range_parses(range@),
    ensures
        (match r {
            Some(version) => exists|key: Seq<char>| #[trigger]
                highest(manifest@, range@, key) && semver::parsed_version(key) == Ok::<
                    VersionView,
                    Seq<char>,
                >(version@),
            None => forall|key: Seq<char>| !candidate(manifest@, range@, key),
        }),
{
    let mut admitted: Vec<VersionText> = admitted_versions(manifest, range);
    match semver::highest_version(&admitted) {
        Some(i) => {
            proof {
                let key = admitted@[i as int].text@;
                assert forall|other: Seq<char>| #[trigger]
                    candidate(manifest@, range@, other) implies other == key || text_below(
                    other,
                    key,
                ) by {
                    let j = choose|j: int|
                        0 <= j < admitted@.len() && (#[trigger] admitted@[j]).text@ == other;
                    assert(!semver::is_below(admitted@[i as int], admitted@[j]));
                    lemma_text_below_order(key, other);
                }
                assert(highest(manifest@, range@, key));
            }
            let best: VersionText = admitted.swap_remove(i);
            Some(best.version)
        },
        None => None,
    }
}

/// A manifest and a range leave no choice: two answers are the same answer.
pub proof fn law_resolution_is_unique(
    manifest: ManifestView,
    range: Seq<char>,
    a: Option<Seq<char>>,
    b: Option<Seq<char>>,
)
    requires
        resolves_to(manifest, range, a),
        resolves_to(manifest, range, b),
    ensures
        a == b,
{
    if semver::range_parses(range) {
        if a is Some {
            let x = choose|key: Seq<char>| #[trigger]
                highest(manifest, range, key) && a->0 == semver::version_text(
                    semver::parsed_version(key)->Ok_0,
                );
            assert(candidate(manifest, range, x));
            if b is Some {
                let y = choose|key: Seq<char>| #[trigger]
                    highest(manifest, range, key) && b->0 == semver::version_text(
                        semver::parsed_version(key)->Ok_0,
                    );
                lemma_text_below_order(x, y);
            }
        } else if b is Some {
            let y = choose|key: Seq<char>| #[trigger]
                highest(manifest, range, key) && b->0 == semver::version_text(
                    semver::parsed_version(key)->Ok_0,
                );
            assert(candidate(manifest, range, y));
        }
    }
}

/// What a range resolves to is the text of a published version that it admits, and no
/// published version that it admits has precedence over that one. It resolves to nothing
/// only if it admits none of the published versions.
pub proof fn law_resolved_version_is_the_highest(
    manifest: ManifestView,
    range: Seq<char>,
    version: Option<Seq<char>>,
)
    requires
        semver::range_parses(range),
        resolves_to(manifest, range, version),
    ensures
        version is None <==> forall|i: int|
            0 <= i < manifest.versions.len() && semver::parsed_version(
                (#[trigger] manifest.versions[i]).0,
            ) is Ok ==> !semver::range_admits(
                range,
                semver::parsed_version(manifest.versions[i].0)->Ok_0,
            ),
        version is Some ==> exists|b: int|
            0 <= b < manifest.versions.len() && semver::parsed_version(
                (#[trigger] manifest.versions[b]).0,
            ) is Ok && semver::range_admits(
                range,
                semver::parsed_version(manifest.versions[b].0)->Ok_0,
            ) && version->0 == semver::version_text(
                semver::parsed_version(manifest.versions[b].0)->Ok_0,
            ) && forall|i: int|
                0 <= i < manifest.versions.len() && semver::parsed_version(
                    (#[trigger] manifest.versions[i]).0,
                ) is Ok && semver::range_admits(
                    range,
                    semver::parsed_version(manifest.versions[i].0)->Ok_0,
                ) ==> !semver::precedes(
                    semver::parsed_version(manifest.versions[b].0)->Ok_0,
                    semver::parsed_version(manifest.versions[i].0)->Ok_0,
                ),
{
    assert forall|i: int|
        0 <= i < manifest.versions.len() && semver::parsed_version(
            (#[trigger] manifest.versions[i]).0,
        ) is Ok && semver::range_admits(
            range,
            semver::parsed_version(manifest.versions[i].0)->Ok_0,
        ) implies candidate(manifest, range, manifest.versions[i].0) by {
        assert(manifest.publishes(manifest.versions[i].0));
    }
    if version is Some {
        let best = choose|best: Seq<char>| #[trigger]
            highest(manifest, range, best) && version->0 == semver::version_text(
                semver::parsed_version(best)->Ok_0,
            );
        let b = choose|b: int|
            0 <= b < manifest.versions.len() && (#[trigger] manifest.versions[b]).0 == best;
        assert(semver::range_admits(
            range,
            semver::parsed_version(manifest.versions[b].0)->Ok_0,
        ));
        assert forall|i: int|
            0 <= i < manifest.versions.len() && semver::parsed_version(
                (#[trigger] manifest.versions[i]).0,
            ) is Ok && semver::range_admits(
                range,
                semver::parsed_version(manifest.versions[i].0)->Ok_0,
            ) implies !semver::precedes(
            semver::parsed_version(manifest.versions[b].0)->Ok_0,
            semver::parsed_version(manifest.versions[i].0)->Ok_0,
        ) by {
            let key = manifest.versions[i].0;
            assert(candidate(manifest, range, key));
            lemma_text_below_order(key, best);
            semver::lemma_precedes_order(
                semver::parsed_version(best)->Ok_0,
                semver::parsed_version(key)->Ok_0,
                semver::parsed_version(key)->Ok_0,
            );
        }
    }
}

/// A range resolves whenever it admits one of the published versions, and no
/// version that it admits is above the one that it resolves to.
pub proof fn law_range_resolves_to_maximum(
    manifest: ManifestView,
    range: Seq<char>,
    version: Option<Seq<char>>,
    key: Seq<char>,
)
    requires
        semver::range_parses(range),
        resolves_to(manifest, range, version),
        candidate(manifest, range, key),
    ensures
        exists|best: Seq<char>| #[trigger]
            candidate(manifest, range, best) && version == Some(
                semver::version_text(semver::parsed_version(best)->Ok_0),
            ) && !semver::precedes(
                semver::parsed_version(best)->Ok_0,
                semver::parsed_version(key)->Ok_0,
            ),
{
    let best = choose|best: Seq<char>| #[trigger]
        highest(manifest, range, best) && version->0 == semver::version_text(
            semver::parsed_version(best)->Ok_0,
        );
    lemma_text_below_order(key, best);
    semver::lemma_precedes_order(
        semver::parsed_version(best)->Ok_0,
        semver::parsed_version(key)->Ok_0,
        semver::parsed_version(key)->Ok_0,
    );
}

/// Nothing but the versions that a range admits bears on what it resolves to:
/// neither their order, nor keys that are no versions, nor tags.
pub proof fn law_only_candidates_matter(
    a: ManifestView,
    b: ManifestView,
    range: Seq<char>,
    version: Option<Seq<char>>,
)
    requires
        semver::range_parses(range),
        forall|key: Seq<char>| candidate(a, range, key) <==> candidate(b, range, key),
    ensures
        resolves_to(a, range, version) <==> resolves_to(b, range, version),
{
    assert forall|key: Seq<char>| highest(a, range, key) <==> highest(b, range, key) by {
        assert forall|other: Seq<char>| candidate(a, range, other) <==> candidate(
            b,
            range,
            other,
        ) by {}
    }
}

/// A package in the tree.
#[derive(Debug)]
pub struct Dependency {
    pub name: String,
    pub version: String,
    pub depth: u32,
}

/// What a [`Dependency`] says.
#[verifier::ext_equal]
pub struct DependencyView {
    pub name: Seq<char>,
    pub version: Seq<char>,
    pub depth: u32,
}

impl View for Dependency {
    type V = DependencyView;

    open spec fn view(&self) -> DependencyView {
        DependencyView { name: self.name@, version: self.version@, depth: self.depth }
    }
}

impl Dependency {
    pub fn new(name: String, version: String, depth: u32) -> (r: Self)
        ensures
            r@ == (DependencyView { name: name@, version: version@, depth }),
    {
        Dependency { name, version, depth }
    }
}

impl Clone for Dependency {
    fn clone(&self) -> (r: Self)
        ensures
            r@ == self@,
    {
        Dependency { name: self.name.clone(), version: self.version.clone(), depth: self.depth }
    }
}

pub type DependencyList = Vec<Dependency>;

pub open spec fn request_views(requests: Seq<DependencyRequest>) -> Seq<RequestView> {
    requests.map_values(|r: DependencyRequest| r@)
}

pub open spec fn dependency_views(dependencies: Seq<Dependency>) -> Seq<DependencyView> {
    dependencies.map_values(|d: Dependency| d@)
}

/// Reads the dependencies that a request lists: a JSON object of ranges.
pub fn parse_dep_map(decoded: &str) -> (r: Result<StrMap<String>, ServerError>)
    ensures
        (match json::string_table(decoded@) {
            Ok(table) => r is Ok && str_map::map_of(str_map::pairs(r->Ok_0)) == table,
            Err(message) => r matches Err(ServerError::JSONParseError(m)) && m@ == message,
        }),
{
    match json::parse_string_table(decoded) {
        Ok(table) => Ok(table),
        Err(message) => Err(ServerError::JSONParseError(message)),
    }
}

/// True when each range of a table can be read.
pub open spec fn readable_ranges(table: Seq<(Seq<char>, Seq<char>)>) -> bool {
    forall|i: int| 0 <= i < table.len() ==> semver::readable_range((#[trigger] table[i]).1)
}

/// True when each range of a table can be read.
pub fn has_readable_ranges(dep_map: &StrMap<String>) -> (r: bool)
    ensures
        r == readable_ranges(str_map::pairs(*dep_map)),
{
    let ghost table = str_map::pairs(*dep_map);
    let mut i: usize = 0;
    while i < dep_map.len()
        invariant
            table == str_map::pairs(*dep_map),
            i <= table.len(),
            forall|j: int| 0 <= j < i ==> semver::readable_range((#[trigger] table[j]).1),
        decreases table.len() - i,
    {
        assert(table[i as int].1 == dep_map.entries()[i as int].1@);
        if !semver::is_readable_range(dep_map.value_at(i).as_str()) {
            return false;
        }
        i += 1;
    }
    true
}

/// One request for each entry of a table of ranges.
pub fn process_dep_map(dep_map: StrMap<String>, depth: u32) -> (r: Result<
    Vec<DependencyRequest>,
    ServerError,
>)
    requires
        readable_ranges(str_map::pairs(dep_map)),
    ensures
        r is Ok,
        request_views(r->Ok_0@) == str_map::pairs(dep_map).map_values(
            |e: (Seq<char>, Seq<char>)| RequestView { name: e.0, range: e.1, depth },
        ),
{
    let ghost table = str_map::pairs(dep_map);
    let ghost all = table.map_values(
        |e: (Seq<char>, Seq<char>)| RequestView { name: e.0, range: e.1, depth },
    );
    let mut deps: Vec<DependencyRequest> = Vec::new();
    let mut i: usize = 0;
    while i < dep_map.len()
        invariant
            readable_ranges(table),
            table == str_map::pairs(dep_map),
            all == table.map_values(
                |e: (Seq<char>, Seq<char>)| RequestView { name: e.0, range: e.1, depth },
            ),
            i <= table.len(),
            request_views(deps@) == all.take(i as int),
        decreases table.len() - i,
    {
        let ghost before = request_views(deps@);
        let range: &str = dep_map.value_at(i).as_str();
        assert(table[i as int].1 == range@);
        let request = DependencyRequest::new(dep_map.key_at(i).as_str(), range, depth);
        if let Ok(request) = request {
            deps.push(request);
            proof {
                assert(request_views(deps@) =~= before.push(request@));
                assert(all.take(i + 1) =~= all.take(i as int).push(all[i as int]));
            }
        }
        i += 1;
    }
    assert(all.take(i as int) =~= all);
    Ok(deps)
}

/// The version of a requested package.
pub fn resolve_dep(req: &DependencyRequest, manifest: &MinimalPackageData) -> (r: Result<
    Dependency,
    ServerError,
>)
    ensures
        (match r {
            Ok(dep) => dep.name@ == req@.name && dep.depth == req@.depth && resolves_to(
                manifest@,
                req@.range,
                Some(dep.version@),
            ),
            Err(err) => resolves_to(manifest@, req@.range, None)
                && (err matches ServerError::PackageVersionNotFound(name, range) && name@
                == req@.name && range@ == req@.range),
        }),
{
    match req.resolve_version(manifest) {
        Some(version) => Ok(Dependency::new(req.name.clone(), version, req.depth)),
        None => Err(
            ServerError::PackageVersionNotFound(req.name.clone(), req.range_str.clone()),
        ),
    }
}

/// The requests for those dependencies of a package that it uses.
pub open spec fn used_requests(
    dependencies: Seq<(Seq<char>, ModuleDependency)>,
    depth: u32,
) -> Seq<RequestView>
    decreases dependencies.len(),
{
    if dependencies.len() == 0 {
        Seq::empty()
    } else {
        let rest = used_requests(dependencies.drop_last(), depth);
        let (name, dep) = dependencies.last();
        if dep.is_used {
            rest.push(RequestView { name, range: dep.version@, depth })
        } else {
            rest
        }
    }
}

/// True when each range that a package uses can be read.
pub open spec fn readable_used_ranges(dependencies: Seq<(Seq<char>, ModuleDependency)>) -> bool {
    forall|i: int|
        0 <= i < dependencies.len() && (#[trigger] dependencies[i]).1.is_used
            ==> semver::readable_range(dependencies[i].1.version@)
}

/// True when each range that a package uses can be read.
pub fn has_readable_used_ranges(dependencies: &StrMap<ModuleDependency>) -> (r: bool)
    ensures
        r == readable_used_ranges(dependencies.entries()),
{
    let ghost all = dependencies.entries();
    let mut i: usize = 0;
    while i < dependencies.len()
        invariant
            all == dependencies.entries(),
            i <= all.len(),
            forall|j: int|
                0 <= j < i && (#[trigger] all[j]).1.is_used ==> semver::readable_range(
                    all[j].1.version@,
                ),
        decreases all.len() - i,
    {
        let meta: &ModuleDependency = dependencies.value_at(i);
        if meta.is_used && !semver::is_readable_range(meta.version.as_str()) {
            assert(all[i as int].1.is_used);
            return false;
        }
        i += 1;
    }
    true
}

/// What a package in the tree asks for in turn, one level further down.
pub fn transient_requests(dep: &Dependency, dependencies: &StrMap<ModuleDependency>) -> (r: Vec<
    DependencyRequest,
>)
    requires
        dep.depth < u32::MAX,
        readable_used_ranges(dependencies.entries()),
    ensures
        request_views(r@) == used_requests(dependencies.entries(), (dep.depth + 1) as u32),
        forall|i: int|
            0 <= i < dependencies.entries().len() && (#[trigger] dependencies.entries()[i]).1.is_used
                ==> exists|k: int|
                0 <= k < r@.len() && (#[trigger] r@[k])@.name == dependencies.entries()[i].0
                    && r@[k]@.range == dependencies.entries()[i].1.version@,
        forall|k: int|
            0 <= k < r@.len() ==> #[trigger] r@[k]@.depth == dep.depth + 1 && exists|i: int|
                0 <= i < dependencies.entries().len() && (
                #[trigger] dependencies.entries()[i]).1.is_used && r@[k]@.name
                    == dependencies.entries()[i].0 && r@[k]@.range
                    == dependencies.entries()[i].1.version@,
        forall|k: int, l: int|
            0 <= k < l < r@.len() ==> (#[trigger] r@[k])@.name != (#[trigger] r@[l])@.name,
{
    let ghost all = dependencies.entries();
    let depth: u32 = dep.depth + 1;
    let mut requests: Vec<DependencyRequest> = Vec::new();
    let mut i: usize = 0;
    assert(request_views(requests@) =~= used_requests(all.take(0), depth));
    while i < dependencies.len()
        invariant
            all == dependencies.entries(),
            readable_used_ranges(all),
            i <= all.len(),
            request_views(requests@) == used_requests(all.take(i as int), depth),
        decreases all.len() - i,
    {
        let ghost before = request_views(requests@);
        assert(all.take(i + 1).drop_last() =~= all.take(i as int));
        let meta: &ModuleDependency = dependencies.value_at(i);
        if meta.is_used {
            let request = DependencyRequest::new(
                dependencies.key_at(i).as_str(),
                meta.version.as_str(),
                depth,
            );
            if let Ok(request) = request {
                requests.push(request);
                assert(request_views(requests@) =~= before.push(request@));
            }
        }
        i += 1;
    }
    assert(all.take(i as int) =~= all);
    proof {
        use_type_invariant(dependencies);
        lemma_requests_of_used(requests@, all, depth);
    }
    requests
}

/// What the requests say that stand for used dependencies.
proof fn lemma_requests_of_used(
    requests: Seq<DependencyRequest>,
    all: Seq<(Seq<char>, ModuleDependency)>,
    depth: u32,
)
    requires
        str_map::distinct_keys(all),
        request_views(requests) == used_requests(all, depth),
    ensures
        forall|i: int|
            0 <= i < all.len() && (#[trigger] all[i]).1.is_used ==> exists|k: int|
                0 <= k < requests.len() && (#[trigger] requests[k])@.name == all[i].0
                    && requests[k]@.range == all[i].1.version@,
        forall|k: int|
            0 <= k < requests.len() ==> #[trigger] requests[k]@.depth == depth && exists|i: int|
                0 <= i < all.len() && (#[trigger] all[i]).1.is_used && requests[k]@.name
                    == all[i].0 && requests[k]@.range == all[i].1.version@,
        forall|k: int, l: int|
            0 <= k < l < requests.len() ==> (#[trigger] requests[k])@.name != (
            #[trigger] requests[l])@.name,
{
    law_used_dependencies_are_asked_for(all, depth);
    let views = request_views(requests);
    assert(views == used_requests(all, depth));
    assert forall|i: int| 0 <= i < all.len() && (#[trigger] all[i]).1.is_used implies exists|k: int|
        0 <= k < requests.len() && (#[trigger] requests[k])@.name == all[i].0 && requests[k]@.range
            == all[i].1.version@ by {
        let k = choose|k: int|
            0 <= k < views.len() && (#[trigger] views[k]).name == all[i].0 && views[k].range
                == all[i].1.version@;
        assert(requests[k]@ == views[k]);
    }
    assert forall|k: int| 0 <= k < requests.len() implies #[trigger] requests[k]@.depth == depth
        && exists|i: int|
        0 <= i < all.len() && (#[trigger] all[i]).1.is_used && requests[k]@.name == all[i].0
            && requests[k]@.range == all[i].1.version@ by {
        assert(requests[k]@ == views[k]);
        assert(views[k].depth == depth);
    }
    assert forall|k: int, l: int| 0 <= k < l < requests.len() implies (#[trigger] requests[k])@.name
        != (#[trigger] requests[l])@.name by {
        assert(requests[k]@ == views[k] && requests[l]@ == views[l]);
    }
}

/// Each dependency that a package uses is asked for at the range that it is declared with,
/// one level further down; nothing else is asked for, and no package twice.
pub proof fn law_used_dependencies_are_asked_for(
    dependencies: Seq<(Seq<char>, ModuleDependency)>,
    depth: u32,
)
    requires
        str_map::distinct_keys(dependencies),
    ensures
        forall|i: int|
            0 <= i < dependencies.len() && (#[trigger] dependencies[i]).1.is_used ==> exists|k: int|
                0 <= k < used_requests(dependencies, depth).len() && (
                #[trigger] used_requests(dependencies, depth)[k]).name == dependencies[i].0
                    && used_requests(dependencies, depth)[k].range == dependencies[i].1.version@,
        forall|k: int|
            0 <= k < used_requests(dependencies, depth).len() ==> #[trigger] used_requests(
                dependencies,
                depth,
            )[k].depth == depth && exists|i: int|
                0 <= i < dependencies.len() && (#[trigger] dependencies[i]).1.is_used
                    && used_requests(dependencies, depth)[k].name == dependencies[i].0
                    && used_requests(dependencies, depth)[k].range == dependencies[i].1.version@,
        forall|k: int, l: int|
            0 <= k < l < used_requests(dependencies, depth).len() ==> (
            #[trigger] used_requests(dependencies, depth)[k]).name != (
            #[trigger] used_requests(dependencies, depth)[l]).name,
    decreases dependencies.len(),
{
    if dependencies.len() > 0 {
        let init = dependencies.drop_last();
        let rest = used_requests(init, depth);
        let all = used_requests(dependencies, depth);
        let last = dependencies.len() - 1;
        assert(str_map::distinct_keys(init)) by {
            assert forall|i: int, j: int| 0 <= i < j < init.len() implies (#[trigger] init[i]).0 != (
            #[trigger] init[j]).0 by {
                assert(dependencies[i].0 != dependencies[j].0);
            }
        }
        law_used_dependencies_are_asked_for(init, depth);
        assert forall|i: int|
            0 <= i < dependencies.len() && (#[trigger] dependencies[i]).1.is_used implies exists|
            k: int,
        |
            0 <= k < all.len() && (#[trigger] all[k]).name == dependencies[i].0 && all[k].range
                == dependencies[i].1.version@ by {
            if i < last {
                assert(init[i] == dependencies[i]);
                let k = choose|k: int|
                    0 <= k < rest.len() && (#[trigger] rest[k]).name == init[i].0 && rest[k].range
                        == init[i].1.version@;
                assert(all[k] == rest[k]);
            } else {
                assert(all[rest.len() as int].name == dependencies[i].0);
            }
        }
        assert forall|k: int| 0 <= k < all.len() implies #[trigger] all[k].depth == depth
            && exists|i: int|
            0 <= i < dependencies.len() && (#[trigger] dependencies[i]).1.is_used && all[k].name
                == dependencies[i].0 && all[k].range == dependencies[i].1.version@ by {
            if k < rest.len() {
                assert(all[k] == rest[k]);
                assert(rest[k].depth == depth);
                let i = choose|i: int|
                    0 <= i < init.len() && (#[trigger] init[i]).1.is_used && rest[k].name
                        == init[i].0 && rest[k].range == init[i].1.version@;
                assert(dependencies[i] == init[i]);
            } else {
                assert(dependencies[last].1.is_used);
            }
        }
        assert forall|k: int, l: int| 0 <= k < l < all.len() implies (#[trigger] all[k]).name != (
        #[trigger] all[l]).name by {
            assert(all[k] == rest[k]);
            if l < rest.len() {
                assert(all[l] == rest[l]);
            } else {
                assert(rest[k].depth == depth);
                let i = choose|i: int|
                    0 <= i < init.len() && (#[trigger] init[i]).1.is_used && rest[k].name
                        == init[i].0 && rest[k].range == init[i].1.version@;
                assert(dependencies[i].0 != dependencies[last].0);
            }
        }
    }
}

/// How many packages may be in the tree or asked for before further requests are
/// turned down.
pub const MAX_TREE_SIZE: usize = 500;

/// What a [`DepTreeCollector`] has gathered.
#[verifier::ext_equal]
pub struct CollectorView {
    pub dependencies: Seq<DependencyView>,
    pub in_progress: Seq<RequestView>,
    pub first_error: Option<ServerError>,
}

pub open spec fn is_dependency(dependencies: Seq<DependencyView>, name: Seq<char>) -> bool {
    exists|i: int| 0 <= i < dependencies.len() && (#[trigger] dependencies[i]).name == name
}

pub open spec fn is_requested(requests: Seq<RequestView>, name: Seq<char>) -> bool {
    exists|i: int| 0 <= i < requests.len() && (#[trigger] requests[i]).name == name
}

/// True of the requests that are not followed: packages of type declarations,
/// names that are no package names, whatever comes when the tree is full, and
/// packages that are known already.
pub open spec fn skips(c: CollectorView, name: Seq<char>) -> bool {
    ||| "@types/"@.is_prefix_of(name)
    ||| !npm_specifier::valid_package_name(name)
    ||| c.dependencies.len() + c.in_progress.len() > MAX_TREE_SIZE
    ||| is_dependency(c.dependencies, name)
    ||| is_requested(c.in_progress, name)
}

pub open spec fn with_request(c: CollectorView, request: RequestView) -> CollectorView {
    CollectorView { in_progress: c.in_progress.push(request), ..c }
}

/// Those of `requests` that are followed, each being judged with all before it
/// taken into account.
pub open spec fn followed(c: CollectorView, requests: Seq<RequestView>) -> Seq<RequestView>
    decreases requests.len(),
{
    if requests.len() == 0 {
        Seq::empty()
    } else {
        let before = followed(c, requests.drop_last());
        if skips(
            CollectorView { in_progress: c.in_progress + before, ..c },
            requests.last().name,
        ) {
            before
        } else {
            before.push(requests.last())
        }
    }
}

/// The collector with one more package; the first of a name stays.
pub open spec fn with_dependency(c: CollectorView, dep: DependencyView) -> CollectorView {
    if is_dependency(c.dependencies, dep.name) {
        c
    } else {
        CollectorView { dependencies: c.dependencies.push(dep), ..c }
    }
}

/// The collector with `requests` judged, and followed where they are to be.
pub open spec fn with_requests(c: CollectorView, requests: Seq<RequestView>) -> CollectorView {
    CollectorView { in_progress: c.in_progress + followed(c, requests), ..c }
}

/// The collector with one more error; the first stays.
pub open spec fn with_error(c: CollectorView, err: ServerError) -> CollectorView {
    CollectorView {
        first_error: match c.first_error {
            Some(first) => Some(first),
            None => Some(err),
        },
        ..c
    }
}

/// True of the names that the tree may hold: well-formed package names, those of
/// type declarations aside.
pub open spec fn proper_name(name: Seq<char>) -> bool {
    npm_specifier::valid_package_name(name) && !"@types/"@.is_prefix_of(name)
}

/// A request is turned down if it is for type declarations, if its name is no package
/// name, if more than five hundred packages are in the tree or asked for, or if its
/// package is one of them; and for no other reason.
pub proof fn law_reasons_to_turn_a_request_down(c: CollectorView, name: Seq<char>)
    ensures
        skips(c, name) <==> {
            ||| "@types/"@.is_prefix_of(name)
            ||| !(npm_specifier::module_specifier(name) matches Some(
                npm_specifier::SpecifierView::Package { subpath: None, .. },
            ))
            ||| c.dependencies.len() + c.in_progress.len() > 500
            ||| exists|i: int|
                0 <= i < c.dependencies.len() && (#[trigger] c.dependencies[i]).name == name
            ||| exists|i: int|
                0 <= i < c.in_progress.len() && (#[trigger] c.in_progress[i]).name == name
        },
{
}

/// The first of two requests that come in one go is followed unless there is a reason
/// against it, and then the second is judged with the first taken into account; so too
/// with any number of them. What is followed stands in the order in which it came.
pub proof fn law_requests_are_judged_in_order(
    c: CollectorView,
    requests: Seq<RequestView>,
    next: RequestView,
)
    ensures
        followed(c, Seq::empty()).len() == 0,
        ({
            let before = followed(c, requests);
            let known = before.len() + c.in_progress.len() + c.dependencies.len();
            let asked = (exists|i: int|
                0 <= i < c.dependencies.len() && (#[trigger] c.dependencies[i]).name == next.name)
                || (exists|i: int|
                0 <= i < c.in_progress.len() && (#[trigger] c.in_progress[i]).name == next.name)
                || (exists|i: int|
                0 <= i < before.len() && (#[trigger] before[i]).name == next.name);
            let proper = !"@types/"@.is_prefix_of(next.name) && (npm_specifier::module_specifier(
                next.name,
            ) matches Some(npm_specifier::SpecifierView::Package { subpath: None, .. }));
            followed(c, requests.push(next)) == if proper && known <= 500 && !asked {
                before.push(next)
            } else {
                before
            }
        }),
{
    let before = followed(c, requests);
    assert(requests.push(next).drop_last() =~= requests);
    let mid = CollectorView { in_progress: c.in_progress + before, ..c };
    law_reasons_to_turn_a_request_down(mid, next.name);
    if exists|i: int| 0 <= i < c.in_progress.len() && (#[trigger] c.in_progress[i]).name
        == next.name {
        let i = choose|i: int|
            0 <= i < c.in_progress.len() && (#[trigger] c.in_progress[i]).name == next.name;
        assert(mid.in_progress[i].name == next.name);
    }
    if exists|i: int| 0 <= i < before.len() && (#[trigger] before[i]).name == next.name {
        let i = choose|i: int| 0 <= i < before.len() && (#[trigger] before[i]).name == next.name;
        assert(mid.in_progress[c.in_progress.len() + i].name == next.name);
    }
    if exists|i: int| 0 <= i < mid.in_progress.len() && (#[trigger] mid.in_progress[i]).name
        == next.name {
        let i = choose|i: int|
            0 <= i < mid.in_progress.len() && (#[trigger] mid.in_progress[i]).name == next.name;
        if i < c.in_progress.len() {
            assert(c.in_progress[i].name == next.name);
        } else {
            assert(before[i - c.in_progress.len()].name == next.name);
        }
    }
}

/// A resolved package joins the tree unless one of its name is there; what it asks for and
/// is followed is asked for from then on; an error is kept if it is the first.
pub proof fn law_collector_steps(
    c: CollectorView,
    dep: DependencyView,
    requests: Seq<RequestView>,
    err: ServerError,
)
    ensures
        (exists|i: int|
            0 <= i < c.dependencies.len() && (#[trigger] c.dependencies[i]).name == dep.name)
            ==> with_dependency(c, dep) == c,
        (forall|i: int|
            0 <= i < c.dependencies.len() ==> (#[trigger] c.dependencies[i]).name != dep.name)
            ==> with_dependency(c, dep).dependencies == c.dependencies.push(dep),
        with_dependency(c, dep).in_progress == c.in_progress,
        with_dependency(c, dep).first_error == c.first_error,
        with_requests(c, requests).dependencies == c.dependencies,
        with_requests(c, requests).in_progress == c.in_progress + followed(c, requests),
        with_requests(c, requests).first_error == c.first_error,
        with_error(c, err).dependencies == c.dependencies,
        with_error(c, err).in_progress == c.in_progress,
        c.first_error is Some ==> with_error(c, err).first_error == c.first_error,
        c.first_error is None ==> with_error(c, err).first_error == Some(err),
{
}

/// No package stands twice in the tree, none is asked for twice, and no more than
/// one request beyond the limit was followed.
pub open spec fn sound(c: CollectorView) -> bool {
    &&& forall|i: int, j: int|
        0 <= i < j < c.dependencies.len() ==> (#[trigger] c.dependencies[i]).name != (
        #[trigger] c.dependencies[j]).name
    &&& forall|i: int, j: int|
        0 <= i < j < c.in_progress.len() ==> (#[trigger] c.in_progress[i]).name != (
        #[trigger] c.in_progress[j]).name
    &&& forall|i: int|
        0 <= i < c.in_progress.len() ==> npm_specifier::valid_package_name(
            (#[trigger] c.in_progress[i]).name,
        ) && !"@types/"@.is_prefix_of(c.in_progress[i].name)
    &&& c.in_progress.len() <= MAX_TREE_SIZE + 1
}

/// Gathers a dependency tree.
#[derive(Debug)]
pub struct DepTreeCollector {
    dependencies: DependencyList,
    in_progress: Vec<DependencyRequest>,
    /// The error that came first; it is what the whole collection ends in.
    first_error: Option<ServerError>,
}

impl View for DepTreeCollector {
    type V = CollectorView;

    closed spec fn view(&self) -> CollectorView {
        CollectorView {
            dependencies: dependency_views(self.dependencies@),
            in_progress: request_views(self.in_progress@),
            first_error: self.first_error,
        }
    }
}

impl DepTreeCollector {
    #[verifier::type_invariant]
    pub open spec fn is_sound(self) -> bool {
        sound(self@)
    }

    pub fn new() -> (c: Self)
        ensures
            c@ == (CollectorView {
                dependencies: Seq::empty(),
                in_progress: Seq::empty(),
                first_error: None,
            }),
    {
        let c = DepTreeCollector {
            dependencies: Vec::new(),
            in_progress: Vec::new(),
            first_error: None,
        };
        assert(dependency_views(c.dependencies@) =~= Seq::empty());
        assert(request_views(c.in_progress@) =~= Seq::empty());
        c
    }

    fn has_dependency(&self, name: &str) -> (r: bool)
        ensures
            r == is_dependency(self@.dependencies, name@),
    {
        let mut i: usize = 0;
        while i < self.dependencies.len()
            invariant
                i <= self.dependencies@.len(),
                forall|j: int|
                    0 <= j < i ==> (#[trigger] self@.dependencies[j]).name != name@,
            decreases self.dependencies.len() - i,
        {
            assert(self@.dependencies[i as int] == self.dependencies@[i as int]@);
            if text::same_text(self.dependencies[i].name.as_str(), name) {
                return true;
            }
            i += 1;
        }
        false
    }

    /// True when the package is in the tree or has been asked for.
    pub fn has_dep_request(&self, dep_request: &DependencyRequest) -> (r: bool)
        ensures
            r == (is_dependency(self@.dependencies, dep_request@.name) || is_requested(
                self@.in_progress,
                dep_request@.name,
            )),
    {
        if self.has_dependency(dep_request.name.as_str()) {
            return true;
        }
        let mut i: usize = 0;
        while i < self.in_progress.len()
            invariant
                i <= self.in_progress@.len(),
                !is_dependency(self@.dependencies, dep_request@.name),
                forall|j: int|
                    0 <= j < i ==> (#[trigger] self@.in_progress[j]).name != dep_request@.name,
            decreases self.in_progress.len() - i,
        {
            assert(self@.in_progress[i as int] == self.in_progress@[i as int]@);
            if text::same_text(self.in_progress[i].name.as_str(), dep_request.name.as_str()) {
                return true;
            }
            i += 1;
        }
        false
    }

    /// How many packages are in the tree or have been asked for; one that is both
    /// counts twice.
    pub fn total_dep_count(&self) -> (n: u64)
        requires
            self@.dependencies.len() + self@.in_progress.len() <= usize::MAX,
        ensures
            n == self@.dependencies.len() + self@.in_progress.len(),
    {
        (self.dependencies.len() + self.in_progress.len()) as u64
    }

    /// True when the request is not to be followed.
    pub fn should_skip_dep_request(&self, dep_request: &DependencyRequest) -> (r: bool)
        ensures
            r == skips(self@, dep_request@.name),
    {
        // Type declarations hold no code.
        if text::starts_with_text(dep_request.name.as_str(), "@types/") {
            return true;
        }
        // Nothing else can be resolved.
        if !npm_specifier::is_valid_package_name(dep_request.name.as_str()) {
            return true;
        }
        if self.dependencies.len() > MAX_TREE_SIZE || self.in_progress.len() > MAX_TREE_SIZE
            - self.dependencies.len() {
            return true;
        }
        self.has_dep_request(dep_request)
    }

    /// Adds a package to the tree, unless one of its name is there.
    pub fn add_dependency(&mut self, dep: Dependency)
        ensures
            final(self)@ == with_dependency(old(self)@, dep@),
    {
        proof {
            use_type_invariant(&*self);
        }
        if !self.has_dependency(dep.name.as_str()) {
            let ghost before = self@;
            let mut dependencies: DependencyList = Vec::new();
            assert(dependency_views(dependencies@) =~= Seq::empty());
            core::mem::swap(&mut dependencies, &mut self.dependencies);
            dependencies.push(dep);
            proof {
                assert(dependency_views(dependencies@) =~= before.dependencies.push(dep@));
                assert forall|i: int, j: int|
                    0 <= i < j < dependencies@.len() implies (#[trigger] dependency_views(
                    dependencies@,
                )[i]).name != (#[trigger] dependency_views(dependencies@)[j]).name by {
                    assert(before.dependencies[i].name != dep@.name);
                    if j < before.dependencies.len() {
                        assert(before.dependencies[i].name != before.dependencies[j].name);
                    }
                }
            }
            self.dependencies = dependencies;
        }
    }

    /// Takes note of an error, unless there is one already.
    pub fn record_error(&mut self, err: ServerError)
        ensures
            final(self)@ == with_error(old(self)@, err),
    {
        proof {
            use_type_invariant(&*self);
        }
        if self.first_error.is_none() {
            self.first_error = Some(err);
        }
    }

    /// Takes note of a request that is being followed.
    pub fn add_dep_request(&mut self, dep_request: DependencyRequest)
        requires
            !skips(old(self)@, dep_request@.name),
        ensures
            final(self)@ == with_request(old(self)@, dep_request@),
    {
        proof {
            use_type_invariant(&*self);
        }
        let ghost before = self@;
        let mut in_progress: Vec<DependencyRequest> = Vec::new();
        assert(request_views(in_progress@) =~= Seq::empty());
        core::mem::swap(&mut in_progress, &mut self.in_progress);
        in_progress.push(dep_request);
        proof {
            assert(request_views(in_progress@) =~= before.in_progress.push(dep_request@));
            assert forall|i: int, j: int|
                0 <= i < j < in_progress@.len() implies (#[trigger] request_views(
                in_progress@,
            )[i]).name != (#[trigger] request_views(in_progress@)[j]).name by {
                assert(before.in_progress[i].name != dep_request@.name);
                if j < before.in_progress.len() {
                    assert(before.in_progress[i].name != before.in_progress[j].name);
                }
            }
            assert forall|i: int| 0 <= i < in_progress@.len() implies
                npm_specifier::valid_package_name((#[trigger] request_views(in_progress@)[i]).name)
                && !"@types/"@.is_prefix_of(request_views(in_progress@)[i].name) by {
                if i < before.in_progress.len() {
                    assert(request_views(in_progress@)[i] == before.in_progress[i]);
                }
            }
        }
        self.in_progress = in_progress;
    }

    /// Judges each request, and hands back those that are to be followed.
    pub fn add_dep_requests(&mut self, dep_requests: Vec<DependencyRequest>) -> (start: Vec<
        DependencyRequest,
    >)
        ensures
            final(self)@ == with_requests(old(self)@, request_views(dep_requests@)),
            request_views(start@) == followed(old(self)@, request_views(dep_requests@)),
    {
        let ghost c = self@;
        let ghost all = request_views(dep_requests@);
        let mut start: Vec<DependencyRequest> = Vec::new();
        let mut i: usize = 0;
        assert(request_views(start@) =~= followed(c, all.take(0)));
        assert(c.in_progress + followed(c, all.take(0)) =~= c.in_progress);
        while i < dep_requests.len()
            invariant
                all == request_views(dep_requests@),
                i <= all.len(),
                self@ == with_requests(c, all.take(i as int)),
                request_views(start@) == followed(c, all.take(i as int)),
            decreases all.len() - i,
        {
            let request: &DependencyRequest = &dep_requests[i];
            let ghost before = request_views(start@);
            proof {
                assert(all.take(i + 1).drop_last() =~= all.take(i as int));
                assert(all.take(i + 1).last() == request@);
            }
            if !self.should_skip_dep_request(request) {
                let copy: DependencyRequest = request.clone();
                start.push(request.clone());
                self.add_dep_request(copy);
                proof {
                    assert(request_views(start@) =~= before.push(request@));
                    assert(self@.in_progress =~= c.in_progress + before.push(request@));
                }
            }
            i += 1;
        }
        assert(all.take(i as int) =~= all);
        start
    }

    /// What follows from the resolution of one request: the requests that are to
    /// be followed next.
    pub fn on_resolved(
        &mut self,
        outcome: Result<(Dependency, Vec<DependencyRequest>), ServerError>,
    ) -> (start: Vec<DependencyRequest>)
        ensures
            (match outcome {
                Ok((dep, requests)) => {
                    let c = with_dependency(old(self)@, dep@);
                    &&& final(self)@ == with_requests(c, request_views(requests@))
                    &&& request_views(start@) == followed(c, request_views(requests@))
                },
                Err(err) => final(self)@ == with_error(old(self)@, err) && start@.len() == 0,
            }),
    {
        match outcome {
            Ok((dep, requests)) => {
                self.add_dependency(dep);
                self.add_dep_requests(requests)
            },
            Err(err) => {
                self.record_error(err);
                Vec::new()
            },
        }
    }

    pub fn get_dependencies(&self) -> (r: DependencyList)
        ensures
            dependency_views(r@) == self@.dependencies,
    {
        let mut list: DependencyList = Vec::new();
        let mut i: usize = 0;
        while i < self.dependencies.len()
            invariant
                i <= self.dependencies@.len(),
                dependency_views(list@) == self@.dependencies.take(i as int),
            decreases self.dependencies.len() - i,
        {
            let ghost before = dependency_views(list@);
            list.push(self.dependencies[i].clone());
            proof {
                assert(dependency_views(list@) =~= before.push(self@.dependencies[i as int]));
                assert(self@.dependencies.take(i + 1) =~= self@.dependencies.take(i as int).push(
                    self@.dependencies[i as int],
                ));
            }
            i += 1;
        }
        assert(self@.dependencies.take(i as int) =~= self@.dependencies);
        list
    }

    /// What the whole collection ends in: the first error, or the tree. Each package in
    /// it that was asked for is a proper one; [`Collection`] tells that all of them
    /// were.
    pub fn finish(self) -> (r: Result<DependencyList, ServerError>)
        ensures
            r is Ok ==> forall|i: int, j: int|
                0 <= i < j < r->Ok_0@.len() ==> (#[trigger] r->Ok_0@[i]).name@ != (
                #[trigger] r->Ok_0@[j]).name@,
            r is Ok ==> forall|i: int|
                0 <= i < r->Ok_0@.len() && is_requested(
                    self@.in_progress,
                    (#[trigger] r->Ok_0@[i]).name@,
                ) ==> proper_name(r->Ok_0@[i].name@),
            (match self@.first_error {
                Some(err) => r matches Err(e) && e == err,
                None => r is Ok && dependency_views(r->Ok_0@) == self@.dependencies,
            }),
    {
        proof {
            use_type_invariant(&self);
        }
        let list: DependencyList = self.get_dependencies();
        assert forall|i: int, j: int| 0 <= i < j < list@.len() implies (#[trigger] list@[i]).name@
            != (#[trigger] list@[j]).name@ by {
            assert(dependency_views(list@)[i].name != dependency_views(list@)[j].name);
        }
        match self.first_error {
            Some(err) => Err(err),
            None => Ok(list),
        }
    }
}

proof fn lemma_followed(c: CollectorView, requests: Seq<RequestView>)
    requires
        sound(c),
    ensures
        sound(with_requests(c, requests)),
        forall|i: int|
            0 <= i < followed(c, requests).len() ==> !is_dependency(
                c.dependencies,
                (#[trigger] followed(c, requests)[i]).name,
            ) && !is_requested(c.in_progress, followed(c, requests)[i].name) && requests.contains(
                followed(c, requests)[i],
            ),
    decreases requests.len(),
{
    if requests.len() == 0 {
        assert(with_requests(c, requests).in_progress =~= c.in_progress);
    } else {
        let init = requests.drop_last();
        let request = requests.last();
        lemma_followed(c, init);
        let before = followed(c, init);
        let mid = with_requests(c, init);
        let after = with_requests(c, requests);
        let f = followed(c, requests);
        assert forall|i: int| 0 <= i < before.len() implies requests.contains(
            #[trigger] before[i],
        ) by {
            let k = choose|k: int| 0 <= k < init.len() && init[k] == before[i];
            assert(requests[k] == before[i]);
        }
        if skips(mid, request.name) {
            assert(f == before);
        } else {
            assert(f == before.push(request));
            assert(after.in_progress =~= mid.in_progress.push(request));
            assert(requests[requests.len() - 1] == request);
            if is_requested(c.in_progress, request.name) {
                let k = choose|k: int|
                    0 <= k < c.in_progress.len() && (#[trigger] c.in_progress[k]).name
                        == request.name;
                assert(mid.in_progress[k].name == request.name);
            }
            assert forall|i: int, j: int|
                0 <= i < j < after.in_progress.len() implies (#[trigger] after.in_progress[i]).name
                != (#[trigger] after.in_progress[j]).name by {
                assert(mid.in_progress[i].name != request.name);
                if j < mid.in_progress.len() {
                    assert(mid.in_progress[i].name != mid.in_progress[j].name);
                }
            }
            assert forall|i: int| 0 <= i < after.in_progress.len() implies
                npm_specifier::valid_package_name((#[trigger] after.in_progress[i]).name)
                && !"@types/"@.is_prefix_of(after.in_progress[i].name) by {
                if i < mid.in_progress.len() {
                    assert(after.in_progress[i] == mid.in_progress[i]);
                }
            }
            assert forall|i: int| 0 <= i < f.len() implies !is_dependency(
                c.dependencies,
                (#[trigger] f[i]).name,
            ) && !is_requested(c.in_progress, f[i].name) && requests.contains(f[i]) by {
                if i < before.len() {
                    assert(f[i] == before[i]);
                }
            }
        }
    }
}

/// Whatever is resolved or fails, no package gets into the tree twice, none is
/// asked for twice, and the number of requests stays bounded.
pub proof fn law_collector_stays_sound(
    c: CollectorView,
    dep: DependencyView,
    requests: Seq<RequestView>,
    err: ServerError,
)
    requires
        sound(c),
    ensures
        sound(with_error(c, err)),
        sound(with_dependency(c, dep)),
        sound(with_requests(c, requests)),
        sound(with_requests(with_dependency(c, dep), requests)),
{
    let d = with_dependency(c, dep);
    if !is_dependency(c.dependencies, dep.name) {
        assert forall|i: int, j: int| 0 <= i < j < d.dependencies.len() implies (
        #[trigger] d.dependencies[i]).name != (#[trigger] d.dependencies[j]).name by {
            assert(c.dependencies[i].name != dep.name);
            if j < c.dependencies.len() {
                assert(c.dependencies[i].name != c.dependencies[j].name);
            }
        }
    }
    lemma_followed(c, requests);
    lemma_followed(d, requests);
}

/// A request that is followed was made, and its package was neither in the tree
/// nor asked for before; it is a proper package and none of type declarations.
pub proof fn law_followed_requests_are_new(
    c: CollectorView,
    requests: Seq<RequestView>,
    i: int,
)
    requires
        sound(c),
        0 <= i < followed(c, requests).len(),
    ensures
        requests.contains(followed(c, requests)[i]),
        !is_dependency(c.dependencies, followed(c, requests)[i].name),
        !is_requested(c.in_progress, followed(c, requests)[i].name),
        npm_specifier::valid_package_name(followed(c, requests)[i].name),
        !"@types/"@.is_prefix_of(followed(c, requests)[i].name),
{
    lemma_followed(c, requests);
    let after = with_requests(c, requests);
    assert(after.in_progress[c.in_progress.len() + i] == followed(c, requests)[i]);
}

/// Once the tree is full, no request is followed.
pub proof fn law_full_tree_follows_nothing(c: CollectorView, requests: Seq<RequestView>)
    requires
        c.dependencies.len() + c.in_progress.len() > MAX_TREE_SIZE,
    ensures
        followed(c, requests).len() == 0,
    decreases requests.len(),
{
    if requests.len() > 0 {
        law_full_tree_follows_nothing(c, requests.drop_last());
    }
}

/// A request is lost only for a reason: after its list has been judged, its
/// package is in the tree or asked for, unless it is turned down for good.
pub proof fn law_request_is_followed_or_refused(
    c: CollectorView,
    requests: Seq<RequestView>,
    request: RequestView,
)
    requires
        requests.contains(request),
    ensures
        skips(with_requests(c, requests), request.name),
    decreases requests.len(),
{
    let init = requests.drop_last();
    let last = requests.last();
    let mid = with_requests(c, init);
    let after = with_requests(c, requests);
    if skips(mid, last.name) {
        assert(after == mid);
    } else {
        assert(after.in_progress =~= mid.in_progress.push(last));
        assert(after.in_progress[mid.in_progress.len() as int] == last);
    }
    if request != last {
        let k = choose|k: int| 0 <= k < requests.len() && requests[k] == request;
        assert(init[k] == request);
        law_request_is_followed_or_refused(c, init, request);
        if is_requested(mid.in_progress, request.name) {
            let i = choose|i: int|
                0 <= i < mid.in_progress.len() && (#[trigger] mid.in_progress[i]).name
                    == request.name;
            assert(after.in_progress[i] == mid.in_progress[i]);
        }
    }
}

/// The error that came first stays, whatever comes later.
pub proof fn law_first_error_wins(c: CollectorView, first: ServerError, later: ServerError)
    ensures
        with_error(with_error(c, first), later) == with_error(c, first),
{
}

/// True of the names that are turned down for good: packages of type declarations,
/// names that are no package names, and all names once the tree is full.
pub open spec fn refused(c: CollectorView, name: Seq<char>) -> bool {
    ||| "@types/"@.is_prefix_of(name)
    ||| !npm_specifier::valid_package_name(name)
    ||| c.dependencies.len() + c.in_progress.len() > MAX_TREE_SIZE
}

/// The collection of a tree as it goes on: what has been gathered, the requests that
/// are being followed, and all requests that have been made.
pub struct Collection {
    pub gathered: CollectorView,
    pub pending: Seq<RequestView>,
    pub made: Seq<RequestView>,
}

impl Collection {
    /// The collection of the tree that `requests` span, at its start.
    pub open spec fn start(requests: Seq<RequestView>) -> Collection {
        let c = CollectorView {
            dependencies: Seq::empty(),
            in_progress: Seq::empty(),
            first_error: None,
        };
        Collection {
            gathered: with_requests(c, requests),
            pending: followed(c, requests),
            made: requests,
        }
    }

    /// The collection after the request at `i` has been resolved to `dep`, which asks
    /// for `requests`.
    pub open spec fn resolved(
        self,
        i: int,
        dep: DependencyView,
        requests: Seq<RequestView>,
    ) -> Collection {
        let c = with_dependency(self.gathered, dep);
        Collection {
            gathered: with_requests(c, requests),
            pending: self.pending.remove(i) + followed(c, requests),
            made: self.made + requests,
        }
    }

    /// The collection after the request at `i` has failed.
    pub open spec fn failed(self, i: int, err: ServerError) -> Collection {
        Collection {
            gathered: with_error(self.gathered, err),
            pending: self.pending.remove(i),
            made: self.made,
        }
    }

    /// What holds of the collection at every step: each request that was followed is
    /// being followed still, or its package is in the tree, or something has failed;
    /// each request that was made would be turned down if it were made again; and what
    /// is in the tree or being followed was asked for, and is a proper package.
    pub open spec fn in_order(self) -> bool {
        &&& sound(self.gathered)
        &&& forall|i: int|
            0 <= i < self.gathered.dependencies.len() ==> proper_name(
                (#[trigger] self.gathered.dependencies[i]).name,
            ) && is_requested(self.gathered.in_progress, self.gathered.dependencies[i].name)
        &&& forall|i: int|
            0 <= i < self.pending.len() ==> proper_name((#[trigger] self.pending[i]).name)
                && self.gathered.in_progress.contains(self.pending[i])
        &&& forall|r: RequestView| #[trigger]
            self.gathered.in_progress.contains(r) ==> self.pending.contains(r) || is_dependency(
                self.gathered.dependencies,
                r.name,
            ) || self.gathered.first_error is Some
        &&& forall|r: RequestView| #[trigger]
            self.made.contains(r) ==> skips(self.gathered, r.name)
    }

    proof fn lemma_made(c: CollectorView, requests: Seq<RequestView>)
        ensures
            forall|r: RequestView| #[trigger]
                requests.contains(r) ==> skips(with_requests(c, requests), r.name),
    {
        assert forall|r: RequestView| #[trigger] requests.contains(r) implies skips(
            with_requests(c, requests),
            r.name,
        ) by {
            law_request_is_followed_or_refused(c, requests, r);
        }
    }

    /// The collection starts in order.
    pub proof fn law_start_is_in_order(requests: Seq<RequestView>)
        ensures
            Collection::start(requests).in_order(),
    {
        let c = CollectorView {
            dependencies: Seq::empty(),
            in_progress: Seq::empty(),
            first_error: None,
        };
        lemma_followed(c, requests);
        Collection::lemma_made(c, requests);
        let start = Collection::start(requests);
        assert(c.in_progress + followed(c, requests) =~= followed(c, requests));
        assert forall|i: int| 0 <= i < start.pending.len() implies proper_name(
            (#[trigger] start.pending[i]).name,
        ) && start.gathered.in_progress.contains(start.pending[i]) by {
            assert(start.gathered.in_progress[i] == start.pending[i]);
        }
    }

    /// What was turned down once is turned down for ever.
    pub proof fn law_skipped_stays_skipped(
        c: CollectorView,
        dep: DependencyView,
        requests: Seq<RequestView>,
        err: ServerError,
        name: Seq<char>,
    )
        requires
            skips(c, name),
        ensures
            skips(with_dependency(c, dep), name),
            skips(with_requests(c, requests), name),
            skips(with_error(c, err), name),
    {
        let d = with_dependency(c, dep);
        let q = with_requests(c, requests);
        if is_dependency(c.dependencies, name) {
            let i = choose|i: int|
                0 <= i < c.dependencies.len() && (#[trigger] c.dependencies[i]).name == name;
            assert(d.dependencies[i].name == name);
        }
        if is_requested(c.in_progress, name) {
            let i = choose|i: int|
                0 <= i < c.in_progress.len() && (#[trigger] c.in_progress[i]).name == name;
            assert(q.in_progress[i].name == name);
        }
    }

    /// A resolution keeps the collection in order, whichever request it is that was
    /// resolved first.
    pub proof fn law_resolution_keeps_order(
        self,
        i: int,
        dep: DependencyView,
        requests: Seq<RequestView>,
    )
        requires
            self.in_order(),
            0 <= i < self.pending.len(),
            dep.name == self.pending[i].name,
        ensures
            self.resolved(i, dep, requests).in_order(),
    {
        let c = self.gathered;
        let d = with_dependency(c, dep);
        let after = self.resolved(i, dep, requests);
        let any = ServerError::NotChanged;
        law_collector_stays_sound(c, dep, requests, any);
        Collection::lemma_made(d, requests);
        assert forall|r: RequestView| #[trigger] after.made.contains(r) implies skips(
            after.gathered,
            r.name,
        ) by {
            let k = choose|k: int| 0 <= k < after.made.len() && after.made[k] == r;
            if k < self.made.len() {
                assert(self.made[k] == r);
                assert(self.made.contains(r));
                Collection::law_skipped_stays_skipped(c, dep, requests, any, r.name);
                Collection::law_skipped_stays_skipped(d, dep, requests, any, r.name);
            } else {
                assert(requests[k - self.made.len()] == r);
                assert(requests.contains(r));
            }
        }
        assert(is_dependency(d.dependencies, dep.name)) by {
            if !is_dependency(c.dependencies, dep.name) {
                assert(d.dependencies[c.dependencies.len() as int].name == dep.name);
            }
        }
        assert forall|r: RequestView| #[trigger] after.gathered.in_progress.contains(
            r,
        ) implies after.pending.contains(r) || is_dependency(after.gathered.dependencies, r.name)
            || after.gathered.first_error is Some by {
            let progress = after.gathered.in_progress;
            let k = choose|k: int| 0 <= k < progress.len() && progress[k] == r;
            let rest = self.pending.remove(i);
            if k < c.in_progress.len() {
                assert(c.in_progress[k] == r);
                assert(c.in_progress.contains(r));
                if self.pending.contains(r) {
                    let m = choose|m: int| 0 <= m < self.pending.len() && self.pending[m] == r;
                    if m != i {
                        assert(rest[if m < i { m } else { m - 1 }] == r);
                        assert(after.pending[if m < i { m } else { m - 1 }] == r);
                    }
                } else if is_dependency(c.dependencies, r.name) {
                    let m = choose|m: int|
                        0 <= m < c.dependencies.len() && (#[trigger] c.dependencies[m]).name
                            == r.name;
                    assert(d.dependencies[m].name == r.name);
                }
            } else {
                let f = followed(d, requests);
                assert(f[k - c.in_progress.len()] == r);
                assert(after.pending[rest.len() + (k - c.in_progress.len())] == r);
            }
        }
        self.lemma_names_after_resolution(i, dep, requests);
    }

    /// What is in the tree or being followed after a resolution.
    proof fn lemma_names_after_resolution(
        self,
        i: int,
        dep: DependencyView,
        requests: Seq<RequestView>,
    )
        requires
            self.in_order(),
            0 <= i < self.pending.len(),
            dep.name == self.pending[i].name,
            sound(self.resolved(i, dep, requests).gathered),
        ensures
            forall|k: int|
                0 <= k < self.resolved(i, dep, requests).gathered.dependencies.len()
                    ==> proper_name(
                    (#[trigger] self.resolved(i, dep, requests).gathered.dependencies[k]).name,
                ) && is_requested(
                    self.resolved(i, dep, requests).gathered.in_progress,
                    self.resolved(i, dep, requests).gathered.dependencies[k].name,
                ),
            forall|k: int|
                0 <= k < self.resolved(i, dep, requests).pending.len() ==> proper_name(
                    (#[trigger] self.resolved(i, dep, requests).pending[k]).name,
                ) && self.resolved(i, dep, requests).gathered.in_progress.contains(
                    self.resolved(i, dep, requests).pending[k],
                ),
    {
        let c = self.gathered;
        let after = self.resolved(i, dep, requests);
        let progress = after.gathered.in_progress;
        let rest = self.pending.remove(i);
        assert forall|r: RequestView| c.in_progress.contains(r) implies progress.contains(r) by {
            let m = choose|m: int| 0 <= m < c.in_progress.len() && c.in_progress[m] == r;
            assert(progress[m] == r);
        }
        assert forall|name: Seq<char>| is_requested(c.in_progress, name) implies is_requested(
            progress,
            name,
        ) by {
            let m = choose|m: int|
                0 <= m < c.in_progress.len() && (#[trigger] c.in_progress[m]).name == name;
            assert(progress[m].name == name);
        }
        assert forall|k: int| 0 <= k < after.gathered.dependencies.len() implies proper_name(
            (#[trigger] after.gathered.dependencies[k]).name,
        ) && is_requested(progress, after.gathered.dependencies[k].name) by {
            if k < c.dependencies.len() {
                assert(after.gathered.dependencies[k] == c.dependencies[k]);
            } else {
                assert(after.gathered.dependencies[k] == dep);
                assert(c.in_progress.contains(self.pending[i]));
                let m = choose|m: int|
                    0 <= m < c.in_progress.len() && c.in_progress[m] == self.pending[i];
                assert(c.in_progress[m].name == dep.name);
                assert(is_requested(c.in_progress, dep.name));
            }
        }
        assert forall|k: int| 0 <= k < after.pending.len() implies proper_name(
            (#[trigger] after.pending[k]).name,
        ) && progress.contains(after.pending[k]) by {
            if k < rest.len() {
                let m = if k < i { k } else { k + 1 };
                assert(after.pending[k] == self.pending[m]);
                assert(c.in_progress.contains(self.pending[m]));
            } else {
                let m = c.in_progress.len() + (k - rest.len());
                assert(progress[m] == after.pending[k]);
            }
        }
    }

    /// A failure keeps the collection in order.
    pub proof fn law_failure_keeps_order(self, i: int, err: ServerError)
        requires
            self.in_order(),
            0 <= i < self.pending.len(),
        ensures
            self.failed(i, err).in_order(),
    {
        let c = self.gathered;
        let after = self.failed(i, err);
        let any = DependencyView { name: Seq::empty(), version: Seq::empty(), depth: 0 };
        law_collector_stays_sound(c, any, Seq::empty(), err);
        assert forall|r: RequestView| #[trigger] after.made.contains(r) implies skips(
            after.gathered,
            r.name,
        ) by {
            Collection::law_skipped_stays_skipped(c, any, Seq::empty(), err, r.name);
        }
        assert forall|k: int| 0 <= k < after.pending.len() implies proper_name(
            (#[trigger] after.pending[k]).name,
        ) && after.gathered.in_progress.contains(after.pending[k]) by {
            assert(after.pending[k] == self.pending[if k < i { k } else { k + 1 }]);
        }
    }

    /// Each package in the tree is a proper one that was asked for: no package of type
    /// declarations gets in, and nothing that is no package.
    pub proof fn law_tree_holds_proper_packages(self, i: int)
        requires
            self.in_order(),
            0 <= i < self.gathered.dependencies.len(),
        ensures
            npm_specifier::valid_package_name(self.gathered.dependencies[i].name),
            !"@types/"@.is_prefix_of(self.gathered.dependencies[i].name),
            is_requested(self.gathered.in_progress, self.gathered.dependencies[i].name),
    {
    }

    /// When no request is being followed any more and nothing has failed, the tree is
    /// complete: each package that was ever asked for is in it, or is refused.
    pub proof fn law_finished_tree_is_complete(self, r: RequestView)
        requires
            self.in_order(),
            self.pending.len() == 0,
            self.gathered.first_error is None,
            self.made.contains(r),
        ensures
            is_dependency(self.gathered.dependencies, r.name) || refused(self.gathered, r.name),
    {
        let c = self.gathered;
        assert(skips(c, r.name));
        if is_requested(c.in_progress, r.name) {
            let k = choose|k: int|
                0 <= k < c.in_progress.len() && (#[trigger] c.in_progress[k]).name == r.name;
            assert(c.in_progress.contains(c.in_progress[k]));
            assert(!self.pending.contains(c.in_progress[k]));
        }
    }
}

} // verus!
