//! What is kept of a package's entry in the registry.

use vstd::prelude::*;

use crate::str_map;
use crate::str_map::StrMap;

verus! {

/// One published version of a package.
#[derive(Debug)]
pub struct MinimalPackageVersionData {
    pub tarball: String,
    pub dependencies: StrMap<String>,
}

/// A package with its published versions, and the tags that name some of them.
#[derive(Debug)]
pub struct MinimalPackageData {
    pub name: String,
    pub dist_tags: StrMap<String>,
    pub versions: StrMap<MinimalPackageVersionData>,
}

/// What a [`MinimalPackageVersionData`] says.
#[verifier::ext_equal]
pub struct VersionDataView {
    pub tarball: Seq<char>,
    pub dependencies: Seq<(Seq<char>, Seq<char>)>,
}

/// What a [`MinimalPackageData`] says.
#[verifier::ext_equal]
pub struct ManifestView {
    pub name: Seq<char>,
    pub dist_tags: Seq<(Seq<char>, Seq<char>)>,
    pub versions: Seq<(Seq<char>, VersionDataView)>,
}

impl ManifestView {
    /// The version that a tag names.
    pub open spec fn tagged(self, tag: Seq<char>) -> Option<Seq<char>> {
        if str_map::map_of(self.dist_tags).contains_key(tag) {
            Some(str_map::map_of(self.dist_tags)[tag])
        } else {
            None
        }
    }

    /// A tag names the version that stands beside it, and nothing if it stands nowhere.
    pub proof fn law_tag_names_its_version(self, tag: Seq<char>)
        requires
            str_map::distinct_keys(self.dist_tags),
        ensures
            forall|i: int|
                0 <= i < self.dist_tags.len() && (#[trigger] self.dist_tags[i]).0 == tag
                    ==> self.tagged(tag) == Some(self.dist_tags[i].1),
            (forall|i: int|
                0 <= i < self.dist_tags.len() ==> (#[trigger] self.dist_tags[i]).0 != tag)
                ==> self.tagged(tag) is None,
            self.tagged(tag) is Some ==> exists|i: int|
                0 <= i < self.dist_tags.len() && #[trigger] self.dist_tags[i] == (
                    tag,
                    self.tagged(tag)->0,
                ),
    {
        str_map::lemma_map_of_keys(self.dist_tags, tag);
        str_map::law_table_holds_its_entries(self.dist_tags);
        if self.tagged(tag) is Some {
            let i = choose|i: int|
                0 <= i < self.dist_tags.len() && (#[trigger] self.dist_tags[i]).0 == tag;
            assert(self.dist_tags[i] == (tag, self.tagged(tag)->0));
        }
    }

    /// True of the versions that are published.
    pub open spec fn publishes(self, version: Seq<char>) -> bool {
        exists|i: int| 0 <= i < self.versions.len() && (#[trigger] self.versions[i]).0 == version
    }
}

impl View for MinimalPackageVersionData {
    type V = VersionDataView;

    open spec fn view(&self) -> VersionDataView {
        VersionDataView {
            tarball: self.tarball@,
            dependencies: str_map::pairs(self.dependencies),
        }
    }
}

impl View for MinimalPackageData {
    type V = ManifestView;

    open spec fn view(&self) -> ManifestView {
        ManifestView {
            name: self.name@,
            dist_tags: str_map::pairs(self.dist_tags),
            versions: str_map::with_values(
                self.versions.entries(),
                |v: MinimalPackageVersionData| v@,
            ),
        }
    }
}

fn clone_strings(map: &StrMap<String>) -> (r: StrMap<String>)
    ensures
        str_map::pairs(r) == str_map::pairs(*map),
{
    let r: StrMap<String> = map.clone();
    assert(str_map::pairs(r) =~= str_map::pairs(*map));
    r
}

impl Clone for MinimalPackageVersionData {
    fn clone(&self) -> (r: Self)
        ensures
            r@ == self@,
    {
        MinimalPackageVersionData {
            tarball: self.tarball.clone(),
            dependencies: clone_strings(&self.dependencies),
        }
    }
}

impl Clone for MinimalPackageData {
    fn clone(&self) -> (r: Self)
        ensures
            r@ == self@,
    {
        let versions: StrMap<MinimalPackageVersionData> = self.versions.clone();
        assert(str_map::with_values(versions.entries(), |v: MinimalPackageVersionData| v@)
            =~= self@.versions);
        MinimalPackageData {
            name: self.name.clone(),
            dist_tags: clone_strings(&self.dist_tags),
            versions,
        }
    }
}

} // verus!
