//! The cache of processed packages that outlives the process.
//!
//! What is published as `name@version` never changes, so entries do not expire.
//! An entry is the file `<safe-name>@<version>.v4.msgpack` in the cache's directory.

use vstd::prelude::*;

use crate::process::MinimalCachedModule;
use crate::process::ModuleDependenciesMap;
use crate::text;

verus! {

/// The format of the entries. It is raised whenever their shape or the shape of
/// what they hold changes, so that older entries are built anew.
pub const DISK_FORMAT: u32 = 4;

/// An entry of the cache.
#[derive(Debug)]
pub struct DiskEnvelope {
    pub format: u32,
    pub module: MinimalCachedModule,
    pub dependencies: ModuleDependenciesMap,
}

/// The name of an entry's file: the package's name with each `/` as `__`, the
/// version, and the format.
pub open spec fn file_name(package_name: Seq<char>, package_version: Seq<char>) -> Seq<char> {
    text::replaced(package_name, '/', "__"@) + "@"@ + package_version + ".v"@ + text::decimal_text(
        DISK_FORMAT as nat,
    ) + ".msgpack"@
}

pub fn cache_file_name(package_name: &str, package_version: &str) -> (name: String)
    ensures
        name@ == file_name(package_name@, package_version@),
{
    let mut name: String = text::replace_char(package_name, '/', "__");
    name.append("@");
    name.append(package_version);
    name.append(".v");
    name.append(text::decimal(DISK_FORMAT as u64).as_str());
    name.append(".msgpack");
    name
}

/// The name of the file that an entry is written to before it gets its own name,
/// so that no reader sees half of it.
pub fn temp_file_name(cache_file_name: &str) -> (name: String)
    ensures
        name@ == cache_file_name@ + ".tmp"@,
{
    let mut name: String = cache_file_name.to_string();
    name.append(".tmp");
    name
}

/// The entry for a package.
pub open spec fn sealed(
    module: MinimalCachedModule,
    dependencies: ModuleDependenciesMap,
) -> DiskEnvelope {
    DiskEnvelope { format: DISK_FORMAT, module, dependencies }
}

/// Makes the entry for a package.
pub fn seal(module: MinimalCachedModule, dependencies: ModuleDependenciesMap) -> (r: DiskEnvelope)
    ensures
        r == sealed(module, dependencies),
{
    DiskEnvelope { format: DISK_FORMAT, module, dependencies }
}

/// What became of the attempt to read an entry.
#[derive(Debug)]
pub enum CacheRead {
    /// There is no such file.
    Missing,
    /// The file could not be read.
    Unreadable,
    /// What the file holds is no entry.
    Corrupt,
    Entry(DiskEnvelope),
}

/// What is done about it.
#[derive(Debug)]
pub enum CacheDecision {
    /// The package is taken from the cache.
    Hit(MinimalCachedModule, ModuleDependenciesMap),
    /// The package is processed anew.
    Miss,
    /// The file is removed, and the package is processed anew.
    Discard,
}

/// An entry is used if and only if it has the current format. Files that hold
/// anything else are removed; files that cannot be read stay.
pub open spec fn decision(read: CacheRead) -> CacheDecision {
    match read {
        CacheRead::Missing | CacheRead::Unreadable => CacheDecision::Miss,
        CacheRead::Corrupt => CacheDecision::Discard,
        CacheRead::Entry(envelope) => if envelope.format == DISK_FORMAT {
            CacheDecision::Hit(envelope.module, envelope.dependencies)
        } else {
            CacheDecision::Discard
        },
    }
}

/// Decides what is done about an entry.
pub fn load(read: CacheRead) -> (r: CacheDecision)
    ensures
        r == decision(read),
{
    match read {
        CacheRead::Missing => CacheDecision::Miss,
        CacheRead::Unreadable => CacheDecision::Miss,
        CacheRead::Corrupt => CacheDecision::Discard,
        CacheRead::Entry(envelope) => {
            if envelope.format == DISK_FORMAT {
                CacheDecision::Hit(envelope.module, envelope.dependencies)
            } else {
                CacheDecision::Discard
            }
        },
    }
}

/// What was stored is what is loaded.
pub proof fn law_load_gives_back_what_was_stored(
    module: MinimalCachedModule,
    dependencies: ModuleDependenciesMap,
)
    ensures
        decision(CacheRead::Entry(sealed(module, dependencies))) == CacheDecision::Hit(
            module,
            dependencies,
        ),
{
}

/// An entry of another format is never used.
pub proof fn law_other_formats_are_discarded(envelope: DiskEnvelope)
    requires
        envelope.format != DISK_FORMAT,
    ensures
        decision(CacheRead::Entry(envelope)) == CacheDecision::Discard,
{
}

proof fn lemma_replaced_free(s: Seq<char>, c: char, with: Seq<char>)
    requires
        !with.contains(c),
    ensures
        !text::replaced(s, c, with).contains(c),
    decreases s.len(),
{
    if s.len() > 0 {
        let rest = text::replaced(s.drop_last(), c, with);
        lemma_replaced_free(s.drop_last(), c, with);
        let tail = if s.last() == c {
            with
        } else {
            seq![s.last()]
        };
        assert(!tail.contains(c));
        vstd::seq_lib::lemma_seq_concat_contains_all_elements(rest, tail, c);
    }
}

/// The file of an entry lies in the cache's directory itself, whatever the package
/// is called.
pub proof fn law_file_name_is_one_component(package_name: Seq<char>, package_version: Seq<char>)
    requires
        !package_version.contains('/'),
    ensures
        !file_name(package_name, package_version).contains('/'),
        file_name(package_name, package_version).len() > 0,
{
    reveal_strlit("__");
    reveal_strlit("@");
    reveal_strlit(".v");
    reveal_strlit(".msgpack");
    let safe = text::replaced(package_name, '/', "__"@);
    lemma_replaced_free(package_name, '/', "__"@);
    let format = text::decimal_text(DISK_FORMAT as nat);
    let name = file_name(package_name, package_version);
    if name.contains('/') {
        let i = choose|i: int| 0 <= i < name.len() && name[i] == '/';
        let a = safe.len() as int;
        let b = a + 1 + package_version.len();
        if i < a {
            assert(safe[i] == '/');
        } else if i > a && i < b {
            assert(package_version[i - a - 1] == '/');
        } else if i >= b {
            assert(name[i] == (".v"@ + format + ".msgpack"@)[i - b]);
        }
    }
}

proof fn lemma_safe_names_differ(a: Seq<char>, b: Seq<char>)
    requires
        !a.contains('_'),
        !b.contains('_'),
        text::replaced(a, '/', "__"@) == text::replaced(b, '/', "__"@),
    ensures
        a == b,
    decreases a.len(),
{
    reveal_strlit("__");
    let x = text::replaced(a, '/', "__"@);
    let y = text::replaced(b, '/', "__"@);
    if a.len() == 0 || b.len() == 0 {
        if a.len() > 0 {
            assert(x.len() > 0);
        }
        if b.len() > 0 {
            assert(y.len() > 0);
        }
        assert(a =~= b);
    } else {
        let p = a.drop_last();
        let q = b.drop_last();
        assert(a[a.len() - 1] == a.last());
        assert(b[b.len() - 1] == b.last());
        assert(a.contains(a.last()));
        assert(b.contains(b.last()));
        assert(x.last() == if a.last() == '/' {
            '_'
        } else {
            a.last()
        });
        assert(y.last() == if b.last() == '/' {
            '_'
        } else {
            b.last()
        });
        assert(a.last() == b.last());
        let n = if a.last() == '/' {
            2int
        } else {
            1int
        };
        assert(text::replaced(p, '/', "__"@) =~= x.take(x.len() - n));
        assert(text::replaced(q, '/', "__"@) =~= y.take(y.len() - n));
        assert forall|c: char| p.contains(c) implies a.contains(c) by {
            let i = choose|i: int| 0 <= i < p.len() && p[i] == c;
            assert(a[i] == c);
        }
        assert forall|c: char| q.contains(c) implies b.contains(c) by {
            let i = choose|i: int| 0 <= i < q.len() && q[i] == c;
            assert(b[i] == c);
        }
        lemma_safe_names_differ(p, q);
        assert(a =~= p.push(a.last()));
        assert(b =~= q.push(b.last()));
    }
}

/// Two versions of a package do not share a file, whatever its name.
pub proof fn law_files_of_versions_differ(
    name: Seq<char>,
    version: Seq<char>,
    other_version: Seq<char>,
)
    requires
        file_name(name, version) == file_name(name, other_version),
    ensures
        version == other_version,
{
    let front = text::replaced(name, '/', "__"@) + "@"@;
    let tail = ".v"@ + text::decimal_text(DISK_FORMAT as nat) + ".msgpack"@;
    let f = file_name(name, version);
    assert(f =~= front + version + tail);
    assert(f =~= front + other_version + tail);
    assert(version =~= f.subrange(front.len() as int, f.len() - tail.len()));
    assert(other_version =~= f.subrange(front.len() as int, f.len() - tail.len()));
}

/// Two packages whose names hold no underscore do not share a file. (With underscores
/// they may: `@a/b__c` and `@a__b/c` do.)
pub proof fn law_files_differ_for_names_without_underscores(
    name: Seq<char>,
    version: Seq<char>,
    other_name: Seq<char>,
    other_version: Seq<char>,
)
    requires
        !name.contains('_'),
        !other_name.contains('_'),
        !version.contains('@'),
        !other_version.contains('@'),
        file_name(name, version) == file_name(other_name, other_version),
    ensures
        name == other_name,
        version == other_version,
{
    reveal_strlit("@");
    let a = text::replaced(name, '/', "__"@);
    let b = text::replaced(other_name, '/', "__"@);
    let tail = ".v"@ + text::decimal_text(DISK_FORMAT as nat) + ".msgpack"@;
    let f = file_name(name, version);
    assert(f =~= a + "@"@ + version + tail);
    assert(f =~= b + "@"@ + other_version + tail);
    let x = a + "@"@ + version;
    let y = b + "@"@ + other_version;
    assert(x =~= f.take(f.len() - tail.len()));
    assert(y =~= f.take(f.len() - tail.len()));
    if a.len() < b.len() {
        assert(x[b.len() as int] == '@');
        assert(version[b.len() - a.len() - 1] == '@');
        assert(version.contains('@'));
    } else if b.len() < a.len() {
        assert(y[a.len() as int] == '@');
        assert(other_version[a.len() - b.len() - 1] == '@');
        assert(other_version.contains('@'));
    }
    assert(a =~= x.take(a.len() as int));
    assert(b =~= y.take(a.len() as int));
    assert(version =~= x.skip(a.len() as int + 1));
    assert(other_version =~= y.skip(a.len() as int + 1));
    lemma_safe_names_differ(name, other_name);
}

/// What is done about a file, case by case: an entry of format 4 is used as it is, all
/// else that a file holds is removed, and where nothing was read nothing is removed.
pub proof fn law_what_becomes_of_a_file(read: CacheRead)
    ensures
        (match read {
            CacheRead::Missing => decision(read) is Miss,
            CacheRead::Unreadable => decision(read) is Miss,
            CacheRead::Corrupt => decision(read) is Discard,
            CacheRead::Entry(envelope) => if envelope.format == 4 {
                decision(read) matches CacheDecision::Hit(module, dependencies) && module
                    == envelope.module && dependencies == envelope.dependencies
            } else {
                decision(read) is Discard
            },
        }),
{
}

/// Entries are made in format 4, of the module and of its dependencies.
pub proof fn law_format_of_an_entry(
    module: MinimalCachedModule,
    dependencies: ModuleDependenciesMap,
)
    ensures
        sealed(module, dependencies).format == 4,
        sealed(module, dependencies).module == module,
        sealed(module, dependencies).dependencies == dependencies,
{
}

/// How the file of an entry is called: `name@version.v4.msgpack`. The slash of a scoped
/// name is written as two underscores.
pub proof fn law_name_of_a_file(scope: Seq<char>, name: Seq<char>, version: Seq<char>)
    requires
        !scope.contains('/'),
        !name.contains('/'),
    ensures
        file_name(name, version) == name + "@"@ + version + ".v4.msgpack"@,
        file_name(scope + seq!['/'] + name, version) == scope + seq!['_', '_'] + name + "@"@
            + version + ".v4.msgpack"@,
{
    reveal_strlit(".v");
    reveal_strlit(".msgpack");
    reveal_strlit(".v4.msgpack");
    reveal_strlit("__");
    reveal_with_fuel(text::decimal_text, 2);
    let end = ".v"@ + text::decimal_text(4) + ".msgpack"@;
    assert(text::decimal_text(4) =~= seq!['4']);
    assert(end =~= ".v4.msgpack"@);
    text::law_replacing_is_local(name, name, '/', "__"@);
    text::law_replacing_is_local(scope, seq!['/'] + name, '/', "__"@);
    text::law_replacing_is_local(seq!['/'], name, '/', "__"@);
    text::law_replacing_is_local(scope, scope, '/', "__"@);
    assert(scope + seq!['/'] + name =~= scope + (seq!['/'] + name));
    assert("__"@ =~= seq!['_', '_']);
    assert(file_name(name, version) =~= name + "@"@ + version + end);
    assert(file_name(scope + seq!['/'] + name, version) =~= scope + seq!['_', '_'] + name + "@"@
        + version + end);
    assert(name + "@"@ + version + end =~= name + "@"@ + version + ".v4.msgpack"@);
}

} // verus!
