//! The registry entries that are known locally.
//!
//! They are kept in a database, which is asked from outside, and the last ones
//! used are kept in memory. Here stands what is kept in memory, and what follows
//! from the database's answers.

use vstd::prelude::*;

use crate::app_error::AppResult;
use crate::app_error::ServerError;
use crate::document::ManifestView;
use crate::document::MinimalPackageData;
use crate::str_map;
use crate::text;

verus! {

/// How many registry entries are kept in memory.
pub const MANIFEST_CACHE_SIZE: usize = 500;

/// `lru::LruCache`, a map that holds a limited number of entries and drops the one
/// that has not been used for the longest time.
#[verifier::external_type_specification]
#[verifier::external_body]
#[verifier::reject_recursive_types(K)]
#[verifier::reject_recursive_types(V)]
#[verifier::reject_recursive_types(S)]
pub struct ExLruCache<K, V, S>(lru::LruCache<K, V, S>);

/// `lru::DefaultHasher`, by which an `LruCache` finds its entries.
#[verifier::external_type_specification]
#[verifier::external_body]
pub struct ExDefaultHasher(lru::DefaultHasher);

/// What an `LruCache` holds, the entry that was used last standing first.
pub uninterp spec fn cache_entries(
    cache: lru::LruCache<String, MinimalPackageData>,
) -> Seq<(Seq<char>, MinimalPackageData)>;

/// How many entries an `LruCache` was made for.
pub uninterp spec fn cache_capacity(cache: lru::LruCache<String, MinimalPackageData>) -> nat;

/// The entries without that of `key`.
pub open spec fn dropped<V>(entries: Seq<(Seq<char>, V)>, key: Seq<char>) -> Seq<(Seq<char>, V)> {
    let i = str_map::key_index(entries, key, 0);
    if i < entries.len() {
        entries.remove(i)
    } else {
        entries
    }
}

/// The entries with that of `key` moved to the front.
pub open spec fn touched<V>(entries: Seq<(Seq<char>, V)>, key: Seq<char>) -> Seq<(Seq<char>, V)> {
    let i = str_map::key_index(entries, key, 0);
    if i < entries.len() {
        seq![entries[i]] + entries.remove(i)
    } else {
        entries
    }
}

/// The entries with `value` for `key` at the front. A new key takes the place of
/// the last entry when there are `capacity` of them.
pub open spec fn stored<V>(
    entries: Seq<(Seq<char>, V)>,
    key: Seq<char>,
    value: V,
    capacity: nat,
) -> Seq<(Seq<char>, V)> {
    let i = str_map::key_index(entries, key, 0);
    if i < entries.len() {
        seq![(key, value)] + entries.remove(i)
    } else if entries.len() == capacity {
        seq![(key, value)] + entries.drop_last()
    } else {
        seq![(key, value)] + entries
    }
}

/// `lru::LruCache::new`: an empty cache for `capacity` entries.
#[verifier::external_body]
fn new_cache(capacity: usize) -> (cache: lru::LruCache<String, MinimalPackageData>)
    requires
        0 < capacity <= MANIFEST_CACHE_SIZE,
    ensures
        cache_entries(cache) == Seq::<(Seq<char>, MinimalPackageData)>::empty(),
        cache_capacity(cache) == capacity,
{
    match std::num::NonZeroUsize::new(capacity) {
        Some(capacity) => lru::LruCache::new(capacity),
        None => lru::LruCache::new(std::num::NonZeroUsize::MIN),
    }
}

/// `lru::LruCache::get`: the value of a key, whose entry moves to the front.
#[verifier::external_body]
fn cache_get<'a>(
    cache: &'a mut lru::LruCache<String, MinimalPackageData>,
    key: &str,
) -> (r: Option<&'a MinimalPackageData>)
    ensures
        cache_entries(*final(cache)) == touched(cache_entries(*old(cache)), key@),
        cache_capacity(*final(cache)) == cache_capacity(*old(cache)),
        (match r {
            Some(value) => {
                let i = str_map::key_index(cache_entries(*old(cache)), key@, 0);
                i < cache_entries(*old(cache)).len() && *value == cache_entries(*old(cache))[i].1
            },
            None => str_map::key_index(cache_entries(*old(cache)), key@, 0) == cache_entries(
                *old(cache),
            ).len(),
        }),
{
    cache.get(key)
}

/// `lru::LruCache::put`: sets the value of a key, whose entry moves to the front;
/// a new key displaces the last entry of a full cache.
#[verifier::external_body]
fn cache_put(
    cache: &mut lru::LruCache<String, MinimalPackageData>,
    key: String,
    value: MinimalPackageData,
)
    ensures
        cache_entries(*final(cache)) == stored(
            cache_entries(*old(cache)),
            key@,
            value,
            cache_capacity(*old(cache)),
        ),
        cache_capacity(*final(cache)) == cache_capacity(*old(cache)),
{
    cache.put(key, value);
}

/// `lru::LruCache::pop`: removes the entry of a key, if there is one.
#[verifier::external_body]
fn cache_pop(cache: &mut lru::LruCache<String, MinimalPackageData>, key: &str)
    ensures
        cache_entries(*final(cache)) == dropped(cache_entries(*old(cache)), key@),
        cache_capacity(*final(cache)) == cache_capacity(*old(cache)),
{
    cache.pop(key);
}

/// The value of `key`.
pub open spec fn cached(entries: Seq<(Seq<char>, ManifestView)>, key: Seq<char>) -> Option<
    ManifestView,
> {
    let i = str_map::key_index(entries, key, 0);
    if i < entries.len() {
        Some(entries[i].1)
    } else {
        None
    }
}

/// The registry entries that are kept in memory.
pub struct NpmDatabase {
    cache: lru::LruCache<String, MinimalPackageData>,
}

impl View for NpmDatabase {
    type V = Seq<(Seq<char>, ManifestView)>;

    /// The entries, the one that was used last standing first.
    closed spec fn view(&self) -> Seq<(Seq<char>, ManifestView)> {
        str_map::with_values(cache_entries(self.cache), |d: MinimalPackageData| d@)
    }
}

/// No package stands twice among the entries, and there are not too many.
pub open spec fn sound(entries: Seq<(Seq<char>, ManifestView)>) -> bool {
    str_map::distinct_keys(entries) && entries.len() <= MANIFEST_CACHE_SIZE
}

/// The two ways in which an entry gets into the database.
#[derive(Debug, PartialEq, Eq, Structural)]
pub enum WritePlan {
    /// A package without versions is deleted.
    Delete,
    /// Any other takes the place of what is stored under its name.
    Store,
}

/// How a registry entry gets into the database.
pub open spec fn write_plan(pkg: ManifestView) -> WritePlan {
    if pkg.versions.len() == 0 {
        WritePlan::Delete
    } else {
        WritePlan::Store
    }
}

/// True when a package is known locally, `stored` telling whether the database knows it.
pub open spec fn known_locally(
    entries: Seq<(Seq<char>, ManifestView)>,
    name: Seq<char>,
    stored: bool,
) -> bool {
    cached(entries, name) is Some || stored
}

/// What is to be done for a package to be known locally.
#[derive(Debug, PartialEq, Eq)]
pub enum EnsurePlan {
    /// It is known already.
    Known,
    /// Its entry is to be taken from this address.
    Fetch(String),
}

proof fn lemma_key_index_with_values<V, W>(
    entries: Seq<(Seq<char>, V)>,
    f: spec_fn(V) -> W,
    key: Seq<char>,
    from: int,
)
    requires
        0 <= from <= entries.len(),
    ensures
        str_map::key_index(str_map::with_values(entries, f), key, from) == str_map::key_index(
            entries,
            key,
            from,
        ),
    decreases entries.len() - from,
{
    if from < entries.len() && entries[from].0 != key {
        lemma_key_index_with_values(entries, f, key, from + 1);
    }
}

/// What becomes of the entries becomes of what they say.
proof fn lemma_with_values<V, W>(
    entries: Seq<(Seq<char>, V)>,
    f: spec_fn(V) -> W,
    key: Seq<char>,
    value: V,
    capacity: nat,
)
    requires
        capacity > 0,
    ensures
        str_map::with_values(dropped(entries, key), f) == dropped(
            str_map::with_values(entries, f),
            key,
        ),
        str_map::with_values(touched(entries, key), f) == touched(
            str_map::with_values(entries, f),
            key,
        ),
        str_map::with_values(stored(entries, key, value, capacity), f) == stored(
            str_map::with_values(entries, f),
            key,
            f(value),
            capacity,
        ),
{
    let mapped = str_map::with_values(entries, f);
    lemma_key_index_with_values(entries, f, key, 0);
    str_map::lemma_key_index(entries, key, 0);
    assert(str_map::with_values(dropped(entries, key), f) =~= dropped(mapped, key));
    assert(str_map::with_values(touched(entries, key), f) =~= touched(mapped, key));
    assert(str_map::with_values(stored(entries, key, value, capacity), f) =~= stored(
        mapped,
        key,
        f(value),
        capacity,
    ));
}

impl NpmDatabase {
    /// The cache is one for [`MANIFEST_CACHE_SIZE`] entries, and in good order.
    pub closed spec fn well_formed(&self) -> bool {
        &&& cache_capacity(self.cache) == MANIFEST_CACHE_SIZE
        &&& sound(self@)
    }

    pub fn new() -> (db: Self)
        ensures
            db.well_formed(),
            db@ == Seq::<(Seq<char>, ManifestView)>::empty(),
    {
        let db = NpmDatabase { cache: new_cache(MANIFEST_CACHE_SIZE) };
        assert(db@ =~= Seq::empty());
        db
    }

    /// No package is kept in memory twice, and never more than
    /// [`MANIFEST_CACHE_SIZE`] are.
    pub proof fn law_memory_is_bounded(&self)
        requires
            self.well_formed(),
        ensures
            sound(self@),
    {
    }

    /// The entry of a package, if it is kept in memory.
    pub fn cached_package(&mut self, name: &str) -> (r: Option<MinimalPackageData>)
        requires
            old(self).well_formed(),
        ensures
            final(self).well_formed(),
            final(self)@ == touched(old(self)@, name@),
            (match r {
                Some(data) => cached(old(self)@, name@) == Some(data@),
                None => cached(old(self)@, name@) is None,
            }),
    {
        proof {
            let f = |d: MinimalPackageData| d@;
            let entries = cache_entries(self.cache);
            lemma_key_index_with_values(entries, f, name@, 0);
            str_map::lemma_key_index(entries, name@, 0);
            lemma_with_values(entries, f, name@, arbitrary(), 1);
            lemma_sound_touched(self@, name@);
        }
        match cache_get(&mut self.cache, name) {
            Some(data) => Some(data.clone()),
            None => None,
        }
    }

    /// True when a package is known locally, `stored` telling whether the database
    /// knows it; the database need not be asked about what is kept in memory.
    pub fn has_package(&mut self, name: &str, stored: bool) -> (r: bool)
        requires
            old(self).well_formed(),
        ensures
            final(self).well_formed(),
            final(self)@ == touched(old(self)@, name@),
            r == known_locally(old(self)@, name@, stored),
    {
        self.cached_package(name).is_some() || stored
    }

    /// What is to be done for a package to be known locally, `stored` telling whether
    /// the database knows it: nothing if it is, and otherwise its entry is taken from
    /// the registry.
    pub fn ensure_package(&mut self, name: &str, stored: bool) -> (plan: EnsurePlan)
        requires
            old(self).well_formed(),
        ensures
            final(self).well_formed(),
            final(self)@ == touched(old(self)@, name@),
            (match plan {
                EnsurePlan::Known => known_locally(old(self)@, name@, stored),
                EnsurePlan::Fetch(url) => !known_locally(old(self)@, name@, stored) && url@
                    == registry_address(name@),
            }),
    {
        if self.has_package(name, stored) {
            EnsurePlan::Known
        } else {
            EnsurePlan::Fetch(registry_url(name))
        }
    }

    fn forget(&mut self, name: &str)
        requires
            old(self).well_formed(),
        ensures
            final(self).well_formed(),
            final(self)@ == dropped(old(self)@, name@),
    {
        proof {
            lemma_with_values(
                cache_entries(self.cache),
                |d: MinimalPackageData| d@,
                name@,
                arbitrary(),
                1,
            );
            lemma_sound_dropped(self@, name@);
        }
        cache_pop(&mut self.cache, name);
    }

    /// What follows when the database has been told to delete a package, `outcome`
    /// being its answer: what is kept in memory of the package is forgotten.
    pub fn delete_package(&mut self, name: &str, outcome: AppResult<usize>) -> (r: AppResult<usize>)
        requires
            old(self).well_formed(),
        ensures
            final(self).well_formed(),
            r == outcome,
            final(self)@ == (if outcome is Ok {
                dropped(old(self)@, name@)
            } else {
                old(self)@
            }),
    {
        if outcome.is_ok() {
            self.forget(name);
        }
        outcome
    }

    /// How a registry entry is written to the database.
    pub fn plan_write(pkg: &MinimalPackageData) -> (plan: WritePlan)
        ensures
            plan == write_plan(pkg@),
    {
        if pkg.versions.is_empty() {
            WritePlan::Delete
        } else {
            WritePlan::Store
        }
    }

    /// What follows when a registry entry has been written as planned: what is kept
    /// in memory of the package is out of date.
    pub fn write_package(&mut self, name: &str, outcome: AppResult<usize>) -> (r: AppResult<usize>)
        requires
            old(self).well_formed(),
        ensures
            final(self).well_formed(),
            r == outcome,
            final(self)@ == (if outcome is Ok {
                dropped(old(self)@, name@)
            } else {
                old(self)@
            }),
    {
        if outcome.is_ok() {
            self.forget(name);
        }
        outcome
    }

    /// The entry of a package that was not kept in memory, `stored` being what the
    /// database has of it. From now on it is kept in memory.
    pub fn get_package(
        &mut self,
        name: &str,
        stored: AppResult<Option<MinimalPackageData>>,
    ) -> (r: AppResult<MinimalPackageData>)
        requires
            old(self).well_formed(),
        ensures
            final(self).well_formed(),
            (match stored {
                Ok(Some(data)) => r is Ok && r->Ok_0@ == data@ && final(self)@ == self::stored(
                    old(self)@,
                    name@,
                    data@,
                    MANIFEST_CACHE_SIZE as nat,
                ),
                Ok(None) => (r matches Err(ServerError::PackageNotFound(n)) && n@ == name@)
                    && final(self)@ == old(self)@,
                Err(err) => r matches Err(e) && e == err && final(self)@ == old(self)@,
            }),
    {
        match stored {
            Ok(Some(data)) => {
                let copy: MinimalPackageData = data.clone();
                proof {
                    lemma_with_values(
                        cache_entries(self.cache),
                        |d: MinimalPackageData| d@,
                        name@,
                        copy,
                        MANIFEST_CACHE_SIZE as nat,
                    );
                    lemma_sound_stored(self@, name@, data@);
                }
                cache_put(&mut self.cache, name.to_string(), copy);
                Ok(data)
            },
            Ok(None) => Err(ServerError::PackageNotFound(name.to_string())),
            Err(err) => Err(err),
        }
    }
}

proof fn lemma_sound_dropped(entries: Seq<(Seq<char>, ManifestView)>, key: Seq<char>)
    requires
        sound(entries),
    ensures
        sound(dropped(entries, key)),
        cached(dropped(entries, key), key) is None,
        forall|k: Seq<char>|
            k != key ==> #[trigger] cached(dropped(entries, key), k) == cached(entries, k),
{
    let after = dropped(entries, key);
    let i = str_map::key_index(entries, key, 0);
    str_map::lemma_key_index(entries, key, 0);
    str_map::lemma_key_index(after, key, 0);
    assert forall|a: int, b: int| 0 <= a < b < after.len() implies (#[trigger] after[a]).0 != (
    #[trigger] after[b]).0 by {
        let x = if a < i { a } else { a + 1 };
        let y = if b < i { b } else { b + 1 };
        if i < entries.len() {
            assert(entries[x].0 != entries[y].0);
        } else {
            assert(entries[a].0 != entries[b].0);
        }
    }
    if i < entries.len() {
        assert forall|a: int| 0 <= a < after.len() implies (#[trigger] after[a]).0 != key by {
            if a < i {
                assert(entries[a].0 != key);
            } else {
                assert(entries[i].0 != entries[a + 1].0);
            }
        }
    }
    assert forall|k: Seq<char>| k != key implies #[trigger] cached(after, k) == cached(
        entries,
        k,
    ) by {
        assert forall|a: int|
            0 <= a < entries.len() && (#[trigger] entries[a]).0 == k implies after.contains(
            entries[a],
        ) by {
            assert(after[if a < i { a } else { a - 1 }] == entries[a]);
        }
        assert forall|a: int| 0 <= a < after.len() implies entries.contains(#[trigger] after[a]) by {
            assert(after[a] == entries[if a < i { a } else { a + 1 }]);
        }
        lemma_cached_elsewhere(entries, after, k);
    }
}

/// Two sound lists that have the same entry for a key, or both none, agree on it.
proof fn lemma_cached_elsewhere(
    a: Seq<(Seq<char>, ManifestView)>,
    b: Seq<(Seq<char>, ManifestView)>,
    k: Seq<char>,
)
    requires
        str_map::distinct_keys(a),
        str_map::distinct_keys(b),
        forall|i: int|
            0 <= i < a.len() && (#[trigger] a[i]).0 == k ==> b.contains(a[i]),
        forall|i: int|
            0 <= i < b.len() && (#[trigger] b[i]).0 == k ==> a.contains(b[i]),
    ensures
        cached(a, k) == cached(b, k),
{
    str_map::lemma_key_index(a, k, 0);
    str_map::lemma_key_index(b, k, 0);
    let i = str_map::key_index(a, k, 0);
    let j = str_map::key_index(b, k, 0);
    if i < a.len() {
        assert(b.contains(a[i]));
        let m = choose|m: int| 0 <= m < b.len() && b[m] == a[i];
        assert(b[m].0 == k);
        if j < m {
            assert(b[j].0 != b[m].0);
        }
    } else if j < b.len() {
        assert(a.contains(b[j]));
        let m = choose|m: int| 0 <= m < a.len() && a[m] == b[j];
        assert(a[m].0 == k);
    }
}

/// An entry with a new key in front of others.
proof fn lemma_in_front(
    rest: Seq<(Seq<char>, ManifestView)>,
    key: Seq<char>,
    value: ManifestView,
)
    requires
        str_map::distinct_keys(rest),
        cached(rest, key) is None,
    ensures
        str_map::distinct_keys(seq![(key, value)] + rest),
        cached(seq![(key, value)] + rest, key) == Some(value),
        forall|k: Seq<char>|
            k != key ==> #[trigger] cached(seq![(key, value)] + rest, k) == cached(rest, k),
{
    let after = seq![(key, value)] + rest;
    str_map::lemma_key_index(rest, key, 0);
    assert forall|a: int, b: int| 0 <= a < b < after.len() implies (#[trigger] after[a]).0 != (
    #[trigger] after[b]).0 by {
        assert(after[b] == rest[b - 1]);
        if a > 0 {
            assert(rest[a - 1].0 != rest[b - 1].0);
        }
    }
    assert(after[0].0 == key);
    assert forall|k: Seq<char>| k != key implies #[trigger] cached(after, k) == cached(rest, k) by {
        assert forall|i: int| 0 <= i < rest.len() implies after.contains(#[trigger] rest[i]) by {
            assert(after[i + 1] == rest[i]);
        }
        assert forall|i: int|
            0 <= i < after.len() && (#[trigger] after[i]).0 == k implies rest.contains(
            after[i],
        ) by {
            assert(after[i] == rest[i - 1]);
        }
        lemma_cached_elsewhere(rest, after, k);
    }
}

proof fn lemma_sound_touched(entries: Seq<(Seq<char>, ManifestView)>, key: Seq<char>)
    requires
        sound(entries),
    ensures
        sound(touched(entries, key)),
        forall|k: Seq<char>| #[trigger] cached(touched(entries, key), k) == cached(entries, k),
{
    let i = str_map::key_index(entries, key, 0);
    str_map::lemma_key_index(entries, key, 0);
    if i < entries.len() {
        lemma_sound_dropped(entries, key);
        let rest = dropped(entries, key);
        assert(touched(entries, key) == seq![(key, entries[i].1)] + rest);
        lemma_in_front(rest, key, entries[i].1);
        assert forall|k: Seq<char>| #[trigger] cached(touched(entries, key), k) == cached(
            entries,
            k,
        ) by {
            if k != key {
                assert(cached(rest, k) == cached(entries, k));
            }
        }
    }
}

proof fn lemma_sound_stored(
    entries: Seq<(Seq<char>, ManifestView)>,
    key: Seq<char>,
    value: ManifestView,
)
    requires
        sound(entries),
    ensures
        sound(stored(entries, key, value, MANIFEST_CACHE_SIZE as nat)),
        cached(stored(entries, key, value, MANIFEST_CACHE_SIZE as nat), key) == Some(value),
{
    let i = str_map::key_index(entries, key, 0);
    str_map::lemma_key_index(entries, key, 0);
    if i < entries.len() {
        lemma_sound_dropped(entries, key);
        lemma_in_front(dropped(entries, key), key, value);
    } else if entries.len() == MANIFEST_CACHE_SIZE {
        let rest = entries.drop_last();
        assert forall|a: int, b: int| 0 <= a < b < rest.len() implies (#[trigger] rest[a]).0 != (
        #[trigger] rest[b]).0 by {
            assert(entries[a].0 != entries[b].0);
        }
        str_map::lemma_key_index(rest, key, 0);
        assert(forall|a: int| 0 <= a < rest.len() ==> rest[a] == entries[a]);
        lemma_in_front(rest, key, value);
    } else {
        lemma_in_front(entries, key, value);
    }
}

/// Looking a package up changes nothing of what is kept in memory but the order.
pub proof fn law_lookup_keeps_the_entries(
    entries: Seq<(Seq<char>, ManifestView)>,
    name: Seq<char>,
    other: Seq<char>,
)
    requires
        sound(entries),
    ensures
        sound(touched(entries, name)),
        cached(touched(entries, name), other) == cached(entries, other),
{
    lemma_sound_touched(entries, name);
}

/// What has been written or deleted is not answered from memory any more; all other
/// packages are as before.
pub proof fn law_changed_package_is_forgotten(
    entries: Seq<(Seq<char>, ManifestView)>,
    name: Seq<char>,
    other: Seq<char>,
)
    requires
        sound(entries),
    ensures
        sound(dropped(entries, name)),
        cached(dropped(entries, name), name) is None,
        other != name ==> cached(dropped(entries, name), other) == cached(entries, other),
{
    lemma_sound_dropped(entries, name);
}

/// What the database gave is answered from memory the next time.
pub proof fn law_loaded_package_is_kept(
    entries: Seq<(Seq<char>, ManifestView)>,
    name: Seq<char>,
    data: ManifestView,
)
    requires
        sound(entries),
    ensures
        sound(stored(entries, name, data, MANIFEST_CACHE_SIZE as nat)),
        cached(stored(entries, name, data, MANIFEST_CACHE_SIZE as nat), name) == Some(data),
{
    lemma_sound_stored(entries, name, data);
}

/// As long as there is room, keeping one more package displaces none.
pub proof fn law_nothing_is_displaced_while_there_is_room(
    entries: Seq<(Seq<char>, ManifestView)>,
    name: Seq<char>,
    data: ManifestView,
    other: Seq<char>,
)
    requires
        sound(entries),
        entries.len() < MANIFEST_CACHE_SIZE,
        other != name,
    ensures
        cached(stored(entries, name, data, MANIFEST_CACHE_SIZE as nat), other) == cached(
            entries,
            other,
        ),
{
    let i = str_map::key_index(entries, name, 0);
    str_map::lemma_key_index(entries, name, 0);
    if i < entries.len() {
        lemma_sound_dropped(entries, name);
        lemma_in_front(dropped(entries, name), name, data);
        assert(cached(dropped(entries, name), other) == cached(entries, other));
        assert(cached(seq![(name, data)] + dropped(entries, name), other) == cached(
            dropped(entries, name),
            other,
        ));
    } else {
        lemma_in_front(entries, name, data);
        assert(cached(seq![(name, data)] + entries, other) == cached(entries, other));
    }
}

/// Keeping one more package may displace another, but changes what is kept of none.
pub proof fn law_kept_packages_stay_as_they_are(
    entries: Seq<(Seq<char>, ManifestView)>,
    name: Seq<char>,
    data: ManifestView,
    other: Seq<char>,
)
    requires
        sound(entries),
        other != name,
    ensures
        cached(stored(entries, name, data, MANIFEST_CACHE_SIZE as nat), other) is Some ==> cached(
            stored(entries, name, data, MANIFEST_CACHE_SIZE as nat),
            other,
        ) == cached(entries, other),
{
    let i = str_map::key_index(entries, name, 0);
    str_map::lemma_key_index(entries, name, 0);
    if i < entries.len() {
        lemma_sound_dropped(entries, name);
        lemma_in_front(dropped(entries, name), name, data);
        assert(cached(dropped(entries, name), other) == cached(entries, other));
    } else if entries.len() == MANIFEST_CACHE_SIZE {
        let rest = entries.drop_last();
        assert forall|a: int, b: int| 0 <= a < b < rest.len() implies (#[trigger] rest[a]).0 != (
        #[trigger] rest[b]).0 by {
            assert(entries[a].0 != entries[b].0);
        }
        assert(forall|a: int| 0 <= a < rest.len() ==> rest[a] == entries[a]);
        str_map::lemma_key_index(rest, name, 0);
        lemma_in_front(rest, name, data);
        str_map::lemma_key_index(rest, other, 0);
        str_map::lemma_key_index(entries, other, 0);
        let k = str_map::key_index(rest, other, 0);
        if k < rest.len() {
            assert(entries[k].0 == other);
            assert(str_map::key_index(entries, other, 0) == k);
        }
        assert(cached(seq![(name, data)] + rest, other) == cached(rest, other));
    } else {
        law_nothing_is_displaced_while_there_is_room(entries, name, data, other);
    }
}

/// The address of a package's entry in the registry. The slash of a scoped name is
/// written as `%2f`.
pub open spec fn registry_address(name: Seq<char>) -> Seq<char> {
    "https://registry.npmjs.org/"@ + text::replaced(name, '/', "%2f"@)
}

pub fn registry_url(name: &str) -> (url: String)
    ensures
        url@ == registry_address(name@),
{
    let mut url: String = "https://registry.npmjs.org/".to_string();
    url.append(text::replace_char(name, '/', "%2f").as_str());
    url
}

/// True of the statuses that tell of a success.
pub open spec fn is_success(status_code: u16) -> bool {
    200 <= status_code <= 299
}

/// Takes the status of the registry's answer: anything but a success is a failure
/// to download the entry.
pub fn check_manifest_status(status_code: u16, name: &str) -> (r: AppResult<()>)
    ensures
        is_success(status_code) ==> r is Ok,
        !is_success(status_code) ==> (r matches Err(
            ServerError::NpmManifestDownloadError { status_code: status, package_name },
        ) && status == status_code && package_name@ == name@),
{
    if 200 <= status_code && status_code <= 299 {
        Ok(())
    } else {
        Err(ServerError::NpmManifestDownloadError { status_code, package_name: name.to_string() })
    }
}

/// What follows when the registry's entry `pkg` for the package `name` has been written,
/// `outcome` being the database's answer: one without versions was not stored, and the
/// package is reported as not found.
pub fn entry_stored(
    name: &str,
    pkg: &MinimalPackageData,
    outcome: AppResult<usize>,
) -> (r: AppResult<()>)
    ensures
        (match outcome {
            Err(err) => r matches Err(e) && e == err,
            Ok(_) => match write_plan(pkg@) {
                WritePlan::Store => r is Ok,
                WritePlan::Delete => r matches Err(ServerError::PackageNotFound(n)) && n@ == name@,
            },
        }),
{
    match outcome {
        Err(err) => Err(err),
        Ok(_) => match NpmDatabase::plan_write(pkg) {
            WritePlan::Store => Ok(()),
            WritePlan::Delete => Err(ServerError::PackageNotFound(name.to_string())),
        },
    }
}

/// What is kept of a package is the value that stands beside its name.
pub proof fn law_kept_value_stands_beside_the_name(
    entries: Seq<(Seq<char>, ManifestView)>,
    name: Seq<char>,
    data: ManifestView,
)
    requires
        str_map::distinct_keys(entries),
    ensures
        cached(entries, name) == Some(data) <==> entries.contains((name, data)),
        cached(entries, name) is None <==> forall|i: int|
            0 <= i < entries.len() ==> (#[trigger] entries[i]).0 != name,
{
    str_map::lemma_key_index(entries, name, 0);
    let i = str_map::key_index(entries, name, 0);
    if entries.contains((name, data)) {
        let k = choose|k: int| 0 <= k < entries.len() && entries[k] == (name, data);
        assert(entries[k].0 == name);
        assert(i == k) by {
            if i < k {
                assert(entries[i].0 != entries[k].0);
            }
        }
    }
    if i < entries.len() {
        assert(entries[i].0 == name);
    }
}

proof fn lemma_without_one<V>(entries: Seq<(Seq<char>, V)>, i: int, key: Seq<char>)
    requires
        0 <= i < entries.len(),
        entries[i].0 == key,
        str_map::distinct_keys(entries),
    ensures
        entries.remove(i) == entries.filter(|e: (Seq<char>, V)| e.0 != key),
    decreases entries.len(),
{
    reveal(Seq::filter);
    let others = |e: (Seq<char>, V)| e.0 != key;
    let init = entries.drop_last();
    if i == entries.len() - 1 {
        assert(entries.remove(i) =~= init);
        assert forall|k: int| 0 <= k < init.len() implies (#[trigger] init[k]).0 != key by {
            assert(entries[k].0 != entries[i].0);
        }
        lemma_all_others(init, key);
        assert(!others(entries.last()));
        assert(entries.filter(others) == init.filter(others));
    } else {
        assert forall|a: int, b: int| 0 <= a < b < init.len() implies (#[trigger] init[a]).0 != (
        #[trigger] init[b]).0 by {
            assert(entries[a].0 != entries[b].0);
        }
        assert(init[i] == entries[i]);
        lemma_without_one(init, i, key);
        assert(entries.last() == entries[entries.len() - 1]);
        assert(entries[i].0 != entries[entries.len() - 1].0);
        assert(others(entries.last()));
        assert(entries.filter(others) == init.filter(others).push(entries.last()));
        assert(entries.remove(i) =~= init.remove(i).push(entries.last()));
    }
}

proof fn lemma_all_others<V>(entries: Seq<(Seq<char>, V)>, key: Seq<char>)
    requires
        forall|i: int| 0 <= i < entries.len() ==> (#[trigger] entries[i]).0 != key,
    ensures
        entries.filter(|e: (Seq<char>, V)| e.0 != key) == entries,
    decreases entries.len(),
{
    reveal(Seq::filter);
    if entries.len() > 0 {
        let init = entries.drop_last();
        assert forall|i: int| 0 <= i < init.len() implies (#[trigger] init[i]).0 != key by {
            assert(init[i] == entries[i]);
        }
        lemma_all_others(init, key);
        assert(entries[entries.len() - 1].0 != key);
        assert(entries =~= init.push(entries.last()));
    }
}

/// What the calls make of the list of what is kept, which has what was used last in front.
/// A package that is forgotten goes, and the others keep their order. One that is looked up
/// comes to the front, if it is kept. One that is loaded comes to the front with its new
/// entry; if it was not kept before and there is no room, the last one goes.
pub proof fn law_what_was_used_last_stands_first(
    entries: Seq<(Seq<char>, ManifestView)>,
    name: Seq<char>,
    data: ManifestView,
    capacity: nat,
)
    requires
        str_map::distinct_keys(entries),
    ensures
        dropped(entries, name) == entries.filter(|e: (Seq<char>, ManifestView)| e.0 != name),
        forall|i: int|
            0 <= i < entries.len() && (#[trigger] entries[i]).0 == name ==> touched(entries, name)
                == seq![entries[i]] + entries.filter(
                |e: (Seq<char>, ManifestView)| e.0 != name,
            ),
        forall|i: int|
            0 <= i < entries.len() && (#[trigger] entries[i]).0 == name ==> stored(
                entries,
                name,
                data,
                capacity,
            ) == seq![(name, data)] + entries.filter(|e: (Seq<char>, ManifestView)| e.0 != name),
        (forall|i: int| 0 <= i < entries.len() ==> (#[trigger] entries[i]).0 != name) ==> touched(
            entries,
            name,
        ) == entries && stored(entries, name, data, capacity) == seq![(name, data)] + (
        if entries.len() == capacity {
            entries.drop_last()
        } else {
            entries
        }),
{
    str_map::lemma_key_index(entries, name, 0);
    let at = str_map::key_index(entries, name, 0);
    if at < entries.len() {
        assert(entries[at].0 == name);
        lemma_without_one(entries, at, name);
        assert forall|i: int| 0 <= i < entries.len() && (#[trigger] entries[i]).0 == name implies i
            == at by {
            if at < i {
                assert(entries[at].0 != entries[i].0);
            }
        }
    } else {
        lemma_all_others(entries, name);
    }
}

/// Five hundred packages are kept in memory, and no package twice.
pub proof fn law_room_in_memory(entries: Seq<(Seq<char>, ManifestView)>)
    ensures
        MANIFEST_CACHE_SIZE == 500,
        sound(entries) <==> entries.len() <= 500 && forall|i: int, j: int|
            0 <= i < j < entries.len() ==> (#[trigger] entries[i]).0 != (#[trigger] entries[j]).0,
{
}

/// A package is known locally if it is kept in memory or stored in the database. An entry
/// goes into the database if it has versions; otherwise the package is deleted there.
pub proof fn law_what_is_known_and_what_is_stored(
    entries: Seq<(Seq<char>, ManifestView)>,
    name: Seq<char>,
    stored: bool,
    pkg: ManifestView,
)
    ensures
        stored ==> known_locally(entries, name, stored),
        !stored ==> (known_locally(entries, name, stored) <==> cached(entries, name) is Some),
        write_plan(pkg) == WritePlan::Delete <==> pkg.versions.len() == 0,
        write_plan(pkg) == WritePlan::Store <==> pkg.versions.len() > 0,
{
}

/// The entry of a package stands at its name in the registry, that of a scoped package
/// with `%2f` for the slash.
pub proof fn law_where_the_registry_has_a_package(scope: Seq<char>, name: Seq<char>)
    requires
        !scope.contains('/'),
        !name.contains('/'),
    ensures
        registry_address(name) == "https://registry.npmjs.org/"@ + name,
        registry_address(scope + seq!['/'] + name) == "https://registry.npmjs.org/"@ + scope
            + seq!['%', '2', 'f'] + name,
{
    reveal_strlit("%2f");
    text::law_replacing_is_local(name, name, '/', "%2f"@);
    text::law_replacing_is_local(scope, seq!['/'] + name, '/', "%2f"@);
    text::law_replacing_is_local(seq!['/'], name, '/', "%2f"@);
    text::law_replacing_is_local(scope, scope, '/', "%2f"@);
    assert(scope + seq!['/'] + name =~= scope + (seq!['/'] + name));
    assert("%2f"@ =~= seq!['%', '2', 'f']);
    assert(registry_address(scope + seq!['/'] + name) =~= "https://registry.npmjs.org/"@ + scope
        + seq!['%', '2', 'f'] + name);
}

/// A status tells of a success if it is one of the two hundreds.
pub proof fn law_statuses_of_success(status_code: u16)
    ensures
        is_success(status_code) <==> status_code as int / 100 == 2,
{
}

} // verus!
