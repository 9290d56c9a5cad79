//! Maps and sets with string keys, in which no key occurs twice.

use vstd::prelude::*;

use crate::text;

verus! {

/// The map that results from inserting `entries` one after the other.
pub open spec fn map_of<V>(entries: Seq<(Seq<char>, V)>) -> Map<Seq<char>, V>
    decreases entries.len(),
{
    if entries.len() == 0 {
        Map::empty()
    } else {
        map_of(entries.drop_last()).insert(entries.last().0, entries.last().1)
    }
}

/// No two entries have the same key.
pub open spec fn distinct_keys<V>(entries: Seq<(Seq<char>, V)>) -> bool {
    forall|i: int, j: int|
        0 <= i < j < entries.len() ==> (#[trigger] entries[i]).0 != (#[trigger] entries[j]).0
}

/// The entries after `key` is set to `value`: in the place that the key has, or
/// at the end when it is new.
pub open spec fn put<V>(entries: Seq<(Seq<char>, V)>, key: Seq<char>, value: V) -> Seq<
    (Seq<char>, V),
> {
    if map_of(entries).contains_key(key) {
        entries.map_values(
            |e: (Seq<char>, V)|
                if e.0 == key {
                    (key, value)
                } else {
                    e
                },
        )
    } else {
        entries.push((key, value))
    }
}

/// The keys of the map are the keys of the entries.
pub proof fn lemma_map_of_keys<V>(entries: Seq<(Seq<char>, V)>, key: Seq<char>)
    ensures
        map_of(entries).contains_key(key) <==> exists|i: int|
            0 <= i < entries.len() && (#[trigger] entries[i]).0 == key,
    decreases entries.len(),
{
    if entries.len() > 0 {
        let rest = entries.drop_last();
        lemma_map_of_keys(rest, key);
        if exists|i: int| 0 <= i < entries.len() && (#[trigger] entries[i]).0 == key {
            let i = choose|i: int| 0 <= i < entries.len() && (#[trigger] entries[i]).0 == key;
            if i < rest.len() {
                assert(rest[i].0 == key);
            }
        }
        if exists|i: int| 0 <= i < rest.len() && (#[trigger] rest[i]).0 == key {
            let i = choose|i: int| 0 <= i < rest.len() && (#[trigger] rest[i]).0 == key;
            assert(entries[i].0 == key);
        }
        assert(entries[entries.len() - 1] == entries.last());
    }
}

/// An entry whose key occurs once is found in the map.
pub proof fn lemma_map_of_entry<V>(entries: Seq<(Seq<char>, V)>, i: int)
    requires
        distinct_keys(entries),
        0 <= i < entries.len(),
    ensures
        map_of(entries).contains_key(entries[i].0),
        map_of(entries)[entries[i].0] == entries[i].1,
    decreases entries.len(),
{
    let rest = entries.drop_last();
    if i < rest.len() {
        assert(distinct_keys(rest)) by {
            assert forall|a: int, b: int| 0 <= a < b < rest.len() implies (#[trigger] rest[a]).0
                != (#[trigger] rest[b]).0 by {
                assert(entries[a].0 != entries[b].0);
            }
        }
        lemma_map_of_entry(rest, i);
        assert(entries[i].0 != entries[entries.len() - 1].0);
        assert(rest[i] == entries[i]);
    }
}

/// A table holds its entries and nothing else: each key has the value that stands beside
/// it, and there are no other keys.
pub proof fn law_table_holds_its_entries<V>(entries: Seq<(Seq<char>, V)>)
    requires
        distinct_keys(entries),
    ensures
        forall|i: int|
            0 <= i < entries.len() ==> map_of(entries).contains_key((#[trigger] entries[i]).0)
                && map_of(entries)[entries[i].0] == entries[i].1,
        forall|key: Seq<char>| #[trigger]
            map_of(entries).contains_key(key) ==> exists|i: int|
                0 <= i < entries.len() && (#[trigger] entries[i]).0 == key,
{
    assert forall|i: int| 0 <= i < entries.len() implies map_of(entries).contains_key(
        (#[trigger] entries[i]).0,
    ) && map_of(entries)[entries[i].0] == entries[i].1 by {
        lemma_map_of_entry(entries, i);
    }
    assert forall|key: Seq<char>| #[trigger] map_of(entries).contains_key(key) implies exists|
        i: int,
    |
        0 <= i < entries.len() && (#[trigger] entries[i]).0 == key by {
        lemma_map_of_keys(entries, key);
    }
}

proof fn lemma_map_of_push<V>(entries: Seq<(Seq<char>, V)>, key: Seq<char>, value: V)
    ensures
        map_of(entries.push((key, value))) == map_of(entries).insert(key, value),
{
    assert(entries.push((key, value)).drop_last() =~= entries);
}

proof fn lemma_map_of_update<V>(entries: Seq<(Seq<char>, V)>, i: int, value: V)
    requires
        distinct_keys(entries),
        0 <= i < entries.len(),
    ensures
        map_of(entries.update(i, (entries[i].0, value))) == map_of(entries).insert(
            entries[i].0,
            value,
        ),
        distinct_keys(entries.update(i, (entries[i].0, value))),
{
    let key = entries[i].0;
    let changed = entries.update(i, (key, value));
    assert forall|a: int, b: int| 0 <= a < b < changed.len() implies (#[trigger] changed[a]).0 != (
    #[trigger] changed[b]).0 by {
        assert(entries[a].0 != entries[b].0);
    }
    lemma_map_of_entry(changed, i);
    assert forall|k: Seq<char>| map_of(changed).contains_key(k) <==> map_of(entries).contains_key(
        k,
    ) by {
        lemma_map_of_keys(changed, k);
        lemma_map_of_keys(entries, k);
        if exists|j: int| 0 <= j < entries.len() && (#[trigger] entries[j]).0 == k {
            let j = choose|j: int| 0 <= j < entries.len() && (#[trigger] entries[j]).0 == k;
            assert(changed[j].0 == k);
        }
        if exists|j: int| 0 <= j < changed.len() && (#[trigger] changed[j]).0 == k {
            let j = choose|j: int| 0 <= j < changed.len() && (#[trigger] changed[j]).0 == k;
            assert(entries[j].0 == k);
        }
    }
    lemma_map_of_entry(entries, i);
    assert forall|k: Seq<char>| #[trigger]
        map_of(entries).contains_key(k) && k != key implies map_of(changed)[k] == map_of(
        entries,
    )[k] by {
        lemma_map_of_keys(entries, k);
        let j = choose|j: int| 0 <= j < entries.len() && (#[trigger] entries[j]).0 == k;
        lemma_map_of_entry(entries, j);
        lemma_map_of_entry(changed, j);
        assert(changed[j] == entries[j]);
    }
    assert(map_of(changed) =~= map_of(entries).insert(key, value));
}

/// The entries with `f` applied to each value.
pub open spec fn with_values<V, W>(entries: Seq<(Seq<char>, V)>, f: spec_fn(V) -> W) -> Seq<
    (Seq<char>, W),
> {
    entries.map_values(|e: (Seq<char>, V)| (e.0, f(e.1)))
}

/// Setting a key commutes with a change of the values.
pub proof fn lemma_put_with_values<V, W>(
    entries: Seq<(Seq<char>, V)>,
    f: spec_fn(V) -> W,
    key: Seq<char>,
    value: V,
)
    ensures
        map_of(with_values(entries, f)).contains_key(key) <==> map_of(entries).contains_key(key),
        with_values(put(entries, key, value), f) == put(with_values(entries, f), key, f(value)),
{
    let mapped = with_values(entries, f);
    lemma_map_of_keys(entries, key);
    lemma_map_of_keys(mapped, key);
    if exists|i: int| 0 <= i < entries.len() && (#[trigger] entries[i]).0 == key {
        let i = choose|i: int| 0 <= i < entries.len() && (#[trigger] entries[i]).0 == key;
        assert(mapped[i].0 == key);
    }
    if exists|i: int| 0 <= i < mapped.len() && (#[trigger] mapped[i]).0 == key {
        let i = choose|i: int| 0 <= i < mapped.len() && (#[trigger] mapped[i]).0 == key;
        assert(entries[i].0 == key);
    }
    assert(with_values(put(entries, key, value), f) =~= put(mapped, key, f(value)));
}

/// Setting a key changes the map at that key only.
pub proof fn lemma_put_map<V>(entries: Seq<(Seq<char>, V)>, key: Seq<char>, value: V)
    requires
        distinct_keys(entries),
    ensures
        map_of(put(entries, key, value)) == map_of(entries).insert(key, value),
{
    lemma_map_of_keys(entries, key);
    if map_of(entries).contains_key(key) {
        let i = choose|i: int| 0 <= i < entries.len() && (#[trigger] entries[i]).0 == key;
        assert forall|j: int| 0 <= j < entries.len() && j != i implies (#[trigger] entries[j]).0
            != key by {
            if j < i {
                assert(entries[j].0 != entries[i].0);
            } else {
                assert(entries[i].0 != entries[j].0);
            }
        }
        assert(entries.update(i, (key, value)) =~= put(entries, key, value));
        lemma_map_of_update(entries, i, value);
    } else {
        lemma_map_of_push(entries, key, value);
    }
}

/// The first position from `from` on at which `key` stands; the length when there
/// is none.
pub open spec fn key_index<V>(entries: Seq<(Seq<char>, V)>, key: Seq<char>, from: int) -> int
    decreases entries.len() - from,
{
    if from < 0 || from >= entries.len() {
        entries.len() as int
    } else if entries[from].0 == key {
        from
    } else {
        key_index(entries, key, from + 1)
    }
}

/// What [`key_index`] finds.
pub proof fn lemma_key_index<V>(entries: Seq<(Seq<char>, V)>, key: Seq<char>, from: int)
    requires
        0 <= from <= entries.len(),
    ensures
        from <= key_index(entries, key, from) <= entries.len(),
        key_index(entries, key, from) < entries.len() ==> entries[key_index(
            entries,
            key,
            from,
        )].0 == key,
        forall|i: int|
            from <= i < key_index(entries, key, from) ==> (#[trigger] entries[i]).0 != key,
    decreases entries.len() - from,
{
    if from < entries.len() && entries[from].0 != key {
        lemma_key_index(entries, key, from + 1);
    }
}

/// A map from strings to values of type `V`.
///
/// The entries stand in the order in which their keys were first inserted.
#[derive(Debug)]
pub struct StrMap<V> {
    entries: Vec<(String, V)>,
}

impl<V> StrMap<V> {
    /// The entries, in order.
    pub closed spec fn entries(&self) -> Seq<(Seq<char>, V)> {
        self.entries@.map_values(|e: (String, V)| (e.0@, e.1))
    }

    #[verifier::type_invariant]
    pub open spec fn keys_are_distinct(&self) -> bool {
        distinct_keys(self.entries())
    }

    /// Each value is smaller than the map that holds it.
    pub proof fn lemma_value_is_smaller(&self, i: int)
        requires
            0 <= i < self.entries().len(),
        ensures
            decreases_to!(*self => self.entries()[i].1),
    {
        assert(decreases_to!(*self => self.entries@));
        assert(decreases_to!(self.entries@ => self.entries@[i]));
        assert(decreases_to!(self.entries@[i] => self.entries@[i].1));
    }

    pub fn new() -> (map: Self)
        ensures
            map.entries() == Seq::<(Seq<char>, V)>::empty(),
            map@ == Map::<Seq<char>, V>::empty(),
    {
        let entries: Vec<(String, V)> = Vec::new();
        let map = StrMap { entries };
        assert(map.entries() =~= Seq::empty());
        map
    }

    pub fn len(&self) -> (n: usize)
        ensures
            n == self.entries().len(),
    {
        self.entries.len()
    }

    pub fn is_empty(&self) -> (r: bool)
        ensures
            r == (self.entries().len() == 0),
    {
        self.entries.len() == 0
    }

    /// The key of the entry at `i`.
    pub fn key_at(&self, i: usize) -> (key: &String)
        requires
            i < self.entries().len(),
        ensures
            key@ == self.entries()[i as int].0,
    {
        &self.entries[i].0
    }

    /// The value of the entry at `i`.
    pub fn value_at(&self, i: usize) -> (value: &V)
        requires
            i < self.entries().len(),
        ensures
            *value == self.entries()[i as int].1,
    {
        &self.entries[i].1
    }

    /// Where `key` stands among the entries.
    pub fn position(&self, key: &str) -> (r: Option<usize>)
        ensures
            (match r {
                Some(i) => i < self.entries().len() && self.entries()[i as int].0 == key@,
                None => forall|i: int|
                    0 <= i < self.entries().len() ==> (#[trigger] self.entries()[i]).0 != key@,
            }),
    {
        let mut i: usize = 0;
        while i < self.entries.len()
            invariant
                i <= self.entries@.len() == self.entries().len(),
                forall|j: int| 0 <= j < i ==> (#[trigger] self.entries()[j]).0 != key@,
            decreases self.entries.len() - i,
        {
            if text::same_text(self.entries[i].0.as_str(), key) {
                return Some(i);
            }
            i += 1;
        }
        None
    }

    pub fn get(&self, key: &str) -> (r: Option<&V>)
        ensures
            (match r {
                Some(value) => self@.contains_key(key@) && *value == self@[key@],
                None => !self@.contains_key(key@),
            }),
    {
        proof {
            use_type_invariant(self);
            lemma_map_of_keys(self.entries(), key@);
        }
        match self.position(key) {
            Some(i) => {
                proof {
                    lemma_map_of_entry(self.entries(), i as int);
                }
                Some(&self.entries[i].1)
            },
            None => None,
        }
    }

    pub fn contains_key(&self, key: &str) -> (r: bool)
        ensures
            r == self@.contains_key(key@),
    {
        match self.get(key) {
            Some(_) => true,
            None => false,
        }
    }

    /// Sets the value of `key`. A key that is there already keeps its place.
    pub fn insert(&mut self, key: String, value: V)
        ensures
            final(self)@ == old(self)@.insert(key@, value),
            final(self).entries() == put(old(self).entries(), key@, value),
    {
        proof {
            use_type_invariant(&*self);
            lemma_map_of_keys(self.entries(), key@);
        }
        let ghost before = self.entries();
        let at: Option<usize> = self.position(key.as_str());
        let mut entries: Vec<(String, V)> = Vec::new();
        core::mem::swap(&mut entries, &mut self.entries);
        let ghost old_raw = entries@;
        match at {
            Some(i) => {
                proof {
                    lemma_map_of_update(before, i as int, value);
                    assert(old_raw.update(i as int, (key, value)).map_values(
                        |e: (String, V)| (e.0@, e.1),
                    ) =~= before.update(i as int, (before[i as int].0, value)));
                    assert forall|j: int|
                        0 <= j < before.len() && j != i implies (#[trigger] before[j]).0
                        != before[i as int].0 by {
                        if j < i {
                            assert(before[j].0 != before[i as int].0);
                        } else {
                            assert(before[i as int].0 != before[j].0);
                        }
                    }
                    assert(before[i as int].0 == key@);
                    assert(before.update(i as int, (before[i as int].0, value)) =~= put(
                        before,
                        key@,
                        value,
                    ));
                }
                entries[i] = (key, value);
            },
            None => {
                proof {
                    lemma_map_of_push(before, key@, value);
                    assert(old_raw.push((key, value)).map_values(|e: (String, V)| (e.0@, e.1))
                        =~= before.push((key@, value)));
                }
                entries.push((key, value));
            },
        }
        self.entries = entries;
    }

    /// Hands the entries out.
    pub fn into_entries(self) -> (entries: Vec<(String, V)>)
        ensures
            entries@.map_values(|e: (String, V)| (e.0@, e.1)) == self.entries(),
            distinct_keys(self.entries()),
    {
        proof {
            use_type_invariant(&self);
        }
        self.entries
    }
}

/// The entries of a map from strings to strings.
pub open spec fn pairs(map: StrMap<String>) -> Seq<(Seq<char>, Seq<char>)> {
    with_values(map.entries(), |s: String| s@)
}

/// The value of `key` in a table of texts.
pub fn find_text(table: &StrMap<String>, key: &str) -> (r: Option<String>)
    ensures
        text::opt_view(r) == (if map_of(pairs(*table)).contains_key(
            key@,
        ) {
            Some(map_of(pairs(*table))[key@])
        } else {
            None
        }),
{
    proof {
        use_type_invariant(table);
        let entries = table.entries();
        let pairs = self::pairs(*table);
        lemma_map_of_keys(pairs, key@);
        assert(distinct_keys(pairs)) by {
            assert forall|i: int, j: int| 0 <= i < j < pairs.len() implies (#[trigger] pairs[i]).0
                != (#[trigger] pairs[j]).0 by {
                assert(entries[i].0 != entries[j].0);
            }
        }
        assert forall|i: int| 0 <= i < entries.len() && (#[trigger] entries[i]).0 == key@ implies
            map_of(pairs).contains_key(key@) && map_of(pairs)[key@]
            == entries[i].1@ by {
            assert(pairs[i].0 == key@);
            lemma_map_of_entry(pairs, i);
        }
        assert forall|i: int| 0 <= i < pairs.len() implies (#[trigger] pairs[i]).0
            == entries[i].0 by {}
    }
    match table.position(key) {
        Some(i) => Some(table.value_at(i).clone()),
        None => None,
    }
}

impl<V: Clone> Clone for StrMap<V> {
    fn clone(&self) -> (map: Self)
        ensures
            map.entries().len() == self.entries().len(),
            forall|i: int|
                0 <= i < self.entries().len() ==> (#[trigger] map.entries()[i]).0
                    == self.entries()[i].0 && cloned::<V>(
                    self.entries()[i].1,
                    map.entries()[i].1,
                ),
    {
        proof {
            use_type_invariant(self);
        }
        let mut entries: Vec<(String, V)> = Vec::new();
        let mut i: usize = 0;
        while i < self.entries.len()
            invariant
                i == entries@.len() <= self.entries@.len(),
                forall|j: int|
                    0 <= j < i ==> (#[trigger] entries@[j]).0@ == self.entries@[j].0@ && cloned::<
                        V,
                    >(self.entries@[j].1, entries@[j].1),
            decreases self.entries.len() - i,
        {
            entries.push((self.entries[i].0.clone(), self.entries[i].1.clone()));
            i += 1;
        }
        proof {
            let pairs = entries@.map_values(|e: (String, V)| (e.0@, e.1));
            assert forall|a: int, b: int| 0 <= a < b < pairs.len() implies (#[trigger] pairs[a]).0
                != (#[trigger] pairs[b]).0 by {
                assert(self.entries()[a].0 != self.entries()[b].0);
            }
        }
        StrMap { entries }
    }
}

impl<V> View for StrMap<V> {
    type V = Map<Seq<char>, V>;

    open spec fn view(&self) -> Map<Seq<char>, V> {
        map_of(self.entries())
    }
}

/// A set of strings, which keeps the order in which they came.
#[derive(Debug)]
pub struct StrSet {
    map: StrMap<()>,
}

impl StrSet {
    /// The members, in order.
    pub closed spec fn items(&self) -> Seq<Seq<char>> {
        self.map.entries().map_values(|e: (Seq<char>, ())| e.0)
    }

    #[verifier::type_invariant]
    pub open spec fn items_are_distinct(&self) -> bool {
        self.items().no_duplicates()
    }

    /// A string is a member when it is among the items.
    pub proof fn lemma_items(&self)
        ensures
            forall|s: Seq<char>| self@.contains(s) <==> #[trigger] self.items().contains(s),
    {
        assert forall|s: Seq<char>| self@.contains(s) <==> #[trigger] self.items().contains(s) by {
            lemma_map_of_keys(self.map.entries(), s);
            if self@.contains(s) {
                let i = choose|i: int|
                    0 <= i < self.map.entries().len() && (#[trigger] self.map.entries()[i]).0 == s;
                assert(self.items()[i] == s);
            }
            if self.items().contains(s) {
                let i = choose|i: int| 0 <= i < self.items().len() && self.items()[i] == s;
                assert(self.map.entries()[i].0 == s);
            }
        }
    }

    pub fn new() -> (set: Self)
        ensures
            set.items() == Seq::<Seq<char>>::empty(),
            set@ == Set::<Seq<char>>::empty(),
    {
        let map: StrMap<()> = StrMap::new();
        assert(map.entries().map_values(|e: (Seq<char>, ())| e.0) =~= Seq::empty());
        let set = StrSet { map };
        assert(set.items() =~= Seq::empty());
        assert(set@ =~= Set::empty());
        set
    }

    pub fn len(&self) -> (n: usize)
        ensures
            n == self.items().len(),
    {
        self.map.len()
    }

    pub fn contains(&self, s: &str) -> (r: bool)
        ensures
            r == self@.contains(s@),
    {
        self.map.contains_key(s)
    }

    /// Adds `s`, at the end if it was not there.
    pub fn insert(&mut self, s: String)
        ensures
            final(self)@ == old(self)@.insert(s@),
            final(self).items() == (if old(self)@.contains(s@) {
                old(self).items()
            } else {
                old(self).items().push(s@)
            }),
    {
        proof {
            use_type_invariant(&*self);
            self.lemma_items();
        }
        if !self.map.contains_key(s.as_str()) {
            let ghost before = self.items();
            let mut map: StrMap<()> = StrMap::new();
            assert(map.entries().map_values(|e: (Seq<char>, ())| e.0) =~= Seq::empty());
            core::mem::swap(&mut map, &mut self.map);
            map.insert(s, ());
            proof {
                let items = map.entries().map_values(|e: (Seq<char>, ())| e.0);
                assert(items =~= before.push(s@));
                assert(!before.contains(s@));
            }
            self.map = map;
            assert(self.items() =~= old(self).items().push(s@));
        }
        assert(self@ =~= old(self)@.insert(s@));
    }

    /// The member at `i`.
    pub fn item_at(&self, i: usize) -> (s: &String)
        requires
            i < self.items().len(),
        ensures
            s@ == self.items()[i as int],
    {
        self.map.key_at(i)
    }

    /// Hands the members out.
    pub fn into_items(self) -> (items: Vec<String>)
        ensures
            items@.map_values(|s: String| s@) == self.items(),
    {
        let mut items: Vec<String> = Vec::new();
        let mut i: usize = 0;
        while i < self.map.len()
            invariant
                i == items@.len() <= self.map.entries().len(),
                forall|j: int| 0 <= j < i ==> (#[trigger] items@[j])@ == self.map.entries()[j].0,
            decreases self.map.entries().len() - i,
        {
            items.push(self.map.key_at(i).clone());
            i += 1;
        }
        assert(items@.map_values(|s: String| s@) =~= self.items());
        items
    }
}

impl View for StrSet {
    type V = Set<Seq<char>>;

    closed spec fn view(&self) -> Set<Seq<char>> {
        self.map@.dom()
    }
}

/// A new key comes to the end of a table, and one that is there keeps its place. No other
/// entry changes.
pub proof fn law_entries_keep_their_places<V>(
    entries: Seq<(Seq<char>, V)>,
    key: Seq<char>,
    value: V,
    i: int,
)
    ensures
        (forall|j: int| 0 <= j < entries.len() ==> (#[trigger] entries[j]).0 != key) ==> put(
            entries,
            key,
            value,
        ) == entries.push((key, value)),
        (exists|j: int| 0 <= j < entries.len() && (#[trigger] entries[j]).0 == key) ==> put(
            entries,
            key,
            value,
        ).len() == entries.len(),
        0 <= i < entries.len() && entries[i].0 == key ==> put(entries, key, value)[i] == (
            key,
            value,
        ),
        0 <= i < entries.len() && entries[i].0 != key ==> put(entries, key, value)[i] == entries[i],
{
    lemma_map_of_keys(entries, key);
}

} // verus!
