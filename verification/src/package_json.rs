//! Defensive reading of `package.json`.
//!
//! In practice `package.json` has no strict schema: `"main": false`, numeric
//! versions, odd `exports` shapes, non-string dependency ranges. What is needed
//! is picked out; a value of an unexpected type is skipped, and never fatal.

use vstd::prelude::*;

use crate::app_error::ServerError;
use crate::json;
use crate::json::Json;
use crate::json::JsonView;
use crate::str_map;
use crate::str_map::StrMap;
use crate::text;

verus! {

/// The normalized form of an `exports` or `browser` field.
#[derive(Debug)]
pub enum PackageJSONExport {
    Ignored(Option<bool>),
    Value(String),
    Table(StrMap<PackageJSONExport>),
    Vec(Vec<PackageJSONExport>),
}

/// What a [`PackageJSONExport`] says.
#[verifier::ext_equal]
pub enum ExportView {
    Ignored(Option<bool>),
    Value(Seq<char>),
    Table(Seq<(Seq<char>, ExportView)>),
    List(Seq<ExportView>),
}

pub open spec fn export_view(export: PackageJSONExport) -> ExportView
    decreases export,
{
    match export {
        PackageJSONExport::Ignored(b) => ExportView::Ignored(b),
        PackageJSONExport::Value(s) => ExportView::Value(s@),
        PackageJSONExport::Table(map) => {
            proof {
                assert forall|i: int| 0 <= i < map.entries().len() implies decreases_to!(map => (
                #[trigger] map.entries()[i]).1) by {
                    map.lemma_value_is_smaller(i);
                }
            }
            ExportView::Table(
                Seq::new(
                    map.entries().len(),
                    |i: int|
                        if 0 <= i < map.entries().len() {
                            (map.entries()[i].0, export_view(map.entries()[i].1))
                        } else {
                            arbitrary()
                        },
                ),
            )
        },
        PackageJSONExport::Vec(items) => ExportView::List(
            Seq::new(
                items@.len(),
                |i: int|
                    if 0 <= i < items@.len() {
                        export_view(items@[i])
                    } else {
                        arbitrary()
                    },
            ),
        ),
    }
}

impl View for PackageJSONExport {
    type V = ExportView;

    open spec fn view(&self) -> ExportView {
        export_view(*self)
    }
}

/// The fields of a `package.json` that matter here.
#[derive(Debug)]
pub struct PackageJSON {
    pub name: String,
    pub version: String,
    pub main: Option<String>,
    pub module: Option<String>,
    pub js_next_main: Option<String>,
    pub browser: Option<PackageJSONExport>,
    pub exports: Option<PackageJSONExport>,
    pub dependencies: Option<StrMap<String>>,
    /// The peers that the package declares. An import that is declared here
    /// only still belongs to the dependency tree.
    pub peer_dependencies: Option<StrMap<String>>,
}

/// What a [`PackageJSON`] says.
#[verifier::ext_equal]
pub struct PackageView {
    pub name: Seq<char>,
    pub version: Seq<char>,
    pub main: Option<Seq<char>>,
    pub module: Option<Seq<char>>,
    pub js_next_main: Option<Seq<char>>,
    pub browser: Option<ExportView>,
    pub exports: Option<ExportView>,
    pub dependencies: Option<Seq<(Seq<char>, Seq<char>)>>,
    pub peer_dependencies: Option<Seq<(Seq<char>, Seq<char>)>>,
}

pub open spec fn opt_export_view(export: Option<PackageJSONExport>) -> Option<ExportView> {
    match export {
        Some(export) => Some(export@),
        None => None,
    }
}

pub open spec fn opt_pairs(map: Option<StrMap<String>>) -> Option<Seq<(Seq<char>, Seq<char>)>> {
    match map {
        Some(map) => Some(str_map::pairs(map)),
        None => None,
    }
}

impl View for PackageJSON {
    type V = PackageView;

    open spec fn view(&self) -> PackageView {
        PackageView {
            name: self.name@,
            version: self.version@,
            main: text::opt_view(self.main),
            module: text::opt_view(self.module),
            js_next_main: text::opt_view(self.js_next_main),
            browser: opt_export_view(self.browser),
            exports: opt_export_view(self.exports),
            dependencies: opt_pairs(self.dependencies),
            peer_dependencies: opt_pairs(self.peer_dependencies),
        }
    }
}

/// The value of the member `key`.
pub open spec fn member_value(members: Seq<(Seq<char>, JsonView)>, key: Seq<char>) -> Option<
    JsonView,
> {
    if str_map::map_of(members).contains_key(key) {
        Some(str_map::map_of(members)[key])
    } else {
        None
    }
}

/// A text without the white space around it, if anything is left.
pub open spec fn nonblank(s: Seq<char>) -> Option<Seq<char>> {
    if text::trimmed(s).len() == 0 {
        None
    } else {
        Some(text::trimmed(s))
    }
}

/// A nonblank string, or a number as the document's reader writes it.
pub open spec fn string_or_number(value: Option<JsonView>) -> Option<Seq<char>> {
    match value {
        Some(JsonView::Text(s)) => nonblank(s),
        Some(JsonView::Number(n)) => Some(n),
        _ => None,
    }
}

/// A nonblank string.
pub open spec fn entry_path(value: Option<JsonView>) -> Option<Seq<char>> {
    match value {
        Some(JsonView::Text(s)) => nonblank(s),
        _ => None,
    }
}

/// The members that have a name and a string or a number for a value.
pub open spec fn string_members(members: Seq<(Seq<char>, JsonView)>) -> Seq<(Seq<char>, Seq<char>)>
    decreases members.len(),
{
    if members.len() == 0 {
        Seq::empty()
    } else {
        let rest = string_members(members.drop_last());
        let (key, value) = members.last();
        match string_or_number(Some(value)) {
            Some(range) => if key.len() == 0 {
                rest
            } else {
                str_map::put(rest, key, range)
            },
            None => rest,
        }
    }
}

/// The dependencies that a field declares; `None` when it declares none.
pub open spec fn declared(value: Option<JsonView>) -> Option<Seq<(Seq<char>, Seq<char>)>> {
    match value {
        Some(JsonView::Object(members)) => if string_members(members).len() == 0 {
            None
        } else {
            Some(string_members(members))
        },
        _ => None,
    }
}

/// The normalized form of an `exports` or `browser` field, at any depth.
/// Numbers, empty strings and lists in which nothing is left are dropped.
pub open spec fn normalized(value: JsonView) -> Option<ExportView>
    decreases value,
{
    match value {
        JsonView::Null => Some(ExportView::Ignored(None)),
        JsonView::Bool(b) => Some(ExportView::Ignored(Some(b))),
        JsonView::Text(s) => if s.len() == 0 {
            None
        } else {
            Some(ExportView::Value(s))
        },
        JsonView::Array(items) => if normalized_items(items).len() == 0 {
            None
        } else {
            Some(ExportView::List(normalized_items(items)))
        },
        JsonView::Object(members) => Some(ExportView::Table(normalized_members(members))),
        JsonView::Number(_) => None,
    }
}

pub open spec fn normalized_items(items: Seq<JsonView>) -> Seq<ExportView>
    decreases items,
{
    if items.len() == 0 {
        Seq::empty()
    } else {
        let rest = normalized_items(items.drop_last());
        match normalized(items[items.len() - 1]) {
            Some(export) => rest.push(export),
            None => rest,
        }
    }
}

pub open spec fn normalized_members(members: Seq<(Seq<char>, JsonView)>) -> Seq<
    (Seq<char>, ExportView),
>
    decreases members,
{
    if members.len() == 0 {
        Seq::empty()
    } else {
        let rest = normalized_members(members.drop_last());
        match normalized(members[members.len() - 1].1) {
            Some(export) => str_map::put(rest, members[members.len() - 1].0, export),
            None => rest,
        }
    }
}

pub open spec fn export_field(value: Option<JsonView>) -> Option<ExportView> {
    match value {
        Some(value) => normalized(value),
        None => None,
    }
}

pub open spec fn or_empty(s: Option<Seq<char>>) -> Seq<char> {
    match s {
        Some(s) => s,
        None => Seq::empty(),
    }
}

/// What the members of a `package.json` say.
pub open spec fn package_of_members(members: Seq<(Seq<char>, JsonView)>) -> PackageView {
    PackageView {
        name: or_empty(string_or_number(member_value(members, "name"@))),
        version: or_empty(string_or_number(member_value(members, "version"@))),
        main: entry_path(member_value(members, "main"@)),
        module: entry_path(member_value(members, "module"@)),
        js_next_main: entry_path(member_value(members, "jsnext:main"@)),
        browser: export_field(member_value(members, "browser"@)),
        exports: export_field(member_value(members, "exports"@)),
        dependencies: declared(member_value(members, "dependencies"@)),
        peer_dependencies: declared(member_value(members, "peerDependencies"@)),
    }
}

/// A package about which nothing is known.
pub open spec fn stub_package() -> PackageView {
    PackageView {
        name: Seq::empty(),
        version: Seq::empty(),
        main: None,
        module: None,
        js_next_main: None,
        browser: None,
        exports: None,
        dependencies: None,
        peer_dependencies: None,
    }
}

/// What a whole document says; one that is no object says nothing.
pub open spec fn package_of(document: JsonView) -> PackageView {
    match document {
        JsonView::Object(members) => package_of_members(members),
        _ => stub_package(),
    }
}

/// `s` without the byte order marks at its front.
pub open spec fn without_bom(s: Seq<char>) -> Seq<char>
    decreases s.len(),
{
    if s.len() > 0 && s[0] == '\u{feff}' {
        without_bom(s.drop_first())
    } else {
        s
    }
}

/// The part of a file's content that is read as JSON.
pub open spec fn json_part(content: Seq<char>) -> Seq<char> {
    text::trimmed(without_bom(content))
}

fn strip_bom(s: &str) -> (r: &str)
    ensures
        r@ == without_bom(s@),
{
    let chars: Vec<char> = text::to_chars(s);
    let mut from: usize = 0;
    assert(s@.skip(0) =~= s@);
    while from < chars.len() && chars[from] == '\u{feff}'
        invariant
            chars@ == s@,
            from <= s@.len(),
            without_bom(s@) == without_bom(s@.skip(from as int)),
        decreases chars.len() - from,
    {
        assert(s@.skip(from as int).drop_first() =~= s@.skip(from + 1));
        from += 1;
    }
    assert(s@.subrange(from as int, s@.len() as int) =~= s@.skip(from as int));
    s.substring_char(from, chars.len())
}

/// Reads the content of a `package.json`. It fails only when the content is
/// not JSON; every field is read as far as it makes sense.
pub fn parse_pkg_json(content: String) -> (r: Result<PackageJSON, ServerError>)
    ensures
        (match json::json_document(json_part(content@)) {
            Ok(document) => r is Ok && r->Ok_0@ == package_of(document),
            Err(message) => r matches Err(ServerError::JSONParseError(m)) && m@ == message,
        }),
{
    match json::parse_json(text::trim(strip_bom(content.as_str()))) {
        Ok(document) => Ok(package_json_from_document(&document)),
        Err(message) => Err(ServerError::JSONParseError(message)),
    }
}

/// Picks the fields out of a document.
pub fn package_json_from_document(document: &Json) -> (pkg: PackageJSON)
    ensures
        pkg@ == package_of(document@),
{
    match document {
        Json::Object(members) => {
            proof {
                lemma_object_view(*members);
            }
            package_json_from_map(members)
        },
        _ => PackageJSON {
            name: String::new(),
            version: String::new(),
            main: None,
            module: None,
            js_next_main: None,
            browser: None,
            exports: None,
            dependencies: None,
            peer_dependencies: None,
        },
    }
}

/// What the members of a JSON object are.
pub open spec fn member_views(members: Seq<(String, Json)>) -> Seq<(Seq<char>, JsonView)> {
    members.map_values(|m: (String, Json)| (m.0@, m.1@))
}

proof fn lemma_object_view(members: Vec<(String, Json)>)
    ensures
        Json::Object(members)@ == JsonView::Object(member_views(members@)),
{
    assert(Json::Object(members)@->Object_0 =~= member_views(members@));
}

/// The value of the member `key`, if there is such a member.
fn find_member<'a>(members: &'a Vec<(String, Json)>, key: &str) -> (r: Option<&'a Json>)
    ensures
        (match r {
            Some(value) => member_value(member_views(members@), key@) == Some(value@),
            None => member_value(member_views(members@), key@) is None,
        }),
{
    let ghost all = member_views(members@);
    let mut found: Option<&'a Json> = None;
    let mut i: usize = 0;
    while i < members.len()
        invariant
            all == member_views(members@),
            i <= members@.len(),
            (match found {
                Some(value) => member_value(all.take(i as int), key@) == Some(value@),
                None => member_value(all.take(i as int), key@) is None,
            }),
        decreases members.len() - i,
    {
        assert(all.take(i + 1).drop_last() =~= all.take(i as int));
        assert(all.take(i + 1).last() == (members@[i as int].0@, members@[i as int].1@));
        if text::same_text(members[i].0.as_str(), key) {
            found = Some(&members[i].1);
        }
        i += 1;
    }
    assert(all.take(i as int) =~= all);
    found
}

fn nonblank_text(s: &str) -> (r: Option<String>)
    ensures
        text::opt_view(r) == nonblank(s@),
{
    let t: &str = text::trim(s);
    if t.is_empty() {
        None
    } else {
        Some(t.to_string())
    }
}

pub open spec fn opt_json_view(value: Option<&Json>) -> Option<JsonView> {
    match value {
        Some(value) => Some(value@),
        None => None,
    }
}

/// A nonblank string, or a number as the document's reader writes it; nothing else.
pub fn optional_string(value: Option<&Json>) -> (r: Option<String>)
    ensures
        text::opt_view(r) == string_or_number(opt_json_view(value)),
{
    match value {
        Some(Json::Text(s)) => nonblank_text(s.as_str()),
        Some(Json::Number(n)) => Some(n.clone()),
        _ => None,
    }
}

/// The path of an entry file: a string only. `"main": false` gives `None`.
pub fn optional_entry_path(value: Option<&Json>) -> (r: Option<String>)
    ensures
        text::opt_view(r) == entry_path(opt_json_view(value)),
{
    match value {
        Some(Json::Text(s)) => nonblank_text(s.as_str()),
        _ => None,
    }
}

/// A table of dependency ranges: strings are kept, numbers are kept as they are
/// written, everything else is skipped.
pub fn string_map(value: Option<&Json>) -> (r: Option<StrMap<String>>)
    ensures
        opt_pairs(r) == declared(opt_json_view(value)),
{
    let members: &Vec<(String, Json)> = match value {
        Some(Json::Object(members)) => members,
        _ => {
            return None;
        },
    };
    let ghost all = member_views(members@);
    proof {
        lemma_object_view(*members);
    }
    let mut out: StrMap<String> = StrMap::new();
    let mut i: usize = 0;
    assert(str_map::pairs(out) =~= string_members(all.take(0)));
    while i < members.len()
        invariant
            all == member_views(members@),
            i <= members@.len(),
            str_map::pairs(out) == string_members(all.take(i as int)),
        decreases members.len() - i,
    {
        let key: &String = &members[i].0;
        proof {
            assert(all.take(i + 1).drop_last() =~= all.take(i as int));
            assert(all.take(i + 1).last() == (key@, members@[i as int].1@));
        }
        if !key.as_str().is_empty() {
            if let Some(range) = optional_string(Some(&members[i].1)) {
                proof {
                    str_map::lemma_put_with_values(
                        out.entries(),
                        |s: String| s@,
                        key@,
                        range,
                    );
                }
                out.insert(key.clone(), range);
            }
        }
        i += 1;
    }
    assert(all.take(i as int) =~= all);
    if out.is_empty() {
        None
    } else {
        Some(out)
    }
}

/// The entries of a table of exports.
pub open spec fn table_views(map: StrMap<PackageJSONExport>) -> Seq<(Seq<char>, ExportView)> {
    str_map::with_values(map.entries(), |e: PackageJSONExport| e@)
}

pub open spec fn export_views(items: Seq<PackageJSONExport>) -> Seq<ExportView> {
    items.map_values(|e: PackageJSONExport| e@)
}

proof fn lemma_table_view(map: StrMap<PackageJSONExport>)
    ensures
        PackageJSONExport::Table(map)@ == ExportView::Table(table_views(map)),
{
    assert(PackageJSONExport::Table(map)@->Table_0 =~= table_views(map));
}

proof fn lemma_list_view(items: Vec<PackageJSONExport>)
    ensures
        PackageJSONExport::Vec(items)@ == ExportView::List(export_views(items@)),
{
    assert(PackageJSONExport::Vec(items)@->List_0 =~= export_views(items@));
}

/// Normalizes an `exports` or `browser` field. What has an unknown shape is
/// dropped.
pub fn parse_export(value: &Json) -> (r: Option<PackageJSONExport>)
    ensures
        opt_export_view(r) == normalized(value@),
    decreases value,
{
    match value {
        Json::Null => Some(PackageJSONExport::Ignored(None)),
        Json::Bool(b) => Some(PackageJSONExport::Ignored(Some(*b))),
        Json::Text(s) => {
            if s.as_str().is_empty() {
                None
            } else {
                Some(PackageJSONExport::Value(s.clone()))
            }
        },
        Json::Array(items) => {
            let ghost all = items@.map_values(|j: Json| j@);
            assert(value@->Array_0 =~= all);
            let mut out: Vec<PackageJSONExport> = Vec::new();
            let mut i: usize = 0;
            assert(export_views(out@) =~= normalized_items(all.take(0)));
            while i < items.len()
                invariant
                    value == Json::Array(*items),
                    all == items@.map_values(|j: Json| j@),
                    i <= items@.len(),
                    export_views(out@) == normalized_items(all.take(i as int)),
                decreases items.len() - i,
            {
                let ghost before = out@;
                proof {
                    assert(all.take(i + 1).drop_last() =~= all.take(i as int));
                    assert(all.take(i + 1)[i as int] == items@[i as int]@);
                    assert(decreases_to!(value => value->Array_0));
                    assert(decreases_to!(value->Array_0 => items@));
                    assert(decreases_to!(items@ => items@[i as int]));
                }
                if let Some(export) = parse_export(&items[i]) {
                    out.push(export);
                    assert(export_views(out@) =~= export_views(before).push(export@));
                }
                i += 1;
            }
            assert(all.take(i as int) =~= all);
            proof {
                lemma_list_view(out);
            }
            if out.len() == 0 {
                None
            } else {
                Some(PackageJSONExport::Vec(out))
            }
        },
        Json::Object(members) => {
            let ghost all = member_views(members@);
            let mut out: StrMap<PackageJSONExport> = StrMap::new();
            let mut i: usize = 0;
            assert(table_views(out) =~= normalized_members(all.take(0)));
            while i < members.len()
                invariant
                    value == Json::Object(*members),
                    all == member_views(members@),
                    i <= members@.len(),
                    table_views(out) == normalized_members(all.take(i as int)),
                decreases members.len() - i,
            {
                proof {
                    assert(all.take(i + 1).drop_last() =~= all.take(i as int));
                    assert(all.take(i + 1)[i as int] == (
                        members@[i as int].0@,
                        members@[i as int].1@,
                    ));
                    assert(decreases_to!(value => value->Object_0));
                    assert(decreases_to!(value->Object_0 => members@));
                    assert(decreases_to!(members@ => members@[i as int]));
                    assert(decreases_to!(members@[i as int] => members@[i as int].1));
                }
                if let Some(export) = parse_export(&members[i].1) {
                    proof {
                        str_map::lemma_put_with_values(
                            out.entries(),
                            |e: PackageJSONExport| e@,
                            members@[i as int].0@,
                            export,
                        );
                    }
                    out.insert(members[i].0.clone(), export);
                }
                i += 1;
            }
            assert(all.take(i as int) =~= all);
            proof {
                lemma_object_view(*members);
                lemma_table_view(out);
            }
            Some(PackageJSONExport::Table(out))
        },
        Json::Number(_) => None,
    }
}

fn parse_export_field(value: Option<&Json>) -> (r: Option<PackageJSONExport>)
    ensures
        opt_export_view(r) == export_field(opt_json_view(value)),
{
    match value {
        Some(value) => parse_export(value),
        None => None,
    }
}

/// Picks the fields out of the members of a `package.json`.
pub fn package_json_from_map(members: &Vec<(String, Json)>) -> (pkg: PackageJSON)
    ensures
        pkg@ == package_of_members(member_views(members@)),
{
    PackageJSON {
        name: match optional_string(find_member(members, "name")) {
            Some(name) => name,
            None => String::new(),
        },
        version: match optional_string(find_member(members, "version")) {
            Some(version) => version,
            None => String::new(),
        },
        main: optional_entry_path(find_member(members, "main")),
        module: optional_entry_path(find_member(members, "module")),
        js_next_main: optional_entry_path(find_member(members, "jsnext:main")),
        browser: parse_export_field(find_member(members, "browser")),
        exports: parse_export_field(find_member(members, "exports")),
        dependencies: string_map(find_member(members, "dependencies")),
        peer_dependencies: string_map(find_member(members, "peerDependencies")),
    }
}

/// The position of the condition that decides in a table of conditions, in
/// this order: `browser`, `development`, `default`, `require`, `import`. The
/// length when there is none of them.
pub open spec fn condition_index(table: Seq<(Seq<char>, ExportView)>) -> int {
    if str_map::key_index(table, "browser"@, 0) < table.len() {
        str_map::key_index(table, "browser"@, 0)
    } else if str_map::key_index(table, "development"@, 0) < table.len() {
        str_map::key_index(table, "development"@, 0)
    } else if str_map::key_index(table, "default"@, 0) < table.len() {
        str_map::key_index(table, "default"@, 0)
    } else if str_map::key_index(table, "require"@, 0) < table.len() {
        str_map::key_index(table, "require"@, 0)
    } else {
        str_map::key_index(table, "import"@, 0)
    }
}

/// The file that an export stands for: the value itself, what the deciding
/// condition stands for, or what the first item stands for that stands for
/// anything.
pub open spec fn export_entry(export: ExportView) -> Option<Seq<char>>
    decreases export,
{
    match export {
        ExportView::Value(s) => Some(s),
        ExportView::Table(table) => {
            let i = condition_index(table);
            if 0 <= i < table.len() {
                export_entry(table[i].1)
            } else {
                None
            }
        },
        ExportView::List(items) => first_entry(items),
        ExportView::Ignored(_) => None,
    }
}

pub open spec fn first_entry(items: Seq<ExportView>) -> Option<Seq<char>>
    decreases items,
{
    if items.len() == 0 {
        None
    } else {
        match export_entry(items[0]) {
            Some(entry) => Some(entry),
            None => first_entry(items.drop_first()),
        }
    }
}

/// Where the condition `key` stands in a table of exports.
fn find_condition(table: &StrMap<PackageJSONExport>, key: &str) -> (r: Option<usize>)
    ensures
        (match r {
            Some(i) => i < table.entries().len() && str_map::key_index(table_views(*table), key@, 0)
                == i,
            None => str_map::key_index(table_views(*table), key@, 0) == table.entries().len(),
        }),
{
    proof {
        use_type_invariant(table);
        str_map::lemma_key_index(table_views(*table), key@, 0);
        let k = str_map::key_index(table_views(*table), key@, 0);
        if k < table.entries().len() {
            assert(table_views(*table)[k].0 == table.entries()[k].0);
        }
        assert forall|i: int| 0 <= i < table.entries().len() && i != k && k
            < table.entries().len() implies (#[trigger] table.entries()[i]).0 != key@ by {
            if i < k {
                assert(table.entries()[i].0 != table.entries()[k].0);
            } else {
                assert(table.entries()[k].0 != table.entries()[i].0);
            }
        }
        assert forall|i: int| 0 <= i < k implies (#[trigger] table.entries()[i]).0 != key@ by {
            assert(table_views(*table)[i].0 != key@);
        }
    }
    table.position(key)
}

fn find_deciding_condition(table: &StrMap<PackageJSONExport>) -> (r: Option<usize>)
    ensures
        (match r {
            Some(i) => i < table.entries().len() && condition_index(table_views(*table)) == i,
            None => condition_index(table_views(*table)) == table.entries().len(),
        }),
{
    if let Some(i) = find_condition(table, "browser") {
        return Some(i);
    }
    if let Some(i) = find_condition(table, "development") {
        return Some(i);
    }
    if let Some(i) = find_condition(table, "default") {
        return Some(i);
    }
    if let Some(i) = find_condition(table, "require") {
        return Some(i);
    }
    find_condition(table, "import")
}

/// The file that an export stands for.
pub fn get_export_entry(exports: &PackageJSONExport) -> (r: Option<String>)
    ensures
        text::opt_view(r) == export_entry(exports@),
    decreases exports,
{
    match exports {
        PackageJSONExport::Value(s) => Some(s.clone()),
        PackageJSONExport::Table(table) => {
            proof {
                lemma_table_view(*table);
            }
            match find_deciding_condition(table) {
                Some(i) => {
                    proof {
                        table.lemma_value_is_smaller(i as int);
                        assert(decreases_to!(exports => exports->Table_0));
                    }
                    get_export_entry(table.value_at(i))
                },
                None => None,
            }
        },
        PackageJSONExport::Vec(items) => {
            let ghost all = export_views(items@);
            proof {
                lemma_list_view(*items);
                assert(all.skip(0) =~= all);
            }
            let mut i: usize = 0;
            while i < items.len()
                invariant
                    exports == PackageJSONExport::Vec(*items),
                    exports@ == ExportView::List(all),
                    all == export_views(items@),
                    i <= items@.len(),
                    first_entry(all) == first_entry(all.skip(i as int)),
                decreases items.len() - i,
            {
                proof {
                    assert(decreases_to!(exports => exports->Vec_0));
                    assert(decreases_to!(exports->Vec_0 => items@));
                    assert(decreases_to!(items@ => items@[i as int]));
                    assert(all.skip(i as int)[0] == items@[i as int]@);
                    assert(all.skip(i as int).drop_first() =~= all.skip(i + 1));
                }
                if let Some(entry) = get_export_entry(&items[i]) {
                    return Some(entry);
                }
                i += 1;
            }
            None
        },
        PackageJSONExport::Ignored(_) => None,
    }
}

/// The entry of a package that exports nothing: `module`, then a `browser`
/// field that is a path, then `main`, then `jsnext:main`, then `index`.
pub open spec fn main_entry(pkg: PackageView) -> Seq<char> {
    if pkg.module is Some {
        pkg.module->0
    } else if pkg.browser is Some && pkg.browser->0 is Value {
        pkg.browser->0->Value_0
    } else if pkg.main is Some {
        pkg.main->0
    } else if pkg.js_next_main is Some {
        pkg.js_next_main->0
    } else {
        "index"@
    }
}

pub fn get_main_entry(pkg_json: &PackageJSON) -> (r: String)
    ensures
        r@ == main_entry(pkg_json@),
{
    if let Some(path) = &pkg_json.module {
        return path.clone();
    }
    if let Some(PackageJSONExport::Value(path)) = &pkg_json.browser {
        return path.clone();
    }
    if let Some(path) = &pkg_json.main {
        return path.clone();
    }
    if let Some(path) = &pkg_json.js_next_main {
        return path.clone();
    }
    "index".to_string()
}

/// True of the keys that are of no use in a browser.
pub open spec fn server_key(key: Seq<char>) -> bool {
    text::occurs(key, ".node"@) || text::occurs(key, ".server"@)
}

/// True of the keys that name a subpath; all other keys are conditions.
pub open spec fn subpath_key(key: Seq<char>) -> bool {
    key.len() > 0 && key[0] == '.'
}

/// True of a key that makes the whole table one table of conditions.
pub open spec fn condition_key(key: Seq<char>) -> bool {
    !server_key(key) && !subpath_key(key)
}

/// True when the row at `i` of a table of exports gives the entry `e`: a subpath
/// gives what it stands for; the first condition gives what the table stands for,
/// and nothing behind it counts.
pub open spec fn row_gives(table: Seq<(Seq<char>, ExportView)>, i: int, e: Seq<char>) -> bool {
    &&& 0 <= i < table.len()
    &&& !server_key(table[i].0)
    &&& forall|j: int| 0 <= j < i ==> !condition_key((#[trigger] table[j]).0)
    &&& if subpath_key(table[i].0) {
        export_entry(table[i].1) == Some(e)
    } else {
        export_entry(ExportView::Table(table)) == Some(e)
    }
}

/// True of the entries that the `exports` field gives.
pub open spec fn exported(exports: Option<ExportView>, e: Seq<char>) -> bool {
    match exports {
        Some(ExportView::Table(table)) => exists|i: int| row_gives(table, i, e),
        Some(export) => export_entry(export) == Some(e),
        None => false,
    }
}

/// True when the main entry stands in for the exports: they give no entry, and
/// they are no list.
pub open spec fn falls_back(pkg: PackageView) -> bool {
    &&& !(pkg.exports is Some && pkg.exports->0 is List)
    &&& forall|e: Seq<char>| !exported(pkg.exports, e)
}

/// True of the entries of a package, `additional` being what is known of it
/// from elsewhere.
pub open spec fn package_entry(
    pkg: PackageView,
    additional: Seq<Seq<char>>,
    e: Seq<char>,
) -> bool {
    ||| exported(pkg.exports, e)
    ||| falls_back(pkg) && e == main_entry(pkg)
    ||| additional.contains(e)
}

fn is_server_key(key: &str) -> (r: bool)
    ensures
        r == server_key(key@),
{
    text::contains_text(key, ".node") || text::contains_text(key, ".server")
}

fn is_subpath_key(key: &str) -> (r: bool)
    ensures
        r == subpath_key(key@),
{
    !key.is_empty() && key.get_char(0) == '.'
}

/// True when one of the first `n` rows gives the entry `e`.
pub open spec fn rows_give(table: Seq<(Seq<char>, ExportView)>, n: int, e: Seq<char>) -> bool {
    exists|i: int| i < n && row_gives(table, i, e)
}

/// One more row adds what it gives to what the rows before it give.
proof fn lemma_one_more_row(
    table: Seq<(Seq<char>, ExportView)>,
    n: int,
    before: Seq<Seq<char>>,
    after: Seq<Seq<char>>,
    gained: Option<Seq<char>>,
)
    requires
        forall|e: Seq<char>| #[trigger] before.contains(e) <==> rows_give(table, n, e),
        forall|e: Seq<char>| #[trigger] row_gives(table, n, e) <==> gained == Some(e),
        after == match gained {
            Some(e) => before.push(e),
            None => before,
        },
    ensures
        forall|e: Seq<char>| #[trigger] after.contains(e) <==> rows_give(table, n + 1, e),
{
    assert forall|e: Seq<char>| #[trigger] after.contains(e) <==> rows_give(table, n + 1, e) by {
        if after.contains(e) {
            let k = choose|k: int| 0 <= k < after.len() && after[k] == e;
            if k < before.len() {
                assert(before[k] == e);
                assert(before.contains(e));
                let i = choose|i: int| i < n && row_gives(table, i, e);
                assert(i < n + 1 && row_gives(table, i, e));
            } else {
                assert(row_gives(table, n, e));
            }
        }
        if rows_give(table, n + 1, e) {
            let i = choose|i: int| i < n + 1 && row_gives(table, i, e);
            if i < n {
                assert(rows_give(table, n, e));
                assert(before.contains(e));
                let k = choose|k: int| 0 <= k < before.len() && before[k] == e;
                assert(after[k] == e);
            } else {
                assert(row_gives(table, n, e));
                assert(after[after.len() - 1] == e);
            }
        }
    }
}

/// The entries that a table of exports gives.
fn collect_table_entries(exports: &PackageJSONExport, table: &StrMap<PackageJSONExport>) -> (r: Vec<
    String,
>)
    requires
        *exports == PackageJSONExport::Table(*table),
    ensures
        forall|e: Seq<char>| text::views(r@).contains(e) <==> exported(Some(exports@), e),
{
    let ghost rows = table_views(*table);
    proof {
        lemma_table_view(*table);
    }
    let mut entries: Vec<String> = Vec::new();
    let mut i: usize = 0;
    while i < table.len()
        invariant
            *exports == PackageJSONExport::Table(*table),
            exports@ == ExportView::Table(rows),
            rows == table_views(*table),
            i <= rows.len(),
            forall|j: int| 0 <= j < i ==> !condition_key((#[trigger] rows[j]).0),
            forall|e: Seq<char>| #[trigger]
                text::views(entries@).contains(e) <==> rows_give(rows, i as int, e),
        decreases rows.len() - i,
    {
        let key: &String = table.key_at(i);
        let ghost before = text::views(entries@);
        assert(rows[i as int].0 == key@);
        if is_server_key(key.as_str()) {
            proof {
                lemma_one_more_row(rows, i as int, before, before, None);
            }
            i += 1;
            continue;
        }
        if !is_subpath_key(key.as_str()) {
            let main: Option<String> = get_export_entry(exports);
            if let Some(main) = main {
                entries.push(main);
                assert(text::views(entries@) =~= before.push(main@));
            }
            proof {
                lemma_one_more_row(rows, i as int, before, text::views(entries@), text::opt_view(main));
                assert forall|e: Seq<char>| text::views(entries@).contains(e) <==> exported(
                    Some(exports@),
                    e,
                ) by {
                    if exists|j: int| row_gives(rows, j, e) {
                        let j = choose|j: int| row_gives(rows, j, e);
                        assert(condition_key(rows[i as int].0));
                        assert(j < i + 1 && row_gives(rows, j, e));
                    }
                }
            }
            return entries;
        }
        let target: Option<String> = get_export_entry(table.value_at(i));
        if let Some(target) = target {
            entries.push(target);
            assert(text::views(entries@) =~= before.push(target@));
        }
        proof {
            lemma_one_more_row(rows, i as int, before, text::views(entries@), text::opt_view(target));
        }
        i += 1;
    }
    assert forall|e: Seq<char>| text::views(entries@).contains(e) <==> exported(
        Some(exports@),
        e,
    ) by {
        if exists|j: int| row_gives(rows, j, e) {
            let j = choose|j: int| row_gives(rows, j, e);
            assert(j < i && row_gives(rows, j, e));
        }
    }
    entries
}

/// The entry files of a package, in ascending order and without repetition.
/// `additional_exports` are entries that are known of the package from elsewhere.
pub fn collect_pkg_entries(pkg_json: &PackageJSON, additional_exports: Vec<String>) -> (r: Result<
    Vec<String>,
    ServerError,
>)
    ensures
        r is Ok,
        text::ascending(text::views(r->Ok_0@)),
        forall|e: Seq<char>|
            text::views(r->Ok_0@).contains(e) <==> package_entry(
                pkg_json@,
                text::views(additional_exports@),
                e,
            ),
        pkg_json@.exports matches Some(ExportView::Table(table)) ==> (forall|i: int|
            0 <= i < table.len() ==> (#[trigger] table[i]).0.len() > 0 && table[i].0[0] == '.')
            ==> forall|i: int|
            0 <= i < table.len() && !text::occurs((#[trigger] table[i]).0, ".node"@)
                && !text::occurs(table[i].0, ".server"@) && export_entry(table[i].1) is Some
                ==> text::views(r->Ok_0@).contains(export_entry(table[i].1)->0),
{
    let ghost pkg = pkg_json@;
    let mut entries: Vec<String> = Vec::new();
    let mut is_list: bool = false;
    if let Some(exports) = &pkg_json.exports {
        match exports {
            PackageJSONExport::Table(table) => {
                entries = collect_table_entries(exports, table);
                proof {
                    lemma_table_view(*table);
                }
            },
            _ => {
                if let PackageJSONExport::Vec(items) = exports {
                    is_list = true;
                    proof {
                        lemma_list_view(*items);
                    }
                }
                if let Some(entry) = get_export_entry(exports) {
                    entries.push(entry);
                    assert(text::views(entries@)[0] == entry@);
                }
            },
        }
    }
    assert forall|e: Seq<char>| #[trigger] text::views(entries@).contains(e) <==> exported(
        pkg.exports,
        e,
    ) by {}
    let ghost from_exports = text::views(entries@);
    if !is_list && entries.len() == 0 {
        entries.push(get_main_entry(pkg_json));
        proof {
            assert(falls_back(pkg));
            assert(text::views(entries@) =~= seq![main_entry(pkg)]);
            assert(text::views(entries@)[0] == main_entry(pkg));
        }
    } else {
        proof {
            if !is_list {
                assert(exported(pkg.exports, from_exports[0]));
            }
        }
    }
    let ghost own = text::views(entries@);
    let ghost more = text::views(additional_exports@);
    let mut i: usize = 0;
    while i < additional_exports.len()
        invariant
            i <= additional_exports@.len(),
            more == text::views(additional_exports@),
            text::views(entries@) == own + more.take(i as int),
        decreases additional_exports.len() - i,
    {
        let ghost before = text::views(entries@);
        entries.push(additional_exports[i].clone());
        assert(text::views(entries@) =~= before.push(more[i as int]));
        assert(own + more.take(i + 1) =~= (own + more.take(i as int)).push(more[i as int]));
        i += 1;
    }
    let sorted: Vec<String> = text::sort_and_dedup(&entries);
    proof {
        assert(more.take(i as int) =~= more);
        let all = own + more;
        assert forall|e: Seq<char>| text::views(sorted@).contains(e) <==> package_entry(
            pkg,
            more,
            e,
        ) by {
            vstd::seq_lib::lemma_seq_concat_contains_all_elements(own, more, e);
        }
        if let Some(ExportView::Table(table)) = pkg.exports {
            if forall|i: int|
                0 <= i < table.len() ==> (#[trigger] table[i]).0.len() > 0 && table[i].0[0] == '.' {
                assert forall|i: int|
                    0 <= i < table.len() && !text::occurs((#[trigger] table[i]).0, ".node"@)
                        && !text::occurs(table[i].0, ".server"@) && export_entry(
                        table[i].1,
                    ) is Some implies text::views(sorted@).contains(
                    export_entry(table[i].1)->0,
                ) by {
                    law_subpaths_give_their_entries(table, export_entry(table[i].1)->0);
                    assert(package_entry(pkg, more, export_entry(table[i].1)->0));
                }
            }
        }
    }
    Ok(sorted)
}

/// No key of a table is a condition.
pub open spec fn only_subpaths(table: Seq<(Seq<char>, ExportView)>) -> bool {
    forall|i: int| 0 <= i < table.len() ==> !condition_key((#[trigger] table[i]).0)
}

/// The keys of a table are conditions, but for those that are of no use in a browser.
pub open spec fn only_conditions(table: Seq<(Seq<char>, ExportView)>) -> bool {
    forall|i: int|
        0 <= i < table.len() ==> server_key((#[trigger] table[i]).0) || condition_key(table[i].0)
}

/// The keys of a table are all subpaths, or all conditions; keys that are of no
/// use in a browser aside.
pub open spec fn uniform(table: Seq<(Seq<char>, ExportView)>) -> bool {
    only_subpaths(table) || only_conditions(table)
}

/// Two tables have the same rows, in whatever order.
pub open spec fn same_rows(
    a: Seq<(Seq<char>, ExportView)>,
    b: Seq<(Seq<char>, ExportView)>,
) -> bool {
    &&& a.len() == b.len()
    &&& str_map::distinct_keys(a)
    &&& str_map::distinct_keys(b)
    &&& forall|row: (Seq<char>, ExportView)| a.contains(row) <==> b.contains(row)
}

proof fn lemma_same_condition(
    a: Seq<(Seq<char>, ExportView)>,
    b: Seq<(Seq<char>, ExportView)>,
    key: Seq<char>,
)
    requires
        same_rows(a, b),
    ensures
        str_map::key_index(a, key, 0) < a.len() <==> str_map::key_index(b, key, 0) < b.len(),
        str_map::key_index(a, key, 0) < a.len() ==> a[str_map::key_index(a, key, 0)]
            == b[str_map::key_index(b, key, 0)],
{
    str_map::lemma_key_index(a, key, 0);
    str_map::lemma_key_index(b, key, 0);
    let i = str_map::key_index(a, key, 0);
    let j = str_map::key_index(b, key, 0);
    if i < a.len() {
        assert(a.contains(a[i]));
        let k = choose|k: int| 0 <= k < b.len() && b[k] == a[i];
        assert(b[k].0 == key);
        if j < k {
            assert(b[j].0 != b[k].0);
        }
    }
    if j < b.len() {
        assert(b.contains(b[j]));
        let k = choose|k: int| 0 <= k < a.len() && a[k] == b[j];
        assert(a[k].0 == key);
    }
}

/// The order in which a table of conditions is written down does not matter.
pub proof fn law_condition_order_is_fixed(
    a: Seq<(Seq<char>, ExportView)>,
    b: Seq<(Seq<char>, ExportView)>,
)
    requires
        same_rows(a, b),
    ensures
        export_entry(ExportView::Table(a)) == export_entry(ExportView::Table(b)),
{
    lemma_same_condition(a, b, "browser"@);
    lemma_same_condition(a, b, "development"@);
    lemma_same_condition(a, b, "default"@);
    lemma_same_condition(a, b, "require"@);
    lemma_same_condition(a, b, "import"@);
    str_map::lemma_key_index(a, "browser"@, 0);
    str_map::lemma_key_index(a, "development"@, 0);
    str_map::lemma_key_index(a, "default"@, 0);
    str_map::lemma_key_index(a, "require"@, 0);
    str_map::lemma_key_index(a, "import"@, 0);
    str_map::lemma_key_index(b, "browser"@, 0);
    str_map::lemma_key_index(b, "development"@, 0);
    str_map::lemma_key_index(b, "default"@, 0);
    str_map::lemma_key_index(b, "require"@, 0);
    str_map::lemma_key_index(b, "import"@, 0);
}

/// The first condition of a table that holds one.
proof fn lemma_first_condition(table: Seq<(Seq<char>, ExportView)>, k: int) -> (first: int)
    requires
        0 <= k < table.len(),
        condition_key(table[k].0),
    ensures
        0 <= first < table.len(),
        condition_key(table[first].0),
        forall|j: int| 0 <= j < first ==> !condition_key((#[trigger] table[j]).0),
    decreases k,
{
    if exists|j: int| 0 <= j < k && condition_key((#[trigger] table[j]).0) {
        let j = choose|j: int| 0 <= j < k && condition_key((#[trigger] table[j]).0);
        lemma_first_condition(table, j)
    } else {
        k
    }
}

/// Each row of a table stands in any table with the same rows.
proof fn lemma_row_stands(
    a: Seq<(Seq<char>, ExportView)>,
    b: Seq<(Seq<char>, ExportView)>,
    i: int,
) -> (k: int)
    requires
        same_rows(a, b),
        0 <= i < a.len(),
    ensures
        0 <= k < b.len(),
        b[k] == a[i],
{
    assert(a.contains(a[i]));
    choose|k: int| 0 <= k < b.len() && b[k] == a[i]
}

/// A table with the same rows as a uniform one is uniform in the same way.
proof fn lemma_uniform_moves(a: Seq<(Seq<char>, ExportView)>, b: Seq<(Seq<char>, ExportView)>)
    requires
        same_rows(a, b),
    ensures
        only_subpaths(a) ==> only_subpaths(b),
        only_conditions(a) ==> only_conditions(b),
{
    assert forall|j: int| 0 <= j < b.len() && only_subpaths(a) implies !condition_key(
        (#[trigger] b[j]).0,
    ) by {
        let i = lemma_row_stands(b, a, j);
        assert(!condition_key(a[i].0));
    }
    assert forall|j: int| 0 <= j < b.len() && only_conditions(a) implies server_key(
        (#[trigger] b[j]).0,
    ) || condition_key(b[j].0) by {
        let i = lemma_row_stands(b, a, j);
        assert(server_key(a[i].0) || condition_key(a[i].0));
    }
}

/// In a table without conditions each row gives its entry wherever it stands.
proof fn lemma_subpath_moves(
    a: Seq<(Seq<char>, ExportView)>,
    b: Seq<(Seq<char>, ExportView)>,
    i: int,
    e: Seq<char>,
)
    requires
        same_rows(a, b),
        only_subpaths(a),
        row_gives(a, i, e),
    ensures
        exported(Some(ExportView::Table(b)), e),
{
    lemma_uniform_moves(a, b);
    let k = lemma_row_stands(a, b, i);
    assert(!condition_key(a[i].0));
    assert(row_gives(b, k, e));
}

/// In a table of conditions the first one gives the table's entry, whichever it is.
proof fn lemma_condition_moves(
    a: Seq<(Seq<char>, ExportView)>,
    b: Seq<(Seq<char>, ExportView)>,
    i: int,
    e: Seq<char>,
)
    requires
        same_rows(a, b),
        only_conditions(a),
        row_gives(a, i, e),
    ensures
        exported(Some(ExportView::Table(b)), e),
{
    law_condition_order_is_fixed(a, b);
    let k = lemma_row_stands(a, b, i);
    assert(condition_key(a[i].0));
    let first = lemma_first_condition(b, k);
    assert(row_gives(b, first, e));
}

/// The order in which a uniform table of exports is written down does not change
/// the entries of the package. (A table that mixes subpaths and conditions is read
/// up to its first condition.)
pub proof fn law_export_order_is_irrelevant(
    a: Seq<(Seq<char>, ExportView)>,
    b: Seq<(Seq<char>, ExportView)>,
    e: Seq<char>,
)
    requires
        same_rows(a, b),
        uniform(a),
    ensures
        exported(Some(ExportView::Table(a)), e) == exported(Some(ExportView::Table(b)), e),
{
    lemma_uniform_moves(a, b);
    if exported(Some(ExportView::Table(a)), e) {
        let i = choose|i: int| row_gives(a, i, e);
        if only_subpaths(a) {
            lemma_subpath_moves(a, b, i, e);
        } else {
            lemma_condition_moves(a, b, i, e);
        }
    }
    if exported(Some(ExportView::Table(b)), e) {
        let i = choose|i: int| row_gives(b, i, e);
        if only_subpaths(b) {
            lemma_subpath_moves(b, a, i, e);
        } else {
            lemma_condition_moves(b, a, i, e);
        }
    }
}

/// A package whose exports give an entry gains none from `module`, `browser`,
/// `main` or `jsnext:main`, and no `index` either.
pub proof fn law_no_phantom_entry(
    pkg: PackageView,
    additional: Seq<Seq<char>>,
    given: Seq<char>,
    e: Seq<char>,
)
    requires
        exported(pkg.exports, given),
    ensures
        package_entry(pkg, additional, e) <==> exported(pkg.exports, e) || additional.contains(e),
{
}

/// A package without exports has its main entry.
pub proof fn law_main_entry_without_exports(pkg: PackageView, additional: Seq<Seq<char>>)
    requires
        pkg.exports is None,
    ensures
        package_entry(pkg, additional, main_entry(pkg)),
{
}

/// The entry of an export is what it says itself, what the first of its items gives that
/// gives anything, or what its deciding condition gives: `browser`, then `development`,
/// then `default`, then `require`, then `import`. Other conditions give nothing.
pub proof fn law_entry_of_an_export(
    path: Seq<char>,
    flag: Option<bool>,
    items: Seq<ExportView>,
    table: Seq<(Seq<char>, ExportView)>,
)
    requires
        str_map::distinct_keys(table),
    ensures
        export_entry(ExportView::Value(path)) == Some(path),
        export_entry(ExportView::Ignored(flag)) is None,
        (forall|i: int| 0 <= i < items.len() ==> export_entry(#[trigger] items[i]) is None)
            ==> export_entry(ExportView::List(items)) is None,
        forall|k: int|
            0 <= k < items.len() && export_entry(#[trigger] items[k]) is Some && (forall|i: int|
                0 <= i < k ==> export_entry(#[trigger] items[i]) is None) ==> export_entry(
                ExportView::List(items),
            ) == export_entry(items[k]),
        forall|k: int|
            0 <= k < table.len() && (#[trigger] table[k]).0 == "browser"@ ==> export_entry(
                ExportView::Table(table),
            ) == export_entry(table[k].1),
        forall|k: int|
            0 <= k < table.len() && (#[trigger] table[k]).0 == "development"@ && (forall|j: int|
                0 <= j < table.len() ==> (#[trigger] table[j]).0 != "browser"@) ==> export_entry(
                ExportView::Table(table),
            ) == export_entry(table[k].1),
        forall|k: int|
            0 <= k < table.len() && (#[trigger] table[k]).0 == "default"@ && (forall|j: int|
                0 <= j < table.len() ==> (#[trigger] table[j]).0 != "browser"@ && table[j].0
                    != "development"@) ==> export_entry(ExportView::Table(table)) == export_entry(
                table[k].1,
            ),
        forall|k: int|
            0 <= k < table.len() && (#[trigger] table[k]).0 == "require"@ && (forall|j: int|
                0 <= j < table.len() ==> (#[trigger] table[j]).0 != "browser"@ && table[j].0
                    != "development"@ && table[j].0 != "default"@) ==> export_entry(
                ExportView::Table(table),
            ) == export_entry(table[k].1),
        forall|k: int|
            0 <= k < table.len() && (#[trigger] table[k]).0 == "import"@ && (forall|j: int|
                0 <= j < table.len() ==> (#[trigger] table[j]).0 != "browser"@ && table[j].0
                    != "development"@ && table[j].0 != "default"@ && table[j].0 != "require"@)
                ==> export_entry(ExportView::Table(table)) == export_entry(table[k].1),
        (forall|j: int|
            0 <= j < table.len() ==> (#[trigger] table[j]).0 != "browser"@ && table[j].0
                != "development"@ && table[j].0 != "default"@ && table[j].0 != "require"@
                && table[j].0 != "import"@) ==> export_entry(ExportView::Table(table)) is None,
{
    lemma_first_entry(items);
    lemma_condition_decides(table);
}

proof fn lemma_first_entry(items: Seq<ExportView>)
    ensures
        (forall|i: int| 0 <= i < items.len() ==> export_entry(#[trigger] items[i]) is None)
            ==> first_entry(items) is None,
        forall|k: int|
            0 <= k < items.len() && export_entry(#[trigger] items[k]) is Some && (forall|i: int|
                0 <= i < k ==> export_entry(#[trigger] items[i]) is None) ==> first_entry(items)
                == export_entry(items[k]),
    decreases items.len(),
{
    if items.len() > 0 {
        let rest = items.drop_first();
        lemma_first_entry(rest);
        assert forall|i: int| 0 <= i < rest.len() implies #[trigger] rest[i] == items[i + 1] by {}
        assert forall|k: int|
            0 <= k < items.len() && export_entry(#[trigger] items[k]) is Some && (forall|i: int|
                0 <= i < k ==> export_entry(#[trigger] items[i]) is None) implies first_entry(items)
            == export_entry(items[k]) by {
            if k > 0 {
                assert(export_entry(items[0]) is None);
                assert(rest[k - 1] == items[k]);
                assert forall|i: int| 0 <= i < k - 1 implies export_entry(
                    #[trigger] rest[i],
                ) is None by {
                    assert(rest[i] == items[i + 1]);
                }
            }
        }
        if forall|i: int| 0 <= i < items.len() ==> export_entry(#[trigger] items[i]) is None {
            assert(export_entry(items[0]) is None);
            assert forall|i: int| 0 <= i < rest.len() implies export_entry(
                #[trigger] rest[i],
            ) is None by {
                assert(rest[i] == items[i + 1]);
            }
        }
    }
}

/// Where a key stands that is found, and which keys are not found.
proof fn lemma_key_stands(table: Seq<(Seq<char>, ExportView)>, key: Seq<char>)
    requires
        str_map::distinct_keys(table),
    ensures
        forall|k: int|
            0 <= k < table.len() && (#[trigger] table[k]).0 == key ==> str_map::key_index(
                table,
                key,
                0,
            ) == k,
        (forall|j: int| 0 <= j < table.len() ==> (#[trigger] table[j]).0 != key)
            ==> str_map::key_index(table, key, 0) == table.len(),
        0 <= str_map::key_index(table, key, 0) <= table.len(),
{
    str_map::lemma_key_index(table, key, 0);
    let i = str_map::key_index(table, key, 0);
    assert forall|k: int| 0 <= k < table.len() && (#[trigger] table[k]).0 == key implies i == k by {
        if i < k {
            assert(table[i].0 != table[k].0);
        }
    }
}

proof fn lemma_condition_decides(table: Seq<(Seq<char>, ExportView)>)
    requires
        str_map::distinct_keys(table),
    ensures
        forall|k: int|
            0 <= k < table.len() && (#[trigger] table[k]).0 == "browser"@ ==> condition_index(table)
                == k,
        forall|k: int|
            0 <= k < table.len() && (#[trigger] table[k]).0 == "development"@ && (forall|j: int|
                0 <= j < table.len() ==> (#[trigger] table[j]).0 != "browser"@)
                ==> condition_index(table) == k,
        forall|k: int|
            0 <= k < table.len() && (#[trigger] table[k]).0 == "default"@ && (forall|j: int|
                0 <= j < table.len() ==> (#[trigger] table[j]).0 != "browser"@ && table[j].0
                    != "development"@) ==> condition_index(table) == k,
        forall|k: int|
            0 <= k < table.len() && (#[trigger] table[k]).0 == "require"@ && (forall|j: int|
                0 <= j < table.len() ==> (#[trigger] table[j]).0 != "browser"@ && table[j].0
                    != "development"@ && table[j].0 != "default"@) ==> condition_index(table) == k,
        forall|k: int|
            0 <= k < table.len() && (#[trigger] table[k]).0 == "import"@ && (forall|j: int|
                0 <= j < table.len() ==> (#[trigger] table[j]).0 != "browser"@ && table[j].0
                    != "development"@ && table[j].0 != "default"@ && table[j].0 != "require"@)
                ==> condition_index(table) == k,
        (forall|j: int|
            0 <= j < table.len() ==> (#[trigger] table[j]).0 != "browser"@ && table[j].0
                != "development"@ && table[j].0 != "default"@ && table[j].0 != "require"@
                && table[j].0 != "import"@) ==> condition_index(table) == table.len(),
{
    lemma_key_stands(table, "browser"@);
    lemma_key_stands(table, "development"@);
    lemma_key_stands(table, "default"@);
    lemma_key_stands(table, "require"@);
    lemma_key_stands(table, "import"@);
}

/// A table of exports whose keys are all subpaths gives, for each of them, the entry of
/// its value, be that a path, a list or a table of conditions; subpaths that are of no use
/// in a browser aside. It gives nothing else.
pub proof fn law_subpaths_give_their_entries(table: Seq<(Seq<char>, ExportView)>, e: Seq<char>)
    requires
        forall|i: int|
            0 <= i < table.len() ==> (#[trigger] table[i]).0.len() > 0 && table[i].0[0] == '.',
    ensures
        exported(Some(ExportView::Table(table)), e) <==> exists|i: int|
            0 <= i < table.len() && !text::occurs((#[trigger] table[i]).0, ".node"@)
                && !text::occurs(table[i].0, ".server"@) && export_entry(table[i].1) == Some(e),
{
    if exists|i: int|
        0 <= i < table.len() && !text::occurs((#[trigger] table[i]).0, ".node"@) && !text::occurs(
            table[i].0,
            ".server"@,
        ) && export_entry(table[i].1) == Some(e) {
        let i = choose|i: int|
            0 <= i < table.len() && !text::occurs((#[trigger] table[i]).0, ".node"@)
                && !text::occurs(table[i].0, ".server"@) && export_entry(table[i].1) == Some(e);
        assert(row_gives(table, i, e));
    }
    if exported(Some(ExportView::Table(table)), e) {
        let i = choose|i: int| row_gives(table, i, e);
        assert(table[i].0.len() > 0 && table[i].0[0] == '.');
    }
}

/// A table of exports whose keys are all conditions gives the entry of the one that
/// decides, and nothing else.
pub proof fn law_conditions_give_one_entry(table: Seq<(Seq<char>, ExportView)>, e: Seq<char>)
    requires
        table.len() > 0,
        forall|i: int|
            0 <= i < table.len() ==> !((#[trigger] table[i]).0.len() > 0 && table[i].0[0] == '.')
                && !text::occurs(table[i].0, ".node"@) && !text::occurs(table[i].0, ".server"@),
    ensures
        exported(Some(ExportView::Table(table)), e) <==> export_entry(ExportView::Table(table))
            == Some(e),
{
    assert(!(table[0].0.len() > 0 && table[0].0[0] == '.'));
    if export_entry(ExportView::Table(table)) == Some(e) {
        assert(row_gives(table, 0, e));
    }
    if exported(Some(ExportView::Table(table)), e) {
        let i = choose|i: int| row_gives(table, i, e);
        assert(!(table[i].0.len() > 0 && table[i].0[0] == '.'));
    }
}

/// In a table of exports that mixes both, the subpaths before the first condition give
/// their entries, that condition gives the entry of the whole table, and what stands
/// behind it gives nothing.
pub proof fn law_mixed_table_is_read_to_its_first_condition(
    table: Seq<(Seq<char>, ExportView)>,
    first: int,
    e: Seq<char>,
)
    requires
        0 <= first < table.len(),
        !(table[first].0.len() > 0 && table[first].0[0] == '.'),
        !text::occurs(table[first].0, ".node"@),
        !text::occurs(table[first].0, ".server"@),
        forall|i: int|
            0 <= i < first ==> ((#[trigger] table[i]).0.len() > 0 && table[i].0[0] == '.')
                || text::occurs(table[i].0, ".node"@) || text::occurs(table[i].0, ".server"@),
    ensures
        exported(Some(ExportView::Table(table)), e) <==> export_entry(ExportView::Table(table))
            == Some(e) || exists|i: int|
            0 <= i < first && !text::occurs((#[trigger] table[i]).0, ".node"@) && !text::occurs(
                table[i].0,
                ".server"@,
            ) && export_entry(table[i].1) == Some(e),
{
    assert(condition_key(table[first].0));
    if export_entry(ExportView::Table(table)) == Some(e) {
        assert(row_gives(table, first, e));
    }
    if exists|i: int|
        0 <= i < first && !text::occurs((#[trigger] table[i]).0, ".node"@) && !text::occurs(
            table[i].0,
            ".server"@,
        ) && export_entry(table[i].1) == Some(e) {
        let i = choose|i: int|
            0 <= i < first && !text::occurs((#[trigger] table[i]).0, ".node"@) && !text::occurs(
                table[i].0,
                ".server"@,
            ) && export_entry(table[i].1) == Some(e);
        assert(row_gives(table, i, e));
    }
    if exported(Some(ExportView::Table(table)), e) {
        let i = choose|i: int| row_gives(table, i, e);
        assert(i <= first);
    }
}

/// An `exports` field that is no table gives its one entry, if it has one; without the
/// field there is none.
pub proof fn law_plain_export_gives_its_entry(export: ExportView, e: Seq<char>)
    requires
        !(export is Table),
    ensures
        exported(Some(export), e) <==> export_entry(export) == Some(e),
        !exported(None, e),
{
}

/// The entries of a package are those of its exports and the additional ones. If the
/// exports give none and are no list, there is one more: `module`; or, without it, a
/// `browser` field that is a path; or else `main`, or else `jsnext:main`, or else `index`.
pub proof fn law_entries_of_a_package(
    pkg: PackageView,
    additional: Seq<Seq<char>>,
    e: Seq<char>,
)
    ensures
        exported(pkg.exports, e) ==> package_entry(pkg, additional, e),
        additional.contains(e) ==> package_entry(pkg, additional, e),
        (exists|given: Seq<char>| exported(pkg.exports, given)) || (pkg.exports is Some
            && pkg.exports->0 is List) ==> (package_entry(pkg, additional, e) <==> exported(
            pkg.exports,
            e,
        ) || additional.contains(e)),
        (forall|given: Seq<char>| !exported(pkg.exports, given)) && !(pkg.exports is Some
            && pkg.exports->0 is List) ==> (package_entry(pkg, additional, e)
            <==> additional.contains(e) || (match (
            pkg.module,
            pkg.browser,
            pkg.main,
            pkg.js_next_main,
        ) {
            (Some(module), _, _, _) => e == module,
            (None, Some(ExportView::Value(path)), _, _) => e == path,
            (None, _, Some(main), _) => e == main,
            (None, _, None, Some(main)) => e == main,
            (None, _, None, None) => e == "index"@,
        })),
{
}

/// The member of a key is the one that stands last under it, and nothing if there is none.
pub proof fn law_last_member_counts(members: Seq<(Seq<char>, JsonView)>, key: Seq<char>)
    ensures
        forall|i: int|
            0 <= i < members.len() && (#[trigger] members[i]).0 == key && (forall|j: int|
                i < j < members.len() ==> (#[trigger] members[j]).0 != key) ==> member_value(
                members,
                key,
            ) == Some(members[i].1),
        (forall|j: int| 0 <= j < members.len() ==> (#[trigger] members[j]).0 != key)
            ==> member_value(members, key) is None,
    decreases members.len(),
{
    str_map::lemma_map_of_keys(members, key);
    if members.len() > 0 {
        let init = members.drop_last();
        law_last_member_counts(init, key);
        assert forall|i: int|
            0 <= i < members.len() && (#[trigger] members[i]).0 == key && (forall|j: int|
                i < j < members.len() ==> (#[trigger] members[j]).0 != key) implies member_value(
            members,
            key,
        ) == Some(members[i].1) by {
            if i < init.len() {
                assert(members[members.len() - 1].0 != key);
                assert(init[i] == members[i]);
                assert forall|j: int| i < j < init.len() implies (#[trigger] init[j]).0 != key by {
                    assert(members[j].0 != key);
                }
                assert(member_value(init, key) == Some(init[i].1));
            }
        }
    }
}

/// What is read of a `package.json`: texts are trimmed and blank ones left out, numbers are
/// texts in the name and the version only, and each field is read from its own member.
pub proof fn law_fields_of_a_package(members: Seq<(Seq<char>, JsonView)>)
    ensures
        package_of(JsonView::Object(members)).name == (match member_value(members, "name"@) {
            Some(JsonView::Text(s)) => text::trimmed(s),
            Some(JsonView::Number(n)) => n,
            _ => Seq::empty(),
        }),
        package_of(JsonView::Object(members)).version == (match member_value(
            members,
            "version"@,
        ) {
            Some(JsonView::Text(s)) => text::trimmed(s),
            Some(JsonView::Number(n)) => n,
            _ => Seq::empty(),
        }),
        package_of(JsonView::Object(members)).main == (match member_value(members, "main"@) {
            Some(JsonView::Text(s)) => if text::trimmed(s).len() > 0 {
                Some(text::trimmed(s))
            } else {
                None
            },
            _ => None,
        }),
        package_of(JsonView::Object(members)).module == (match member_value(members, "module"@) {
            Some(JsonView::Text(s)) => if text::trimmed(s).len() > 0 {
                Some(text::trimmed(s))
            } else {
                None
            },
            _ => None,
        }),
        package_of(JsonView::Object(members)).js_next_main == (match member_value(
            members,
            "jsnext:main"@,
        ) {
            Some(JsonView::Text(s)) => if text::trimmed(s).len() > 0 {
                Some(text::trimmed(s))
            } else {
                None
            },
            _ => None,
        }),
        package_of(JsonView::Object(members)).browser == (match member_value(
            members,
            "browser"@,
        ) {
            Some(value) => normalized(value),
            None => None,
        }),
        package_of(JsonView::Object(members)).exports == (match member_value(
            members,
            "exports"@,
        ) {
            Some(value) => normalized(value),
            None => None,
        }),
        package_of(JsonView::Object(members)).dependencies == declared(
            member_value(members, "dependencies"@),
        ),
        package_of(JsonView::Object(members)).peer_dependencies == declared(
            member_value(members, "peerDependencies"@),
        ),
{
}

/// A document that is no object says nothing of a package, and is no reason to fail.
pub proof fn law_other_documents_say_nothing(document: JsonView)
    requires
        !(document is Object),
    ensures
        package_of(document).name.len() == 0,
        package_of(document).version.len() == 0,
        package_of(document).main is None,
        package_of(document).module is None,
        package_of(document).js_next_main is None,
        package_of(document).browser is None,
        package_of(document).exports is None,
        package_of(document).dependencies is None,
        package_of(document).peer_dependencies is None,
{
}

/// A table of dependencies declares each range that is a text or a number, texts being
/// trimmed. It declares nothing for a blank text, for a key without a name, and for any
/// other value.
pub proof fn law_declared_ranges(members: Seq<(Seq<char>, JsonView)>)
    requires
        str_map::distinct_keys(members),
    ensures
        forall|i: int|
            0 <= i < members.len() && (#[trigger] members[i]).0.len() > 0 && members[i].1 is Text
                && text::trimmed(members[i].1->Text_0).len() > 0 ==> declared(
                Some(JsonView::Object(members)),
            ) is Some && declared(Some(JsonView::Object(members)))->0.contains(
                (members[i].0, text::trimmed(members[i].1->Text_0)),
            ),
        forall|i: int|
            0 <= i < members.len() && (#[trigger] members[i]).0.len() > 0 && members[i].1 is Number
                ==> declared(Some(JsonView::Object(members))) is Some && declared(
                Some(JsonView::Object(members)),
            )->0.contains((members[i].0, members[i].1->Number_0)),
        declared(Some(JsonView::Object(members))) matches Some(table) ==> table.len() > 0
            && forall|k: int|
            0 <= k < table.len() ==> (#[trigger] table[k]).0.len() > 0 && exists|i: int|
                0 <= i < members.len() && (#[trigger] members[i]).0 == table[k].0 && ((
                members[i].1 is Text && table[k].1 == text::trimmed(members[i].1->Text_0)
                    && table[k].1.len() > 0) || (members[i].1 is Number && table[k].1
                    == members[i].1->Number_0)),
        declared(None) is None,
{
    lemma_string_members(members);
}

proof fn lemma_string_members(members: Seq<(Seq<char>, JsonView)>)
    requires
        str_map::distinct_keys(members),
    ensures
        forall|i: int|
            0 <= i < members.len() && (#[trigger] members[i]).0.len() > 0 && members[i].1 is Text
                && text::trimmed(members[i].1->Text_0).len() > 0 ==> string_members(
                members,
            ).contains((members[i].0, text::trimmed(members[i].1->Text_0))),
        forall|i: int|
            0 <= i < members.len() && (#[trigger] members[i]).0.len() > 0 && members[i].1 is Number
                ==> string_members(members).contains((members[i].0, members[i].1->Number_0)),
        forall|k: int|
            0 <= k < string_members(members).len() ==> (#[trigger] string_members(
                members,
            )[k]).0.len() > 0 && exists|i: int|
                0 <= i < members.len() && (#[trigger] members[i]).0 == string_members(members)[k].0
                    && ((members[i].1 is Text && string_members(members)[k].1 == text::trimmed(
                    members[i].1->Text_0,
                ) && string_members(members)[k].1.len() > 0) || (members[i].1 is Number
                    && string_members(members)[k].1 == members[i].1->Number_0)),
    decreases members.len(),
{
    if members.len() > 0 {
        let init = members.drop_last();
        let rest = string_members(init);
        let all = string_members(members);
        let (key, value) = members.last();
        let last = members.len() - 1;
        assert forall|i: int, j: int| 0 <= i < j < init.len() implies (#[trigger] init[i]).0 != (
        #[trigger] init[j]).0 by {
            assert(members[i].0 != members[j].0);
        }
        lemma_string_members(init);
        assert forall|k: int| 0 <= k < rest.len() implies (#[trigger] rest[k]).0 != key by {
            let i = choose|i: int| 0 <= i < init.len() && (#[trigger] init[i]).0 == rest[k].0;
            assert(members[i].0 != members[last].0);
        }
        str_map::lemma_map_of_keys(rest, key);
        assert(members[last] == (key, value));
        let gained = string_or_number(Some(value));
        if gained is Some && key.len() > 0 {
            assert(all == rest.push((key, gained->0)));
            assert(all[rest.len() as int] == (key, gained->0));
        } else {
            assert(all == rest);
        }
        assert forall|row: (Seq<char>, Seq<char>)| rest.contains(row) implies #[trigger] all.contains(
            row,
        ) by {
            let k = choose|k: int| 0 <= k < rest.len() && rest[k] == row;
            assert(all[k] == row);
        }
        assert forall|i: int|
            0 <= i < members.len() && (#[trigger] members[i]).0.len() > 0 && members[i].1 is Text
                && text::trimmed(members[i].1->Text_0).len() > 0 implies all.contains(
            (members[i].0, text::trimmed(members[i].1->Text_0)),
        ) by {
            if i < last {
                assert(init[i] == members[i]);
                assert(rest.contains((init[i].0, text::trimmed(init[i].1->Text_0))));
            }
        }
        assert forall|i: int|
            0 <= i < members.len() && (#[trigger] members[i]).0.len() > 0 && members[i].1 is Number
            implies all.contains((members[i].0, members[i].1->Number_0)) by {
            if i < last {
                assert(init[i] == members[i]);
                assert(rest.contains((init[i].0, init[i].1->Number_0)));
            }
        }
        assert forall|k: int| 0 <= k < all.len() implies (#[trigger] all[k]).0.len() > 0 && exists|
            i: int,
        |
            0 <= i < members.len() && (#[trigger] members[i]).0 == all[k].0 && ((members[i].1 is Text
                && all[k].1 == text::trimmed(members[i].1->Text_0) && all[k].1.len() > 0) || (
            members[i].1 is Number && all[k].1 == members[i].1->Number_0)) by {
            if k < rest.len() {
                assert(all[k] == rest[k]);
                let i = choose|i: int|
                    0 <= i < init.len() && (#[trigger] init[i]).0 == rest[k].0 && ((
                    init[i].1 is Text && rest[k].1 == text::trimmed(init[i].1->Text_0)
                        && rest[k].1.len() > 0) || (init[i].1 is Number && rest[k].1
                        == init[i].1->Number_0));
                assert(members[i] == init[i]);
            } else {
                assert(members[last].0 == all[k].0);
            }
        }
    }
}

/// How an `exports` or `browser` field is read: `null` and booleans are kept as such, a
/// text is a path unless it is empty, and numbers are dropped. What is dropped of a list or
/// an object is left out of it; an empty list is dropped, an object never.
pub proof fn law_reading_of_an_export(
    flag: bool,
    path: Seq<char>,
    number: Seq<char>,
    items: Seq<JsonView>,
    item: JsonView,
    members: Seq<(Seq<char>, JsonView)>,
    member: (Seq<char>, JsonView),
)
    ensures
        normalized(JsonView::Null) == Some(ExportView::Ignored(None)),
        normalized(JsonView::Bool(flag)) == Some(ExportView::Ignored(Some(flag))),
        path.len() > 0 ==> normalized(JsonView::Text(path)) == Some(ExportView::Value(path)),
        path.len() == 0 ==> normalized(JsonView::Text(path)) is None,
        normalized(JsonView::Number(number)) is None,
        normalized(JsonView::Array(Seq::empty())) is None,
        normalized(item) is None ==> normalized(JsonView::Array(items.push(item))) == normalized(
            JsonView::Array(items),
        ),
        normalized(item) is Some ==> normalized(JsonView::Array(items.push(item))) == Some(
            ExportView::List(
                (match normalized(JsonView::Array(items)) {
                    Some(ExportView::List(list)) => list,
                    _ => Seq::empty(),
                }).push(normalized(item)->0),
            ),
        ),
        normalized(JsonView::Object(Seq::empty())) == Some(ExportView::Table(Seq::empty())),
        normalized(member.1) is None ==> normalized(JsonView::Object(members.push(member)))
            == normalized(JsonView::Object(members)),
        normalized(member.1) is Some && (forall|i: int|
            0 <= i < members.len() ==> (#[trigger] members[i]).0 != member.0) ==> normalized(
            JsonView::Object(members.push(member)),
        ) == Some(
            ExportView::Table(
                normalized(JsonView::Object(members))->0->Table_0.push(
                    (member.0, normalized(member.1)->0),
                ),
            ),
        ),
{
    assert(items.push(item).drop_last() =~= items);
    assert(members.push(member).drop_last() =~= members);
    assert(items.push(item)[items.len() as int] == item);
    assert(members.push(member)[members.len() as int] == member);
    if normalized_items(items).len() == 0 {
        assert(normalized_items(items) =~= Seq::empty());
    }
    if forall|i: int| 0 <= i < members.len() ==> (#[trigger] members[i]).0 != member.0 {
        lemma_normalized_keys(members, member.0);
        str_map::lemma_map_of_keys(normalized_members(members), member.0);
    }
    let none = Seq::<(Seq<char>, JsonView)>::empty();
    assert(normalized_members(none) =~= Seq::empty());
}

/// No key comes up that is not in the object.
proof fn lemma_normalized_keys(members: Seq<(Seq<char>, JsonView)>, key: Seq<char>)
    requires
        forall|i: int| 0 <= i < members.len() ==> (#[trigger] members[i]).0 != key,
    ensures
        forall|k: int|
            0 <= k < normalized_members(members).len() ==> (#[trigger] normalized_members(
                members,
            )[k]).0 != key,
    decreases members.len(),
{
    if members.len() > 0 {
        let init = members.drop_last();
        let rest = normalized_members(init);
        assert forall|i: int| 0 <= i < init.len() implies (#[trigger] init[i]).0 != key by {
            assert(members[i].0 != key);
        }
        lemma_normalized_keys(init, key);
        assert(members[members.len() - 1].0 != key);
    }
}

/// A byte order mark at the front of a file is no part of its JSON, however many there are;
/// nor is the white space at its ends.
pub proof fn law_json_part_has_no_mark(content: Seq<char>)
    ensures
        json_part(seq!['\u{feff}'] + content) == json_part(content),
        content.len() == 0 || content[0] != '\u{feff}' ==> json_part(content) == text::trimmed(
            content,
        ),
{
    assert((seq!['\u{feff}'] + content).drop_first() =~= content);
}

} // verus!
