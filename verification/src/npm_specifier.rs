//! Module specifiers: the string arguments of `import` and `require()`.
//!
//! A specifier names a file of its own package, or a package of the registry,
//! or neither. Whatever is neither (URI schemes, `node:…`, absolute paths,
//! garbage) is rejected, and never cut into a package name such as `https:`.

use vstd::prelude::*;

use crate::text;

verus! {

/// A specifier that the package graph can act on.
#[derive(Debug, Clone, PartialEq, Eq)]
pub enum ModuleSpecifier {
    /// `./foo`, `../bar`, `.`, `..`
    Relative(String),
    /// A package of the registry, with the path of a module in it, if one is
    /// given (`react-dom/client`, `@swc/helpers/_/_interop_require_default`).
    Package { name: String, subpath: Option<String> },
}

/// What a [`ModuleSpecifier`] says.
#[verifier::ext_equal]
pub enum SpecifierView {
    Relative(Seq<char>),
    Package { name: Seq<char>, subpath: Option<Seq<char>> },
}

impl View for ModuleSpecifier {
    type V = SpecifierView;

    open spec fn view(&self) -> SpecifierView {
        match self {
            ModuleSpecifier::Relative(path) => SpecifierView::Relative(path@),
            ModuleSpecifier::Package { name, subpath } => SpecifierView::Package {
                name: name@,
                subpath: match subpath {
                    Some(path) => Some(path@),
                    None => None,
                },
            },
        }
    }
}

/// The most bytes that a specifier may take.
pub const MAX_SPECIFIER_BYTES: usize = 2048;

/// The most characters that one segment of a package name may take.
pub const MAX_SEGMENT_LEN: usize = 214;

/// `.`, `..`, or a path that starts with `./` or `../`.
pub open spec fn relative(s: Seq<char>) -> bool {
    ||| s == seq!['.']
    ||| s == seq!['.', '.']
    ||| seq!['.', '/'].is_prefix_of(s)
    ||| seq!['.', '.', '/'].is_prefix_of(s)
}

/// A drive letter, a colon, and a slash of either kind.
pub open spec fn windows_path(s: Seq<char>) -> bool {
    &&& s.len() >= 3
    &&& text::ascii_letter(s[0])
    &&& s[1] == ':'
    &&& s[2] == '\\' || s[2] == '/'
}

pub open spec fn scheme_char(c: char) -> bool {
    text::ascii_alphanumeric(c) || c == '+' || c == '.' || c == '-'
}

/// `s` starts with a URI scheme (RFC 3986): a letter, then letters, digits,
/// `+`, `-` and `.`, then a colon.
pub open spec fn uri_scheme(s: Seq<char>) -> bool {
    &&& s.len() > 0
    &&& text::ascii_letter(s[0])
    &&& exists|k: int|
        0 < k < s.len() && #[trigger] s[k] == ':' && forall|j: int|
            0 < j < k ==> scheme_char(#[trigger] s[j])
}

pub open spec fn segment_char(c: char) -> bool {
    text::ascii_alphanumeric(c) || c == '-' || c == '_' || c == '.' || c == '~'
}

/// One segment of a package name: the scope or the name proper.
pub open spec fn name_segment(s: Seq<char>) -> bool {
    &&& 0 < s.len() <= MAX_SEGMENT_LEN
    &&& text::ascii_alphanumeric(s[0]) || s[0] == '~'
    &&& forall|i: int| 0 < i < s.len() ==> segment_char(#[trigger] s[i])
}

/// Where the name proper starts: behind the scope's slash, or at the front.
pub open spec fn base_start(s: Seq<char>) -> int {
    if s.len() > 0 && s[0] == '@' {
        text::next_index(s, '/', 1) + 1
    } else {
        0
    }
}

/// The package name that `s` starts with, and the subpath behind it.
///
/// `name`, `name/sub…`, `@scope/name` and `@scope/name/sub…` are package
/// imports; a slash with nothing behind it makes none.
pub open spec fn package_import(s: Seq<char>) -> Option<(Seq<char>, Option<Seq<char>>)> {
    let start = base_start(s);
    let end = text::next_index(s, '/', start);
    if start > s.len() {
        None
    } else if start > 0 && !name_segment(s.subrange(1, start - 1)) {
        None
    } else if !name_segment(s.subrange(start, end)) {
        None
    } else if end == s.len() {
        Some((s, None))
    } else if end + 1 == s.len() {
        None
    } else {
        Some((s.take(end), Some(s.skip(end + 1))))
    }
}

/// What a module specifier names; `None` when it is no edge of the graph.
pub open spec fn module_specifier(spec: Seq<char>) -> Option<SpecifierView> {
    let s = text::trimmed(spec);
    if s.len() == 0 || vstd::utf8::encode_utf8(s).len() > MAX_SPECIFIER_BYTES {
        None
    } else if relative(s) {
        Some(SpecifierView::Relative(s))
    } else if s[0] == '/' || windows_path(s) || uri_scheme(s) {
        None
    } else {
        match package_import(s) {
            Some((name, subpath)) => Some(SpecifierView::Package { name, subpath }),
            None => None,
        }
    }
}

/// `name` is a package name with no subpath.
pub open spec fn valid_package_name(name: Seq<char>) -> bool {
    module_specifier(name) matches Some(SpecifierView::Package { subpath: None, .. })
}

/// Classifies a static module specifier.
pub fn parse_module_specifier(spec: &str) -> (r: Option<ModuleSpecifier>)
    ensures
        r is Some <==> module_specifier(spec@) is Some,
        r matches Some(m) ==> module_specifier(spec@) == Some(m@),
{
    let s: &str = text::trim(spec);
    if s.is_empty() || text::byte_len(s) > MAX_SPECIFIER_BYTES {
        return None;
    }
    if is_relative(s) {
        return Some(ModuleSpecifier::Relative(s.to_string()));
    }
    if s.get_char(0) == '/' || looks_like_windows_path(s) || has_uri_scheme(s) {
        return None;
    }
    match parse_package_import(s) {
        Some((name, subpath)) => Some(ModuleSpecifier::Package { name, subpath }),
        None => None,
    }
}

/// The package that a specifier names, without the subpath.
pub fn package_name_from_specifier(spec: &str) -> (r: Option<String>)
    ensures
        (match module_specifier(spec@) {
            Some(SpecifierView::Package { name, .. }) => r is Some && r->0@ == name,
            _ => r is None,
        }),
{
    match parse_module_specifier(spec) {
        Some(ModuleSpecifier::Package { name, .. }) => Some(name),
        _ => None,
    }
}

/// True when `name` is a well-formed package name with no subpath.
pub fn is_valid_package_name(name: &str) -> (r: bool)
    ensures
        r == valid_package_name(name@),
{
    match parse_module_specifier(name) {
        Some(ModuleSpecifier::Package { subpath: None, .. }) => true,
        _ => false,
    }
}

pub fn is_relative(spec: &str) -> (r: bool)
    ensures
        r == relative(spec@),
{
    let chars: Vec<char> = text::to_chars(spec);
    let n: usize = chars.len();
    let dot: bool = n > 0 && chars[0] == '.';
    let dots: bool = dot && n > 1 && chars[1] == '.';
    let r: bool = (dot && (n == 1 || chars[1] == '/')) || (dots && (n == 2 || chars[2] == '/'));
    proof {
        if dot && n == 1 {
            assert(spec@ =~= seq!['.']);
        }
        if dots && n == 2 {
            assert(spec@ =~= seq!['.', '.']);
        }
        assert(seq!['.', '/'].is_prefix_of(spec@) <==> n >= 2 && spec@[0] == '.' && spec@[1]
            == '/') by {
            if n >= 2 && spec@[0] == '.' && spec@[1] == '/' {
                assert(seq!['.', '/'] =~= spec@.subrange(0, 2));
            }
        }
        assert(seq!['.', '.', '/'].is_prefix_of(spec@) <==> n >= 3 && spec@[0] == '.' && spec@[1]
            == '.' && spec@[2] == '/') by {
            if n >= 3 && spec@[0] == '.' && spec@[1] == '.' && spec@[2] == '/' {
                assert(seq!['.', '.', '/'] =~= spec@.subrange(0, 3));
            }
        }
    }
    r
}

pub fn looks_like_windows_path(spec: &str) -> (r: bool)
    ensures
        r == windows_path(spec@),
{
    let chars: Vec<char> = text::to_chars(spec);
    chars.len() >= 3 && text::is_ascii_letter(chars[0]) && chars[1] == ':' && (chars[2] == '\\'
        || chars[2] == '/')
}

pub fn has_uri_scheme(spec: &str) -> (r: bool)
    ensures
        r == uri_scheme(spec@),
{
    let chars: Vec<char> = text::to_chars(spec);
    if chars.len() == 0 || !text::is_ascii_letter(chars[0]) {
        return false;
    }
    let mut i: usize = 1;
    while i < chars.len()
        invariant
            chars@ == spec@,
            1 <= i <= spec@.len(),
            text::ascii_letter(spec@[0]),
            forall|j: int| 0 < j < i ==> scheme_char(#[trigger] spec@[j]) && spec@[j] != ':',
        decreases chars.len() - i,
    {
        let c: char = chars[i];
        if c == ':' {
            return true;
        }
        if !(text::is_ascii_letter(c) || text::is_ascii_digit(c) || c == '+' || c == '.' || c
            == '-') {
            assert(!scheme_char(spec@[i as int]));
            return false;
        }
        i += 1;
    }
    false
}

/// Splits a package import into the package's name and the subpath.
pub fn parse_package_import(spec: &str) -> (r: Option<(String, Option<String>)>)
    ensures
        (match r {
            Some((name, Some(subpath))) => package_import(spec@) == Some((name@, Some(subpath@))),
            Some((name, None)) => package_import(spec@) == Some((name@, None::<Seq<char>>)),
            None => package_import(spec@) is None,
        }),
{
    let chars: Vec<char> = text::to_chars(spec);
    let n: usize = chars.len();
    let mut start: usize = 0;
    if n > 0 && chars[0] == '@' {
        let slash: usize = text::find_char(&chars, '/', 1);
        if slash == n {
            return None;
        }
        if !is_valid_name_segment(spec.substring_char(1, slash)) {
            return None;
        }
        start = slash + 1;
    }
    let end: usize = text::find_char(&chars, '/', start);
    if !is_valid_name_segment(spec.substring_char(start, end)) {
        return None;
    }
    if end == n {
        Some((spec.to_string(), None))
    } else if end + 1 == n {
        None
    } else {
        Some(
            (
                spec.substring_char(0, end).to_string(),
                Some(spec.substring_char(end + 1, n).to_string()),
            ),
        )
    }
}

pub fn is_valid_name_segment(seg: &str) -> (r: bool)
    ensures
        r == name_segment(seg@),
{
    let chars: Vec<char> = text::to_chars(seg);
    if chars.len() == 0 || chars.len() > MAX_SEGMENT_LEN {
        return false;
    }
    let first: char = chars[0];
    if !(text::is_ascii_letter(first) || text::is_ascii_digit(first) || first == '~') {
        return false;
    }
    let mut i: usize = 1;
    while i < chars.len()
        invariant
            chars@ == seg@,
            1 <= i <= seg@.len() <= MAX_SEGMENT_LEN,
            forall|j: int| 0 < j < i ==> segment_char(#[trigger] seg@[j]),
        decreases chars.len() - i,
    {
        let c: char = chars[i];
        if !(text::is_ascii_letter(c) || text::is_ascii_digit(c) || c == '-' || c == '_' || c == '.'
            || c == '~') {
            assert(!segment_char(seg@[i as int]));
            return false;
        }
        i += 1;
    }
    true
}

/// What a package import's name is made of: it is a prefix of the import, its
/// characters are ASCII, and it is a package import of its own.
proof fn lemma_package_import(s: Seq<char>)
    requires
        s.len() > 0,
        package_import(s) is Some,
    ensures
        ({
            let (name, subpath) = package_import(s)->0;
            &&& 0 < name.len() <= 2 * MAX_SEGMENT_LEN + 2
            &&& vstd::utf8::is_ascii_chars(name)
            &&& forall|i: int|
                0 <= i < name.len() ==> #[trigger] name[i] != ':' && !text::white_space(name[i])
            &&& name[0] != '.' && name[0] != '/'
            &&& package_import(name) == Some((name, None::<Seq<char>>))
            &&& s == (match subpath {
                Some(path) => name + seq!['/'] + path,
                None => name,
            })
        }),
{
    let start = base_start(s);
    let end = text::next_index(s, '/', start);
    text::lemma_next_index(s, '/', 1);
    text::lemma_next_index(s, '/', start);
    let (name, subpath) = package_import(s)->0;
    assert(name =~= s.take(end));
    let base = s.subrange(start, end);
    let scope = s.subrange(1, start - 1);
    assert(base[0] == s[start]);
    assert forall|i: int| 0 <= i < name.len() implies '\0' <= #[trigger] name[i] <= '\u{7f}'
        && name[i] != ':' && !text::white_space(name[i]) by {
        if i >= start {
            assert(segment_char(base[i - start]) || base[i - start] == '~');
        } else if 0 < i < start - 1 {
            assert(segment_char(scope[i - 1]) || scope[i - 1] == '~');
        }
    }
    if start > 0 {
        text::lemma_next_index_is(name, '/', 1, start - 1);
        assert(name.subrange(1, start - 1) =~= scope);
    }
    assert(base_start(name) == start);
    text::lemma_next_index_is(name, '/', start, end);
    assert(name.subrange(start, end) =~= base);
    if end < s.len() {
        assert(s =~= name + seq!['/'] + s.skip(end + 1));
    }
}

/// No package name holds a colon: a URI never becomes a package, whatever its
/// scheme is.
pub proof fn law_package_name_has_no_colon(
    spec: Seq<char>,
    name: Seq<char>,
    subpath: Option<Seq<char>>,
)
    requires
        module_specifier(spec) == Some(SpecifierView::Package { name, subpath }),
    ensures
        !name.contains(':'),
{
    lemma_package_import(text::trimmed(spec));
}

/// The name that a specifier is found to hold is itself a well-formed package
/// name, and classifying it again gives the same name.
pub proof fn law_package_name_is_valid(
    spec: Seq<char>,
    name: Seq<char>,
    subpath: Option<Seq<char>>,
)
    requires
        module_specifier(spec) == Some(SpecifierView::Package { name, subpath }),
    ensures
        valid_package_name(name),
        module_specifier(name) == Some(SpecifierView::Package { name, subpath: None }),
{
    lemma_package_import(text::trimmed(spec));
    text::lemma_trimmed_fixed(name);
    vstd::utf8::is_ascii_chars_encode_utf8(name);
    assert(!relative(name)) by {
        assert(seq!['.', '/'][0] == '.' && seq!['.', '.', '/'][0] == '.');
    }
}

/// A package specifier is, but for white space around it, its package's name,
/// followed by a slash and the subpath if there is one.
pub proof fn law_specifier_is_name_and_subpath(
    spec: Seq<char>,
    name: Seq<char>,
    subpath: Option<Seq<char>>,
)
    requires
        module_specifier(spec) == Some(SpecifierView::Package { name, subpath }),
    ensures
        text::trimmed(spec) == (match subpath {
            Some(path) => name + seq!['/'] + path,
            None => name,
        }),
{
    lemma_package_import(text::trimmed(spec));
}

/// White space around a specifier makes no difference.
pub proof fn law_specifier_ignores_outer_space(spec: Seq<char>)
    ensures
        module_specifier(text::trimmed(spec)) == module_specifier(spec),
{
    text::lemma_trimmed_ends(spec);
    text::lemma_trimmed_fixed(text::trimmed(spec));
}

/// Whatever starts with a URI scheme is no edge of the graph.
pub proof fn law_uri_is_rejected(spec: Seq<char>)
    requires
        uri_scheme(text::trimmed(spec)),
    ensures
        module_specifier(spec) is None,
{
    assert(seq!['.', '/'][0] == '.' && seq!['.', '.', '/'][0] == '.');
}

/// A segment of a package name is one to 214 letters, digits, `-`, `_`, `.` and `~`, the
/// first of which is a letter, a digit or `~`.
pub proof fn law_name_segments(seg: Seq<char>)
    ensures
        name_segment(seg) <==> 0 < seg.len() <= 214 && ('a' <= seg[0] <= 'z' || 'A' <= seg[0]
            <= 'Z' || '0' <= seg[0] <= '9' || seg[0] == '~') && forall|i: int|
            0 < i < seg.len() ==> 'a' <= #[trigger] seg[i] <= 'z' || 'A' <= seg[i] <= 'Z' || '0'
                <= seg[i] <= '9' || seg[i] == '-' || seg[i] == '_' || seg[i] == '.' || seg[i]
                == '~',
{
    if name_segment(seg) {
        assert forall|i: int| 0 < i < seg.len() implies 'a' <= #[trigger] seg[i] <= 'z' || 'A'
            <= seg[i] <= 'Z' || '0' <= seg[i] <= '9' || seg[i] == '-' || seg[i] == '_' || seg[i]
            == '.' || seg[i] == '~' by {
            assert(segment_char(seg[i]));
        }
    }
}

/// What a segment is not made of.
proof fn lemma_segment_chars(seg: Seq<char>)
    requires
        name_segment(seg),
    ensures
        forall|i: int|
            0 <= i < seg.len() ==> #[trigger] seg[i] != '/' && seg[i] != ':' && seg[i] != '@'
                && seg[i] != '\\' && !text::white_space(seg[i]),
        seg[0] != '.',
{
    assert forall|i: int| 0 <= i < seg.len() implies #[trigger] seg[i] != '/' && seg[i] != ':'
        && seg[i] != '@' && seg[i] != '\\' && !text::white_space(seg[i]) by {
        if i > 0 {
            assert(segment_char(seg[i]));
        }
    }
}

/// A text that begins with a slash-free name is neither relative nor a path nor a URI.
proof fn lemma_begins_with_a_name(s: Seq<char>, end: int)
    requires
        0 < end <= s.len(),
        s[0] != '.',
        s[0] != '/',
        end < s.len() ==> s[end] == '/',
        forall|i: int| 0 <= i < end ==> #[trigger] s[i] != ':',
    ensures
        !relative(s),
        !windows_path(s),
        !uri_scheme(s),
{
    assert(seq!['.', '/'][0] == '.' && seq!['.', '.', '/'][0] == '.');
    if uri_scheme(s) {
        let k = choose|k: int|
            0 < k < s.len() && #[trigger] s[k] == ':' && forall|j: int|
                0 < j < k ==> scheme_char(#[trigger] s[j]);
        assert(k > end);
        assert(scheme_char(s[end]));
    }
}

/// The segment of a plain name is a package; followed by a slash and a path, it is the
/// package of that path.
pub proof fn law_plain_name_is_a_package(name: Seq<char>, path: Seq<char>)
    requires
        name_segment(name),
    ensures
        module_specifier(name) == Some(SpecifierView::Package { name, subpath: None }),
        path.len() > 0 && !text::white_space(path.last()) && vstd::utf8::encode_utf8(
            name + seq!['/'] + path,
        ).len() <= 2048 ==> module_specifier(name + seq!['/'] + path) == Some(
            SpecifierView::Package { name, subpath: Some(path) },
        ),
        module_specifier(name + seq!['/']) is None,
{
    lemma_segment_chars(name);
    text::lemma_trimmed_fixed(name);
    lemma_begins_with_a_name(name, name.len() as int);
    text::lemma_next_index_is(name, '/', 0, name.len() as int);
    assert(name.subrange(0, name.len() as int) =~= name);
    assert(vstd::utf8::is_ascii_chars(name)) by {
        assert forall|i: int| 0 <= i < name.len() implies '\0' <= #[trigger] name[i] <= '\u{7f}' by {
            if i > 0 {
                assert(segment_char(name[i]));
            }
        }
    }
    vstd::utf8::is_ascii_chars_encode_utf8(name);
    let s = name + seq!['/'] + path;
    assert(s.len() == name.len() + 1 + path.len());
    text::lemma_next_index_is(s, '/', 0, name.len() as int);
    assert(s.subrange(0, name.len() as int) =~= name);
    assert(s.take(name.len() as int) =~= name);
    assert(s.skip(name.len() as int + 1) =~= path);
    lemma_begins_with_a_name(s, name.len() as int);
    if path.len() > 0 && !text::white_space(path.last()) {
        assert(s[0] == name[0] && s.last() == path.last());
        text::lemma_trimmed_fixed(s);
    }
    let t = name + seq!['/'];
    text::lemma_next_index_is(t, '/', 0, name.len() as int);
    assert(t.subrange(0, name.len() as int) =~= name);
    assert(t[0] == name[0] && t.last() == '/');
    text::lemma_trimmed_fixed(t);
    lemma_begins_with_a_name(t, name.len() as int);
}

/// Two segments after an `@`, with a slash between them, are a package; followed by a slash
/// and a path, they are the package of that path. A scope alone is no package.
pub proof fn law_scoped_name_is_a_package(scope: Seq<char>, base: Seq<char>, path: Seq<char>)
    requires
        name_segment(scope),
        name_segment(base),
    ensures
        module_specifier(seq!['@'] + scope + seq!['/'] + base) == Some(
            SpecifierView::Package {
                name: seq!['@'] + scope + seq!['/'] + base,
                subpath: None,
            },
        ),
        path.len() > 0 && !text::white_space(path.last()) && vstd::utf8::encode_utf8(
            seq!['@'] + scope + seq!['/'] + base + seq!['/'] + path,
        ).len() <= 2048 ==> module_specifier(
            seq!['@'] + scope + seq!['/'] + base + seq!['/'] + path,
        ) == Some(
            SpecifierView::Package {
                name: seq!['@'] + scope + seq!['/'] + base,
                subpath: Some(path),
            },
        ),
        module_specifier(seq!['@'] + scope) is None,
{
    let name = seq!['@'] + scope + seq!['/'] + base;
    let slash = scope.len() as int + 1;
    lemma_segment_chars(scope);
    lemma_segment_chars(base);
    assert(name[0] == '@' && name.last() == base.last());
    assert(base.last() == base[base.len() - 1]);
    text::lemma_trimmed_fixed(name);
    assert forall|i: int| 0 <= i < name.len() implies #[trigger] name[i] != ':' by {
        if 0 < i < slash {
            assert(name[i] == scope[i - 1]);
        } else if i > slash {
            assert(name[i] == base[i - slash - 1]);
        }
    }
    assert forall|i: int| 1 <= i < slash implies #[trigger] name[i] != '/' by {
        assert(name[i] == scope[i - 1]);
    }
    assert forall|i: int| slash < i < name.len() implies #[trigger] name[i] != '/' by {
        assert(name[i] == base[i - slash - 1]);
    }
    lemma_begins_with_a_name(name, name.len() as int);
    text::lemma_next_index_is(name, '/', 1, slash);
    text::lemma_next_index_is(name, '/', slash + 1, name.len() as int);
    assert(name.subrange(1, slash) =~= scope);
    assert(name.subrange(slash + 1, name.len() as int) =~= base);
    assert(vstd::utf8::is_ascii_chars(name)) by {
        assert forall|i: int| 0 <= i < name.len() implies '\0' <= #[trigger] name[i] <= '\u{7f}' by {
            if 0 < i < slash {
                assert(name[i] == scope[i - 1]);
                assert(segment_char(scope[i - 1]) || scope[i - 1] == '~');
            } else if i > slash {
                assert(name[i] == base[i - slash - 1]);
                assert(segment_char(base[i - slash - 1]) || base[i - slash - 1] == '~');
            }
        }
    }
    vstd::utf8::is_ascii_chars_encode_utf8(name);
    let end = name.len() as int;
    let s = name + seq!['/'] + path;
    assert(forall|i: int| 0 <= i < end ==> #[trigger] s[i] == name[i]);
    text::lemma_next_index_is(s, '/', 1, slash);
    text::lemma_next_index_is(s, '/', slash + 1, end);
    assert(s.subrange(1, slash) =~= scope);
    assert(s.subrange(slash + 1, end) =~= base);
    assert(s.take(end) =~= name);
    assert(s.skip(end + 1) =~= path);
    lemma_begins_with_a_name(s, end);
    if path.len() > 0 && !text::white_space(path.last()) {
        assert(s.last() == path.last());
        text::lemma_trimmed_fixed(s);
    }
    let alone = seq!['@'] + scope;
    assert(alone[0] == '@' && alone.last() == scope.last());
    assert(scope.last() == scope[scope.len() - 1]);
    text::lemma_trimmed_fixed(alone);
    assert forall|i: int| 1 <= i < alone.len() implies #[trigger] alone[i] != '/' by {
        assert(alone[i] == scope[i - 1]);
    }
    text::lemma_next_index_is(alone, '/', 1, alone.len() as int);
    assert(!relative(alone)) by {
        assert(seq!['.', '/'][0] == '.' && seq!['.', '.', '/'][0] == '.');
    }
}

/// A package that is found is a segment, or two of them after an `@` with a slash between
/// them.
pub proof fn law_found_package_is_plain_or_scoped(
    spec: Seq<char>,
    name: Seq<char>,
    subpath: Option<Seq<char>>,
)
    requires
        module_specifier(spec) == Some(SpecifierView::Package { name, subpath }),
    ensures
        name_segment(name) || exists|scope: Seq<char>, base: Seq<char>|
            name_segment(scope) && name_segment(base) && name == #[trigger] (seq!['@'] + scope
                + seq!['/'] + base),
        subpath matches Some(path) ==> path.len() > 0,
{
    let s = text::trimmed(spec);
    let start = base_start(s);
    let end = text::next_index(s, '/', start);
    text::lemma_next_index(s, '/', 1);
    text::lemma_next_index(s, '/', start);
    assert(name =~= s.take(end));
    if start > 0 {
        let scope = s.subrange(1, start - 1);
        let base = s.subrange(start, end);
        assert(name =~= seq!['@'] + scope + seq!['/'] + base);
    } else {
        assert(s.subrange(0, end) =~= name);
    }
}

/// A specifier is a path of its own package if and only if, white space around it aside, it
/// is `.` or `..` or begins with `./` or `../`, and it is not too long.
pub proof fn law_relative_specifiers(spec: Seq<char>, path: Seq<char>)
    ensures
        module_specifier(spec) == Some(SpecifierView::Relative(path)) <==> path == text::trimmed(
            spec,
        ) && vstd::utf8::encode_utf8(path).len() <= 2048 && path.len() > 0 && path[0] == '.' && (
        path.len() == 1 || path[1] == '/' || (path[1] == '.' && (path.len() == 2 || path[2]
            == '/'))),
{
    let s = text::trimmed(spec);
    let one = seq!['.', '/'];
    let two = seq!['.', '.', '/'];
    if s.len() == 1 && s[0] == '.' {
        assert(s =~= seq!['.']);
    }
    if s.len() == 2 && s[0] == '.' && s[1] == '.' {
        assert(s =~= seq!['.', '.']);
    }
    if s.len() >= 2 && s[0] == '.' && s[1] == '/' {
        assert(one =~= s.subrange(0, 2));
    }
    if s.len() >= 3 && s[0] == '.' && s[1] == '.' && s[2] == '/' {
        assert(two =~= s.subrange(0, 3));
    }
    if one.is_prefix_of(s) {
        assert(one[0] == s[0] && one[1] == s[1]);
    }
    if two.is_prefix_of(s) {
        assert(two[0] == s[0] && two[1] == s[1] && two[2] == s[2]);
    }
}

/// What is blank, too long, an absolute path of either kind or a URI is no edge of the
/// graph.
pub proof fn law_what_is_no_edge(spec: Seq<char>, k: int)
    ensures
        text::trimmed(spec).len() == 0 ==> module_specifier(spec) is None,
        vstd::utf8::encode_utf8(text::trimmed(spec)).len() > 2048 ==> module_specifier(spec) is None,
        text::trimmed(spec).len() > 0 && text::trimmed(spec)[0] == '/' ==> module_specifier(
            spec,
        ) is None,
        text::trimmed(spec).len() >= 3 && ('a' <= text::trimmed(spec)[0] <= 'z' || 'A'
            <= text::trimmed(spec)[0] <= 'Z') && text::trimmed(spec)[1] == ':' && (text::trimmed(
            spec,
        )[2] == '/' || text::trimmed(spec)[2] == '\\') ==> module_specifier(spec) is None,
        0 < k < text::trimmed(spec).len() && text::trimmed(spec)[k] == ':' && ('a'
            <= text::trimmed(spec)[0] <= 'z' || 'A' <= text::trimmed(spec)[0] <= 'Z') && (forall|
            j: int,
        |
            0 < j < k ==> 'a' <= #[trigger] text::trimmed(spec)[j] <= 'z' || 'A' <= text::trimmed(
                spec,
            )[j] <= 'Z' || '0' <= text::trimmed(spec)[j] <= '9' || text::trimmed(spec)[j] == '+'
                || text::trimmed(spec)[j] == '-' || text::trimmed(spec)[j] == '.')
            ==> module_specifier(spec) is None,
{
    let s = text::trimmed(spec);
    assert(seq!['.', '/'][0] == '.' && seq!['.', '.', '/'][0] == '.');
    if 0 < k < s.len() && s[k] == ':' && (forall|j: int|
        0 < j < k ==> 'a' <= #[trigger] s[j] <= 'z' || 'A' <= s[j] <= 'Z' || '0' <= s[j] <= '9'
            || s[j] == '+' || s[j] == '-' || s[j] == '.') {
        assert forall|j: int| 0 < j < k implies scheme_char(#[trigger] s[j]) by {}
    }
}

/// A path of Windows begins with a drive: a letter, a colon, and a slash of either kind.
pub proof fn law_paths_of_windows(drive: char, slash: char, rest: Seq<char>, s: Seq<char>)
    ensures
        windows_path(seq![drive, ':', slash] + rest) <==> ('a' <= drive <= 'z' || 'A' <= drive
            <= 'Z') && (slash == '\\' || slash == '/'),
        s.len() < 3 || s[1] != ':' ==> !windows_path(s),
{
}

} // verus!
