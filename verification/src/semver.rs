//! Versions and version ranges, as npm writes them.
//!
//! `node_semver` reads them; here stands what it does with a text, what the order
//! of versions is, and which range texts it can read at all.

use vstd::prelude::*;

use crate::text;

verus! {

/// The largest number that may stand in a version.
pub const MAX_SAFE_INTEGER: u64 = 900_719_925_474_099;

/// One part of a pre-release or of build metadata.
#[derive(Debug)]
pub enum Identifier {
    Numeric(u64),
    AlphaNumeric(String),
}

/// A version.
#[derive(Debug)]
pub struct Version {
    pub major: u64,
    pub minor: u64,
    pub patch: u64,
    pub pre_release: Vec<Identifier>,
    pub build: Vec<Identifier>,
}

/// What an [`Identifier`] says.
#[verifier::ext_equal]
pub enum IdentifierView {
    Numeric(nat),
    AlphaNumeric(Seq<char>),
}

/// What a [`Version`] says.
#[verifier::ext_equal]
pub struct VersionView {
    pub major: nat,
    pub minor: nat,
    pub patch: nat,
    pub pre_release: Seq<IdentifierView>,
    pub build: Seq<IdentifierView>,
}

impl View for Identifier {
    type V = IdentifierView;

    open spec fn view(&self) -> IdentifierView {
        match self {
            Identifier::Numeric(n) => IdentifierView::Numeric(*n as nat),
            Identifier::AlphaNumeric(s) => IdentifierView::AlphaNumeric(s@),
        }
    }
}

pub open spec fn identifier_views(ids: Seq<Identifier>) -> Seq<IdentifierView> {
    ids.map_values(|id: Identifier| id@)
}

impl View for Version {
    type V = VersionView;

    open spec fn view(&self) -> VersionView {
        VersionView {
            major: self.major as nat,
            minor: self.minor as nat,
            patch: self.patch as nat,
            pre_release: identifier_views(self.pre_release@),
            build: identifier_views(self.build@),
        }
    }
}

/// What `node_semver::Version::parse` makes of a text: a version, or the message of
/// its error.
pub uninterp spec fn parsed_version(text: Seq<char>) -> Result<VersionView, Seq<char>>;

/// Whether `node_semver::Range::parse` accepts a text.
pub uninterp spec fn range_parses(text: Seq<char>) -> bool;

/// Whether the range that a text denotes admits a version, by
/// `node_semver::Range::satisfies`.
pub uninterp spec fn range_admits(range: Seq<char>, version: VersionView) -> bool;

/// Numbers stand before words.
pub open spec fn identifier_less(a: IdentifierView, b: IdentifierView) -> bool {
    match (a, b) {
        (IdentifierView::Numeric(m), IdentifierView::Numeric(n)) => m < n,
        (IdentifierView::Numeric(_), IdentifierView::AlphaNumeric(_)) => true,
        (IdentifierView::AlphaNumeric(_), IdentifierView::Numeric(_)) => false,
        (IdentifierView::AlphaNumeric(s), IdentifierView::AlphaNumeric(t)) => text::text_less(s, t),
    }
}

pub open spec fn identifiers_less(a: Seq<IdentifierView>, b: Seq<IdentifierView>) -> bool
    decreases a.len(),
{
    if a.len() == 0 || b.len() == 0 {
        b.len() > 0
    } else if a[0] == b[0] {
        identifiers_less(a.drop_first(), b.drop_first())
    } else {
        identifier_less(a[0], b[0])
    }
}

/// A version without a pre-release comes after its pre-releases.
pub open spec fn pre_release_less(a: Seq<IdentifierView>, b: Seq<IdentifierView>) -> bool {
    if a.len() == 0 || b.len() == 0 {
        a.len() > 0
    } else {
        identifiers_less(a, b)
    }
}

/// The order of versions. Build metadata plays no part in it.
pub open spec fn precedes(a: VersionView, b: VersionView) -> bool {
    if a.major != b.major {
        a.major < b.major
    } else if a.minor != b.minor {
        a.minor < b.minor
    } else if a.patch != b.patch {
        a.patch < b.patch
    } else {
        pre_release_less(a.pre_release, b.pre_release)
    }
}

pub open spec fn identifier_text(id: IdentifierView) -> Seq<char> {
    match id {
        IdentifierView::Numeric(n) => text::decimal_text(n),
        IdentifierView::AlphaNumeric(s) => s,
    }
}

/// The identifiers with dots between them.
pub open spec fn dotted(ids: Seq<IdentifierView>) -> Seq<char>
    decreases ids.len(),
{
    if ids.len() == 0 {
        Seq::empty()
    } else if ids.len() == 1 {
        identifier_text(ids[0])
    } else {
        dotted(ids.drop_last()) + seq!['.'] + identifier_text(ids.last())
    }
}

pub open spec fn section(lead: char, ids: Seq<IdentifierView>) -> Seq<char> {
    if ids.len() == 0 {
        Seq::empty()
    } else {
        seq![lead] + dotted(ids)
    }
}

/// How a version is written.
pub open spec fn version_text(version: VersionView) -> Seq<char> {
    text::decimal_text(version.major) + seq!['.'] + text::decimal_text(version.minor) + seq!['.']
        + text::decimal_text(version.patch) + section('-', version.pre_release) + section(
        '+',
        version.build,
    )
}

/// Calls `node_semver::Version::parse`. It returns without fail; the version that it
/// gives and the message of its error depend on the text alone.
#[verifier::external_body]
pub(crate) fn parse_version(text: &str) -> (r: Result<Version, String>)
    ensures
        (match r {
            Ok(version) => parsed_version(text@) == Ok::<VersionView, Seq<char>>(version@),
            Err(message) => parsed_version(text@) == Err::<VersionView, Seq<char>>(message@),
        }),
{
    let convert = |id: node_semver::Identifier| match id {
        node_semver::Identifier::Numeric(n) => Identifier::Numeric(n),
        node_semver::Identifier::AlphaNumeric(s) => Identifier::AlphaNumeric(s),
    };
    let v = node_semver::Version::parse(text).map_err(|err| err.to_string())?;
    Ok(Version {
        major: v.major,
        minor: v.minor,
        patch: v.patch,
        pre_release: v.pre_release.into_iter().map(convert).collect(),
        build: v.build.into_iter().map(convert).collect(),
    })
}

/// Calls `<` of `node_semver::Version`: major, minor and patch decide in turn, then the
/// pre-release, in which a number stands before a word; a version without one is the
/// greater. Build metadata is not looked at.
#[verifier::external_body]
pub(crate) fn version_less(a: &Version, b: &Version) -> (r: bool)
    ensures
        r == precedes(a@, b@),
{
    let convert = |id: &Identifier| match id {
        Identifier::Numeric(n) => node_semver::Identifier::Numeric(*n),
        Identifier::AlphaNumeric(s) => node_semver::Identifier::AlphaNumeric(s.clone()),
    };
    let version = |v: &Version| node_semver::Version {
        major: v.major,
        minor: v.minor,
        patch: v.patch,
        pre_release: v.pre_release.iter().map(convert).collect(),
        build: v.build.iter().map(convert).collect(),
    };
    version(a) < version(b)
}

/// Calls `to_string` of `node_semver::Version`: the three numbers with dots between
/// them, then the pre-release behind a hyphen and the build metadata behind a plus
/// sign, as far as there are any.
#[verifier::external_body]
pub(crate) fn version_to_string(v: &Version) -> (r: String)
    ensures
        r@ == version_text(v@),
{
    let convert = |id: &Identifier| match id {
        Identifier::Numeric(n) => node_semver::Identifier::Numeric(*n),
        Identifier::AlphaNumeric(s) => node_semver::Identifier::AlphaNumeric(s.clone()),
    };
    let version = node_semver::Version {
        major: v.major,
        minor: v.minor,
        patch: v.patch,
        pre_release: v.pre_release.iter().map(convert).collect(),
        build: v.build.iter().map(convert).collect(),
    };
    version.to_string()
}

/// Calls `node_semver::Range::parse`, which panics on the texts that `requires`
/// leaves out. On all others whether it accepts depends on the text alone.
#[verifier::external_body]
pub(crate) fn is_range(text: &str) -> (r: bool)
    requires
        readable_range(text@),
    ensures
        r == range_parses(text@),
{
    node_semver::Range::parse(text).is_ok()
}

/// Calls `node_semver::Range::satisfies` on what two texts denote. The answer
/// depends on the two alone.
#[verifier::external_body]
pub(crate) fn satisfies(range: &str, version: &str) -> (r: bool)
    requires
        readable_range(range@),
        range_parses(range@),
        parsed_version(version@) is Ok,
    ensures
        r == range_admits(range@, parsed_version(version@)->Ok_0),
{
    match (node_semver::Range::parse(range), node_semver::Version::parse(version)) {
        (Ok(range), Ok(version)) => range.satisfies(&version),
        _ => false,
    }
}

pub open spec fn blank(c: char) -> bool {
    c == ' ' || c == '\t'
}

/// The first position from `i` on that holds no blank.
pub open spec fn skip_blanks(s: Seq<char>, i: int) -> int
    decreases s.len() - i,
{
    if 0 <= i < s.len() && blank(s[i]) {
        skip_blanks(s, i + 1)
    } else {
        i
    }
}

/// The position behind a `c` that may stand at `i`.
pub open spec fn skip_optional(s: Seq<char>, i: int, c: char) -> int {
    if 0 <= i < s.len() && s[i] == c {
        i + 1
    } else {
        i
    }
}

/// The first position from `i` on that holds no digit.
pub open spec fn skip_digits(s: Seq<char>, i: int) -> int
    decreases s.len() - i,
{
    if 0 <= i < s.len() && text::ascii_digit(s[i]) {
        skip_digits(s, i + 1)
    } else {
        i
    }
}

pub open spec fn char_at(s: Seq<char>, i: int, c: char) -> bool {
    0 <= i < s.len() && s[i] == c
}

pub open spec fn wildcard_at(s: Seq<char>, i: int) -> bool {
    char_at(s, i, 'x') || char_at(s, i, 'X') || char_at(s, i, '*')
}

/// A number that may stand in a version begins at `i`.
pub open spec fn number_at(s: Seq<char>, i: int) -> bool {
    &&& 0 <= i < s.len()
    &&& text::ascii_digit(s[i])
    &&& text::decimal_value(s.subrange(i, skip_digits(s, i))) <= MAX_SAFE_INTEGER
}

/// Where a version begins that is written from `i` on: behind `v` and blanks.
pub open spec fn version_start(s: Seq<char>, i: int) -> int {
    skip_blanks(s, skip_optional(s, i, 'v'))
}

/// How many `|` stand right before `i`.
pub open spec fn bars_before(s: Seq<char>, i: int) -> nat
    decreases i,
{
    if 0 < i <= s.len() && s[i - 1] == '|' {
        bars_before(s, i - 1) + 1
    } else {
        0
    }
}

/// A comparator begins at `i`: at the start, behind a blank, or behind `||`.
pub open spec fn comparator_start(s: Seq<char>, i: int) -> bool {
    ||| i == 0
    ||| 0 < i <= s.len() && blank(s[i - 1])
    ||| 0 < i <= s.len() && bars_before(s, i) >= 2 && bars_before(s, i) % 2 == 0
}

/// `=` with a wildcard for the whole version.
pub open spec fn equals_wildcard(s: Seq<char>, i: int) -> bool {
    char_at(s, i, '=') && wildcard_at(s, version_start(s, skip_blanks(s, i + 1)))
}

/// `~` with a wildcard for the major version, or with one for the minor version
/// and a number behind it.
pub open spec fn tilde_wildcard(s: Seq<char>, i: int) -> bool {
    let from = version_start(s, skip_blanks(s, skip_optional(s, skip_blanks(s, i + 1), '>')));
    let end = skip_digits(s, from);
    &&& char_at(s, i, '~')
    &&& {
        ||| wildcard_at(s, from)
        ||| number_at(s, from) && char_at(s, end, '.') && wildcard_at(s, end + 1) && char_at(
            s,
            end + 2,
            '.',
        ) && number_at(s, end + 3)
    }
}

pub open spec fn unreadable_at(s: Seq<char>, i: int) -> bool {
    comparator_start(s, i) && (equals_wildcard(s, i) || tilde_wildcard(s, i))
}

/// True of the texts that can be read as a range, if only to find that they are
/// none.
pub open spec fn readable_range(s: Seq<char>) -> bool {
    forall|i: int| 0 <= i < s.len() ==> !#[trigger] unreadable_at(s, i)
}

fn is_blank(c: char) -> (r: bool)
    ensures
        r == blank(c),
{
    c == ' ' || c == '\t'
}

fn after_blanks(chars: &Vec<char>, from: usize) -> (r: usize)
    requires
        from <= chars@.len(),
    ensures
        r == skip_blanks(chars@, from as int),
        from <= r <= chars@.len(),
{
    let mut i: usize = from;
    while i < chars.len() && is_blank(chars[i])
        invariant
            from <= i <= chars@.len(),
            skip_blanks(chars@, from as int) == skip_blanks(chars@, i as int),
        decreases chars.len() - i,
    {
        i += 1;
    }
    i
}

fn after_optional(chars: &Vec<char>, from: usize, c: char) -> (r: usize)
    requires
        from <= chars@.len(),
    ensures
        r == skip_optional(chars@, from as int, c),
        from <= r <= chars@.len(),
{
    if from < chars.len() && chars[from] == c {
        from + 1
    } else {
        from
    }
}

fn after_digits(chars: &Vec<char>, from: usize) -> (r: usize)
    requires
        from <= chars@.len(),
    ensures
        r == skip_digits(chars@, from as int),
        from <= r <= chars@.len(),
        forall|j: int| from <= j < r ==> text::ascii_digit(#[trigger] chars@[j]),
{
    let mut i: usize = from;
    while i < chars.len() && text::is_ascii_digit(chars[i])
        invariant
            from <= i <= chars@.len(),
            skip_digits(chars@, from as int) == skip_digits(chars@, i as int),
            forall|j: int| from <= j < i ==> text::ascii_digit(#[trigger] chars@[j]),
        decreases chars.len() - i,
    {
        i += 1;
    }
    i
}

fn is_char_at(chars: &Vec<char>, i: usize, c: char) -> (r: bool)
    ensures
        r == char_at(chars@, i as int, c),
{
    i < chars.len() && chars[i] == c
}

fn is_wildcard_at(chars: &Vec<char>, i: usize) -> (r: bool)
    ensures
        r == wildcard_at(chars@, i as int),
{
    is_char_at(chars, i, 'x') || is_char_at(chars, i, 'X') || is_char_at(chars, i, '*')
}

fn is_number_at(chars: &Vec<char>, from: usize) -> (r: bool)
    requires
        from <= chars@.len(),
    ensures
        r == number_at(chars@, from as int),
{
    if from >= chars.len() || !text::is_ascii_digit(chars[from]) {
        return false;
    }
    let to: usize = after_digits(chars, from + 1);
    let digits: String = text::chars_to_string(chars, from, to);
    match text::parse_u64(digits.as_str()) {
        Some(n) => n <= MAX_SAFE_INTEGER,
        None => false,
    }
}

fn find_version_start(chars: &Vec<char>, from: usize) -> (r: usize)
    requires
        from <= chars@.len(),
    ensures
        r == version_start(chars@, from as int),
        from <= r <= chars@.len(),
{
    after_blanks(chars, after_optional(chars, from, 'v'))
}

fn is_tilde_wildcard(chars: &Vec<char>, i: usize) -> (r: bool)
    requires
        i < chars@.len(),
    ensures
        r == tilde_wildcard(chars@, i as int),
{
    let len: usize = chars.len();
    if chars[i] != '~' {
        return false;
    }
    let bound: usize = after_optional(chars, after_blanks(chars, i + 1), '>');
    let from: usize = find_version_start(chars, after_blanks(chars, bound));
    if is_wildcard_at(chars, from) {
        return true;
    }
    let end: usize = after_digits(chars, from);
    is_number_at(chars, from) && is_char_at(chars, end, '.') && is_wildcard_at(chars, end + 1)
        && end + 1 < len && is_char_at(chars, end + 2, '.') && end + 2 < len && is_number_at(
        chars,
        end + 3,
    )
}

/// True of the texts that can be read as a range.
pub fn is_readable_range(range: &str) -> (r: bool)
    ensures
        r == readable_range(range@),
{
    let chars: Vec<char> = text::to_chars(range);
    let mut bars: usize = 0;
    let mut i: usize = 0;
    while i < chars.len()
        invariant
            chars@ == range@,
            i <= chars@.len(),
            bars <= i,
            bars == bars_before(range@, i as int),
            forall|j: int| 0 <= j < i ==> !#[trigger] unreadable_at(range@, j),
        decreases chars.len() - i,
    {
        let starts: bool = i == 0 || is_blank(chars[i - 1]) || (bars >= 2 && bars % 2 == 0);
        if starts {
            let equals: bool = chars[i] == '=' && is_wildcard_at(
                &chars,
                find_version_start(&chars, after_blanks(&chars, i + 1)),
            );
            if equals || is_tilde_wildcard(&chars, i) {
                assert(unreadable_at(range@, i as int));
                return false;
            }
        }
        assert(!unreadable_at(range@, i as int));
        if chars[i] == '|' {
            bars += 1;
        } else {
            bars = 0;
        }
        i += 1;
    }
    true
}

proof fn lemma_identifier_order(a: IdentifierView, b: IdentifierView, c: IdentifierView)
    ensures
        !identifier_less(a, a),
        identifier_less(a, b) ==> !identifier_less(b, a),
        identifier_less(a, b) && identifier_less(b, c) ==> identifier_less(a, c),
        a == b || identifier_less(a, b) || identifier_less(b, a),
{
    if a is AlphaNumeric && b is AlphaNumeric {
        let s = a->AlphaNumeric_0;
        let t = b->AlphaNumeric_0;
        if !text::text_less(s, t) && !text::text_less(t, s) {
            text::lemma_text_less_total(s, t);
        }
        text::lemma_text_less_irreflexive(s);
        if text::text_less(s, t) {
            if text::text_less(t, s) {
                text::lemma_text_less_transitive(s, t, s);
            }
            if c is AlphaNumeric && text::text_less(t, c->AlphaNumeric_0) {
                text::lemma_text_less_transitive(s, t, c->AlphaNumeric_0);
            }
        }
    }
    if a is AlphaNumeric {
        text::lemma_text_less_irreflexive(a->AlphaNumeric_0);
    }
}

proof fn lemma_identifiers_order(a: Seq<IdentifierView>, b: Seq<IdentifierView>, c: Seq<IdentifierView>)
    ensures
        !identifiers_less(a, a),
        identifiers_less(a, b) ==> !identifiers_less(b, a),
        identifiers_less(a, b) && identifiers_less(b, c) ==> identifiers_less(a, c),
        a == b || identifiers_less(a, b) || identifiers_less(b, a),
    decreases a.len(),
{
    if a.len() == 0 {
        if b.len() == 0 {
            assert(a =~= b);
        }
    } else {
        lemma_identifiers_order(
            a.drop_first(),
            if b.len() > 0 {
                b.drop_first()
            } else {
                b
            },
            if c.len() > 0 {
                c.drop_first()
            } else {
                c
            },
        );
        if b.len() > 0 {
            if a[0] == b[0] && a.drop_first() == b.drop_first() {
                assert(a =~= seq![a[0]] + a.drop_first());
                assert(b =~= seq![b[0]] + b.drop_first());
            }
            lemma_identifier_order(a[0], b[0], b[0]);
            if c.len() > 0 {
                lemma_identifier_order(a[0], b[0], c[0]);
            }
        }
    }
}

/// The order of versions is a strict order, and two versions of which neither
/// precedes the other differ in their build metadata at most.
pub proof fn lemma_precedes_order(a: VersionView, b: VersionView, c: VersionView)
    ensures
        !precedes(a, a),
        precedes(a, b) ==> !precedes(b, a),
        precedes(a, b) && precedes(b, c) ==> precedes(a, c),
        !precedes(a, b) && !precedes(b, a) ==> a == (VersionView { build: a.build, ..b }),
{
    lemma_identifiers_order(a.pre_release, b.pre_release, c.pre_release);
    if a.pre_release.len() == 0 && b.pre_release.len() == 0 {
        assert(a.pre_release =~= b.pre_release);
    }
}

/// A version text with the version that it denotes comes before another: by the
/// versions, and by the texts where the versions differ in their build metadata at
/// most.
pub open spec fn ranks_below(
    version: VersionView,
    text: Seq<char>,
    other_version: VersionView,
    other_text: Seq<char>,
) -> bool {
    precedes(version, other_version) || !precedes(other_version, version) && text::text_less(
        text,
        other_text,
    )
}

pub proof fn lemma_ranks_below_order(
    x: VersionView,
    a: Seq<char>,
    y: VersionView,
    b: Seq<char>,
    z: VersionView,
    c: Seq<char>,
)
    ensures
        !ranks_below(x, a, x, a),
        ranks_below(x, a, y, b) ==> !ranks_below(y, b, x, a),
        ranks_below(x, a, y, b) && ranks_below(y, b, z, c) ==> ranks_below(x, a, z, c),
        a == b || ranks_below(x, a, y, b) || ranks_below(y, b, x, a),
{
    lemma_precedes_order(x, y, z);
    lemma_precedes_order(y, z, x);
    lemma_precedes_order(z, x, y);
    lemma_precedes_order(x, z, y);
    text::lemma_text_less_irreflexive(a);
    if !text::text_less(a, b) && !text::text_less(b, a) {
        text::lemma_text_less_total(a, b);
    }
    if text::text_less(a, b) {
        if text::text_less(b, a) {
            text::lemma_text_less_transitive(a, b, a);
        }
        if text::text_less(b, c) {
            text::lemma_text_less_transitive(a, b, c);
        }
    }
}

/// A version text and the version that it denotes.
#[derive(Debug)]
pub struct VersionText {
    pub text: String,
    pub version: Version,
}

pub open spec fn is_below(a: VersionText, b: VersionText) -> bool {
    ranks_below(a.version@, a.text@, b.version@, b.text@)
}

/// True of the position of the highest version: no other is above it.
pub open spec fn is_highest(versions: Seq<VersionText>, i: int) -> bool {
    &&& 0 <= i < versions.len()
    &&& forall|j: int| 0 <= j < versions.len() ==> !is_below(versions[i], #[trigger] versions[j])
}

/// The position of the highest version; `None` when there are none.
pub fn highest_version(versions: &Vec<VersionText>) -> (r: Option<usize>)
    ensures
        (match r {
            Some(i) => is_highest(versions@, i as int),
            None => versions@.len() == 0,
        }),
        r is None <==> versions@.len() == 0,
        r matches Some(i) ==> i < versions@.len() && forall|j: int|
            0 <= j < versions@.len() ==> !precedes(
                versions@[i as int].version@,
                (#[trigger] versions@[j]).version@,
            ) && (precedes(versions@[j].version@, versions@[i as int].version@)
                || !text::text_less(versions@[i as int].text@, versions@[j].text@)),
{
    if versions.len() == 0 {
        return None;
    }
    let mut best: usize = 0;
    let mut i: usize = 0;
    while i < versions.len()
        invariant
            best < versions@.len(),
            i <= versions@.len(),
            forall|j: int|
                0 <= j < i ==> !is_below(versions@[best as int], #[trigger] versions@[j]),
        decreases versions.len() - i,
    {
        let a: &VersionText = &versions[best];
        let b: &VersionText = &versions[i];
        if version_less(&a.version, &b.version) || (!version_less(&b.version, &a.version)
            && text::is_text_less(a.text.as_str(), b.text.as_str())) {
            proof {
                assert forall|j: int| 0 <= j <= i implies !is_below(*b, #[trigger] versions@[j]) by {
                    let c = versions@[j];
                    lemma_ranks_below_order(
                        a.version@,
                        a.text@,
                        b.version@,
                        b.text@,
                        c.version@,
                        c.text@,
                    );
                    lemma_ranks_below_order(
                        b.version@,
                        b.text@,
                        b.version@,
                        b.text@,
                        b.version@,
                        b.text@,
                    );
                }
            }
            best = i;
        }
        i += 1;
    }
    Some(best)
}

/// One list of identifiers stands before another if it is a proper beginning of it, or if
/// it has the lower identifier where the two first differ. Numbers go by their value, words
/// by their characters, and every number is lower than every word.
pub proof fn law_identifiers_are_ordered_where_they_differ(
    a: Seq<IdentifierView>,
    b: Seq<IdentifierView>,
)
    ensures
        identifiers_less(a, b) <==> exists|k: int|
            0 <= k <= a.len() && k <= b.len() && #[trigger] a.take(k) == b.take(k) && (if k
                < a.len() && k < b.len() {
                match (a[k], b[k]) {
                    (IdentifierView::Numeric(m), IdentifierView::Numeric(n)) => m < n,
                    (IdentifierView::Numeric(_), IdentifierView::AlphaNumeric(_)) => true,
                    (IdentifierView::AlphaNumeric(_), IdentifierView::Numeric(_)) => false,
                    (
                        IdentifierView::AlphaNumeric(s),
                        IdentifierView::AlphaNumeric(t),
                    ) => text::text_less(s, t),
                }
            } else {
                k == a.len() && k < b.len()
            }),
    decreases a.len(),
{
    let at = |x: Seq<IdentifierView>, y: Seq<IdentifierView>, k: int|
        if k < x.len() && k < y.len() {
            identifier_less(x[k], y[k])
        } else {
            k == x.len() && k < y.len()
        };
    if a.len() > 0 && b.len() > 0 && a[0] == b[0] {
        let (x, y) = (a.drop_first(), b.drop_first());
        law_identifiers_are_ordered_where_they_differ(x, y);
        lemma_identifier_order(a[0], a[0], a[0]);
        if identifiers_less(a, b) {
            let k = choose|k: int|
                0 <= k <= x.len() && k <= y.len() && #[trigger] x.take(k) == y.take(k) && at(x, y, k);
            assert(a.take(k + 1) =~= seq![a[0]] + x.take(k));
            assert(b.take(k + 1) =~= seq![b[0]] + y.take(k));
            assert(a.take(k + 1) == b.take(k + 1) && at(a, b, k + 1));
        }
        if exists|k: int|
            0 <= k <= a.len() && k <= b.len() && #[trigger] a.take(k) == b.take(k) && at(a, b, k) {
            let k = choose|k: int|
                0 <= k <= a.len() && k <= b.len() && #[trigger] a.take(k) == b.take(k) && at(a, b, k);
            assert(k > 0);
            assert(x.take(k - 1) =~= a.take(k).drop_first());
            assert(y.take(k - 1) =~= b.take(k).drop_first());
            assert(x.take(k - 1) == y.take(k - 1) && at(x, y, k - 1));
        }
    } else {
        assert(a.take(0) =~= b.take(0));
        assert(identifiers_less(a, b) == at(a, b, 0));
        if exists|k: int|
            0 <= k <= a.len() && k <= b.len() && #[trigger] a.take(k) == b.take(k) && at(a, b, k) {
            let k = choose|k: int|
                0 <= k <= a.len() && k <= b.len() && #[trigger] a.take(k) == b.take(k) && at(a, b, k);
            if k > 0 {
                assert(a.take(k)[0] == b.take(k)[0]);
            }
        }
    }
}

/// The order of versions: the major version decides, then the minor version, then the patch.
/// Where all three are the same, a pre-release stands before the version itself, and
/// pre-releases stand in the order of their identifiers. Build metadata decides nothing.
pub proof fn law_order_of_versions(
    a: VersionView,
    b: VersionView,
    build: Seq<IdentifierView>,
    other_build: Seq<IdentifierView>,
)
    ensures
        precedes(a, b) <==> a.major < b.major || (a.major == b.major && (a.minor < b.minor || (
        a.minor == b.minor && (a.patch < b.patch || (a.patch == b.patch && a.pre_release.len() > 0
            && (b.pre_release.len() == 0 || identifiers_less(a.pre_release, b.pre_release))))))),
        precedes((VersionView { build, ..a }), (VersionView { build: other_build, ..b }))
            == precedes(a, b),
{
}

/// The highest of some versions is one that no other comes after; of those that differ in
/// their build metadata at most, it is the one whose text is the last.
pub proof fn law_highest_version_is_below_none(versions: Seq<VersionText>, i: int, j: int)
    requires
        is_highest(versions, i),
        0 <= j < versions.len(),
    ensures
        0 <= i < versions.len(),
        !precedes(versions[i].version@, versions[j].version@),
        precedes(versions[j].version@, versions[i].version@) || !text::text_less(
            versions[i].text@,
            versions[j].text@,
        ),
{
    assert(!is_below(versions[i], versions[j]));
}

/// How versions are written: `major.minor.patch`, then the identifiers of the pre-release
/// behind a hyphen and those of the build behind a plus sign, with dots between them.
pub proof fn law_how_versions_are_written(
    v: VersionView,
    ids: Seq<IdentifierView>,
    n: nat,
    word: Seq<char>,
)
    ensures
        version_text(v) == text::decimal_text(v.major) + seq!['.'] + text::decimal_text(v.minor)
            + seq!['.'] + text::decimal_text(v.patch) + (if v.pre_release.len() == 0 {
            Seq::empty()
        } else {
            seq!['-'] + dotted(v.pre_release)
        }) + (if v.build.len() == 0 {
            Seq::empty()
        } else {
            seq!['+'] + dotted(v.build)
        }),
        dotted(seq![IdentifierView::Numeric(n)]) == text::decimal_text(n),
        dotted(seq![IdentifierView::AlphaNumeric(word)]) == word,
        ids.len() > 0 ==> dotted(ids.push(IdentifierView::Numeric(n))) == dotted(ids) + seq!['.']
            + text::decimal_text(n),
        ids.len() > 0 ==> dotted(ids.push(IdentifierView::AlphaNumeric(word))) == dotted(ids)
            + seq!['.'] + word,
{
    assert(ids.push(IdentifierView::Numeric(n)).drop_last() =~= ids);
    assert(ids.push(IdentifierView::AlphaNumeric(word)).drop_last() =~= ids);
}

/// Blanks and digits are skipped up to the first character that is none.
pub proof fn law_what_is_skipped(s: Seq<char>, i: int)
    requires
        0 <= i <= s.len(),
    ensures
        i <= skip_blanks(s, i) <= s.len(),
        forall|j: int|
            i <= j < skip_blanks(s, i) ==> #[trigger] s[j] == ' ' || s[j] == '\t',
        skip_blanks(s, i) < s.len() ==> s[skip_blanks(s, i)] != ' ' && s[skip_blanks(s, i)] != '\t',
        i <= skip_digits(s, i) <= s.len(),
        forall|j: int| i <= j < skip_digits(s, i) ==> '0' <= #[trigger] s[j] <= '9',
        skip_digits(s, i) < s.len() ==> !('0' <= s[skip_digits(s, i)] <= '9'),
    decreases s.len() - i,
{
    if i < s.len() {
        law_what_is_skipped(s, i + 1);
    }
}

/// A text without a wildcard can be read as a range, and so can one with neither `=` nor
/// `~`.
pub proof fn law_readable_ranges(s: Seq<char>)
    ensures
        !s.contains('x') && !s.contains('X') && !s.contains('*') ==> readable_range(s),
        !s.contains('=') && !s.contains('~') ==> readable_range(s),
{
    assert forall|i: int| 0 <= i < s.len() implies s.contains(#[trigger] s[i]) by {}
    if !s.contains('x') && !s.contains('X') && !s.contains('*') {
        assert forall|i: int| !#[trigger] wildcard_at(s, i) by {}
    }
}

proof fn lemma_blanks_up_to(s: Seq<char>, i: int, end: int)
    requires
        0 <= i <= end < s.len(),
        forall|k: int| i <= k < end ==> blank(#[trigger] s[k]),
        !blank(s[end]),
    ensures
        skip_blanks(s, i) == end,
    decreases end - i,
{
    if i < end {
        lemma_blanks_up_to(s, i + 1, end);
    }
}

proof fn lemma_digits_up_to(s: Seq<char>, i: int, end: int)
    requires
        0 <= i <= end <= s.len(),
        forall|k: int| i <= k < end ==> text::ascii_digit(#[trigger] s[k]),
        end < s.len() ==> !text::ascii_digit(s[end]),
    ensures
        skip_digits(s, i) == end,
    decreases end - i,
{
    if i < end {
        lemma_digits_up_to(s, i + 1, end);
    }
}

/// A range cannot be read in which `=` or `~` stands before a wildcard, at the start, behind
/// a blank or behind `||`. Blanks and a `v` may stand in between: the blanks up to `a`, then
/// the `v` if `b` is beyond it, then the blanks up to the wildcard at `at`.
pub proof fn law_wildcards_behind_an_operator(s: Seq<char>, i: int, a: int, b: int, at: int)
    requires
        0 <= i < a <= b <= at < s.len(),
        i == 0 || s[i - 1] == ' ' || s[i - 1] == '\t' || (i >= 2 && s[i - 1] == '|' && s[i - 2] == '|'
            && (i == 2 || s[i - 3] != '|')),
        s[i] == '=' || s[i] == '~',
        forall|k: int| i < k < a ==> #[trigger] s[k] == ' ' || s[k] == '\t',
        b == a || (b == a + 1 && s[a] == 'v'),
        forall|k: int| b <= k < at ==> #[trigger] s[k] == ' ' || s[k] == '\t',
        s[at] == 'x' || s[at] == 'X' || s[at] == '*',
    ensures
        !readable_range(s),
{
    reveal_with_fuel(bars_before, 4);
    assert(comparator_start(s, i));
    lemma_blanks_up_to(s, b, at);
    if b == a {
        lemma_blanks_up_to(s, i + 1, at);
        lemma_blanks_up_to(s, at, at);
    } else {
        lemma_blanks_up_to(s, i + 1, a);
        lemma_blanks_up_to(s, a, a);
    }
    assert(unreadable_at(s, i));
}

/// A range cannot be read in which `~` stands before a version with a wildcard for the minor
/// version and a number behind it, such as `~1.x.2`. The numbers end at `a` and `b`.
pub proof fn law_wildcards_inside_a_version(s: Seq<char>, i: int, a: int, b: int)
    requires
        0 <= i,
        i + 1 < a,
        a + 3 < b <= s.len(),
        i == 0 || s[i - 1] == ' ' || s[i - 1] == '\t' || (i >= 2 && s[i - 1] == '|' && s[i - 2] == '|'
            && (i == 2 || s[i - 3] != '|')),
        s[i] == '~',
        forall|k: int| i < k < a ==> '0' <= #[trigger] s[k] <= '9',
        s[a] == '.',
        s[a + 1] == 'x' || s[a + 1] == 'X' || s[a + 1] == '*',
        s[a + 2] == '.',
        forall|k: int| a + 3 <= k < b ==> '0' <= #[trigger] s[k] <= '9',
        b < s.len() ==> !('0' <= s[b] <= '9'),
        text::decimal_value(s.subrange(i + 1, a)) <= 900_719_925_474_099,
        text::decimal_value(s.subrange(a + 3, b)) <= 900_719_925_474_099,
    ensures
        !readable_range(s),
{
    reveal_with_fuel(bars_before, 4);
    assert(comparator_start(s, i));
    assert('0' <= s[i + 1] <= '9');
    lemma_blanks_up_to(s, i + 1, i + 1);
    lemma_digits_up_to(s, i + 1, a);
    lemma_digits_up_to(s, a + 3, b);
    assert('0' <= s[a + 3] <= '9');
    assert(number_at(s, i + 1) && number_at(s, a + 3));
    assert(tilde_wildcard(s, i));
    assert(unreadable_at(s, i));
}

} // verus!
