//! Text as sequences of characters: searching, cutting, trimming, ordering.

use vstd::prelude::*;

verus! {

/// `String::push` appends its character to the end of the string.
pub assume_specification[ String::push ](s: &mut String, c: char)
    ensures
        final(s)@ == old(s)@.push(c),
;

/// `char::is_whitespace` tells whether a character has the Unicode property
/// `White_Space`; the property's members are listed in [`white_space`].
pub assume_specification[ char::is_whitespace ](c: char) -> (r: bool)
    ensures
        r == white_space(c),
;

/// The members of the Unicode property `White_Space`.
pub open spec fn white_space(c: char) -> bool {
    ||| '\u{9}' <= c <= '\u{d}'
    ||| c == '\u{20}'
    ||| c == '\u{85}'
    ||| c == '\u{a0}'
    ||| c == '\u{1680}'
    ||| '\u{2000}' <= c <= '\u{200a}'
    ||| c == '\u{2028}'
    ||| c == '\u{2029}'
    ||| c == '\u{202f}'
    ||| c == '\u{205f}'
    ||| c == '\u{3000}'
}

pub open spec fn ascii_digit(c: char) -> bool {
    '0' <= c <= '9'
}

pub open spec fn ascii_letter(c: char) -> bool {
    'a' <= c <= 'z' || 'A' <= c <= 'Z'
}

pub open spec fn ascii_alphanumeric(c: char) -> bool {
    ascii_letter(c) || ascii_digit(c)
}

pub fn is_ascii_digit(c: char) -> (r: bool)
    ensures
        r == ascii_digit(c),
{
    '0' <= c && c <= '9'
}

pub fn is_ascii_letter(c: char) -> (r: bool)
    ensures
        r == ascii_letter(c),
{
    ('a' <= c && c <= 'z') || ('A' <= c && c <= 'Z')
}

/// The characters of `s`, in order.
pub fn to_chars(s: &str) -> (chars: Vec<char>)
    ensures
        chars@ == s@,
{
    let mut chars: Vec<char> = Vec::new();
    for c in it: s.chars()
        invariant
            it.seq() == s@,
            chars@ == s@.take(it.index()),
    {
        chars.push(c);
    }
    chars
}

/// The string that holds `chars[from..to]`.
pub fn chars_to_string(chars: &Vec<char>, from: usize, to: usize) -> (s: String)
    requires
        from <= to <= chars@.len(),
    ensures
        s@ == chars@.subrange(from as int, to as int),
{
    let mut s: String = String::new();
    let mut i: usize = from;
    while i < to
        invariant
            from <= i <= to <= chars@.len(),
            s@ == chars@.subrange(from as int, i as int),
        decreases to - i,
    {
        s.push(chars[i]);
        i += 1;
    }
    s
}

/// True when `a` and `b` hold the same characters.
pub fn same_text(a: &str, b: &str) -> (r: bool)
    ensures
        r == (a@ == b@),
{
    let x: Vec<char> = to_chars(a);
    let y: Vec<char> = to_chars(b);
    if x.len() != y.len() {
        return false;
    }
    let mut i: usize = 0;
    while i < x.len()
        invariant
            x@ == a@,
            y@ == b@,
            x@.len() == y@.len(),
            i <= x@.len(),
            forall|j: int| 0 <= j < i ==> x@[j] == y@[j],
        decreases x.len() - i,
    {
        if x[i] != y[i] {
            return false;
        }
        i += 1;
    }
    assert(a@ =~= b@);
    true
}


/// The number of bytes that `s` takes in UTF-8.
pub fn byte_len(s: &str) -> (n: usize)
    ensures
        n == vstd::utf8::encode_utf8(s@).len(),
{
    s.as_bytes().len()
}

pub fn starts_with_text(s: &str, prefix: &str) -> (r: bool)
    ensures
        r == prefix@.is_prefix_of(s@),
{
    let x: Vec<char> = to_chars(s);
    let y: Vec<char> = to_chars(prefix);
    if x.len() < y.len() {
        return false;
    }
    occurs_at(&x, &y, 0)
}

/// True when `pattern` stands in `chars` at position `at`.
fn occurs_at(chars: &Vec<char>, pattern: &Vec<char>, at: usize) -> (r: bool)
    requires
        at + pattern@.len() <= chars@.len(),
    ensures
        r == (chars@.subrange(at as int, at + pattern@.len()) == pattern@),
{
    let len: usize = chars.len();
    let mut i: usize = 0;
    while i < pattern.len()
        invariant
            at + pattern@.len() <= chars@.len() == len,
            i <= pattern@.len(),
            forall|j: int| 0 <= j < i ==> chars@[at + j] == pattern@[j],
        decreases pattern.len() - i,
    {
        if chars[at + i] != pattern[i] {
            assert(chars@.subrange(at as int, at + pattern@.len())[i as int] != pattern@[i as int]);
            return false;
        }
        i += 1;
    }
    assert(chars@.subrange(at as int, at + pattern@.len()) =~= pattern@);
    true
}

/// `pattern` stands somewhere in `s`.
pub open spec fn occurs(s: Seq<char>, pattern: Seq<char>) -> bool {
    exists|i: int|
        0 <= i <= s.len() - pattern.len() && #[trigger] s.subrange(i, i + pattern.len())
            == pattern
}

pub fn contains_text(s: &str, pattern: &str) -> (r: bool)
    ensures
        r == occurs(s@, pattern@),
{
    let x: Vec<char> = to_chars(s);
    let y: Vec<char> = to_chars(pattern);
    if x.len() < y.len() {
        return false;
    }
    let last: usize = x.len() - y.len();
    let mut i: usize = 0;
    while i <= last
        invariant
            x@ == s@,
            y@ == pattern@,
            last == x@.len() - y@.len(),
            i <= last + 1,
            forall|j: int| 0 <= j < i ==> #[trigger] s@.subrange(j, j + y@.len()) != pattern@,
        decreases last + 1 - i,
    {
        if occurs_at(&x, &y, i) {
            return true;
        }
        if i == last {
            return false;
        }
        i += 1;
    }
    false
}

/// The position of the first `c` in `s` from `from` on; `s.len()` when there is none.
pub open spec fn next_index(s: Seq<char>, c: char, from: int) -> int
    decreases s.len() - from,
{
    if from < 0 || from >= s.len() {
        s.len() as int
    } else if s[from] == c {
        from
    } else {
        next_index(s, c, from + 1)
    }
}

pub fn find_char(chars: &Vec<char>, c: char, from: usize) -> (r: usize)
    requires
        from <= chars@.len(),
    ensures
        r == next_index(chars@, c, from as int),
        from <= r <= chars@.len(),
        r < chars@.len() ==> chars@[r as int] == c,
        forall|j: int| from <= j < r ==> chars@[j] != c,
{
    let mut i: usize = from;
    while i < chars.len()
        invariant
            from <= i <= chars@.len(),
            next_index(chars@, c, from as int) == next_index(chars@, c, i as int),
            forall|j: int| from <= j < i ==> chars@[j] != c,
        decreases chars.len() - i,
    {
        if chars[i] == c {
            return i;
        }
        i += 1;
    }
    i
}

/// The first position is found where it is: nothing before it matches.
pub proof fn lemma_next_index(s: Seq<char>, c: char, from: int)
    requires
        0 <= from,
    ensures
        from <= s.len() ==> from <= next_index(s, c, from) <= s.len(),
        next_index(s, c, from) < s.len() ==> s[next_index(s, c, from)] == c,
        forall|j: int| from <= j < next_index(s, c, from) ==> s[j] != c,
    decreases s.len() - from,
{
    if from < s.len() && s[from] != c {
        lemma_next_index(s, c, from + 1);
    }
}

/// A position that holds `c`, with none before it, is the first.
pub proof fn lemma_next_index_is(s: Seq<char>, c: char, from: int, at: int)
    requires
        0 <= from <= at <= s.len(),
        at < s.len() ==> s[at] == c,
        forall|j: int| from <= j < at ==> s[j] != c,
    ensures
        next_index(s, c, from) == at,
    decreases at - from,
{
    if from < at {
        lemma_next_index_is(s, c, from + 1, at);
    }
}

/// `s` without the white space at its front.
pub open spec fn front_trimmed(s: Seq<char>) -> Seq<char>
    decreases s.len(),
{
    if s.len() > 0 && white_space(s[0]) {
        front_trimmed(s.drop_first())
    } else {
        s
    }
}

/// `s` without the white space at its end.
pub open spec fn back_trimmed(s: Seq<char>) -> Seq<char>
    decreases s.len(),
{
    if s.len() > 0 && white_space(s.last()) {
        back_trimmed(s.drop_last())
    } else {
        s
    }
}

/// `s` without the white space at both ends.
pub open spec fn trimmed(s: Seq<char>) -> Seq<char> {
    back_trimmed(front_trimmed(s))
}

/// Trimming leaves a part of the text that has no white space at its ends.
pub proof fn lemma_trimmed_ends(s: Seq<char>)
    ensures
        trimmed(s).len() > 0 ==> !white_space(trimmed(s)[0]) && !white_space(trimmed(s).last()),
{
    lemma_front_trimmed(s);
    lemma_back_trimmed(front_trimmed(s));
}

proof fn lemma_front_trimmed(s: Seq<char>)
    ensures
        front_trimmed(s).len() > 0 ==> !white_space(front_trimmed(s)[0]),
    decreases s.len(),
{
    if s.len() > 0 && white_space(s[0]) {
        lemma_front_trimmed(s.drop_first());
    }
}

proof fn lemma_back_trimmed(s: Seq<char>)
    ensures
        back_trimmed(s).is_prefix_of(s),
        back_trimmed(s).len() > 0 ==> !white_space(back_trimmed(s).last()),
    decreases s.len(),
{
    if s.len() > 0 && white_space(s.last()) {
        lemma_back_trimmed(s.drop_last());
        assert(back_trimmed(s) =~= s.subrange(0, back_trimmed(s).len() as int));
    } else {
        assert(s =~= s.subrange(0, s.len() as int));
    }
}

/// A text with no white space at its ends is left as it is.
pub proof fn lemma_trimmed_fixed(s: Seq<char>)
    requires
        s.len() > 0 ==> !white_space(s[0]) && !white_space(s.last()),
    ensures
        trimmed(s) == s,
{
}

pub fn trim(s: &str) -> (r: &str)
    ensures
        r@ == trimmed(s@),
{
    let chars: Vec<char> = to_chars(s);
    let mut from: usize = 0;
    assert(s@.skip(0) =~= s@);
    while from < chars.len() && chars[from].is_whitespace()
        invariant
            chars@ == s@,
            from <= s@.len(),
            front_trimmed(s@) == front_trimmed(s@.skip(from as int)),
        decreases chars.len() - from,
    {
        assert(s@.skip(from as int).drop_first() =~= s@.skip(from + 1));
        from += 1;
    }
    let mut to: usize = chars.len();
    let ghost rest = s@.skip(from as int);
    assert(front_trimmed(s@) == rest);
    assert(s@.subrange(from as int, to as int) =~= rest);
    while to > from && chars[to - 1].is_whitespace()
        invariant
            chars@ == s@,
            from <= to <= s@.len(),
            back_trimmed(rest) == back_trimmed(s@.subrange(from as int, to as int)),
        decreases to - from,
    {
        assert(s@.subrange(from as int, to as int).drop_last() =~= s@.subrange(
            from as int,
            to - 1,
        ));
        to -= 1;
    }
    s.substring_char(from, to)
}

/// `s` with `with` in the place of each `c`.
pub open spec fn replaced(s: Seq<char>, c: char, with: Seq<char>) -> Seq<char>
    decreases s.len(),
{
    if s.len() == 0 {
        s
    } else {
        replaced(s.drop_last(), c, with) + (if s.last() == c {
            with
        } else {
            seq![s.last()]
        })
    }
}

pub fn replace_char(s: &str, c: char, with: &str) -> (r: String)
    ensures
        r@ == replaced(s@, c, with@),
{
    let chars: Vec<char> = to_chars(s);
    let mut out: String = String::new();
    let mut i: usize = 0;
    while i < chars.len()
        invariant
            chars@ == s@,
            i <= s@.len(),
            out@ == replaced(s@.take(i as int), c, with@),
        decreases chars.len() - i,
    {
        let ghost before = s@.take(i as int);
        let ghost after = s@.take(i + 1);
        assert(after.drop_last() =~= before);
        if chars[i] == c {
            out.append(with);
        } else {
            out.push(chars[i]);
            assert(out@ =~= replaced(before, c, with@) + seq![s@[i as int]]);
        }
        i += 1;
    }
    assert(s@.take(i as int) =~= s@);
    out
}

pub open spec fn digit_char(d: nat) -> char {
    (48 + d) as char
}

/// `n` in decimal, without leading zeros.
pub open spec fn decimal_text(n: nat) -> Seq<char>
    decreases n,
{
    if n < 10 {
        seq![digit_char(n)]
    } else {
        decimal_text(n / 10).push(digit_char(n % 10))
    }
}

pub fn decimal(n: u64) -> (s: String)
    ensures
        s@ == decimal_text(n as nat),
    decreases n,
{
    let digit: char = ((n % 10) as u8 + 48) as char;
    assert(digit == digit_char((n % 10) as nat));
    let mut s: String = if n < 10 {
        String::new()
    } else {
        decimal(n / 10)
    };
    s.push(digit);
    assert(n < 10 ==> s@ =~= seq![digit]);
    s
}

/// The number that a sequence of decimal digits denotes.
pub open spec fn decimal_value(digits: Seq<char>) -> nat
    decreases digits.len(),
{
    if digits.len() == 0 {
        0
    } else {
        decimal_value(digits.drop_last()) * 10 + (digits.last() as nat - 48) as nat
    }
}

/// `text` is one decimal digit or more, and denotes a number that a `u64` holds.
pub open spec fn u64_text(text: Seq<char>) -> bool {
    &&& text.len() > 0
    &&& forall|i: int| 0 <= i < text.len() ==> ascii_digit(#[trigger] text[i])
    &&& decimal_value(text) <= u64::MAX
}

/// The leading digits of a decimal number denote no more than all of them.
proof fn lemma_decimal_prefix(digits: Seq<char>, n: int)
    requires
        0 <= n <= digits.len(),
    ensures
        decimal_value(digits.take(n)) <= decimal_value(digits),
    decreases digits.len() - n,
{
    if n == digits.len() {
        assert(digits.take(n) =~= digits);
    } else {
        assert(digits.take(n + 1).drop_last() =~= digits.take(n));
        lemma_decimal_prefix(digits, n + 1);
    }
}

/// A number in decimal is made of digits, and denotes that number.
pub proof fn lemma_decimal_text(n: nat)
    ensures
        decimal_text(n).len() > 0,
        forall|i: int| 0 <= i < decimal_text(n).len() ==> ascii_digit(#[trigger] decimal_text(n)[i]),
        decimal_value(decimal_text(n)) == n,
    decreases n,
{
    let t = decimal_text(n);
    if n < 10 {
        assert(t.drop_last() =~= Seq::empty());
        assert(decimal_value(t.drop_last()) == 0);
    } else {
        lemma_decimal_text(n / 10);
        assert(t.drop_last() =~= decimal_text(n / 10));
    }
}

/// Reads a `u64` written in decimal digits only.
pub fn parse_u64(text: &str) -> (r: Option<u64>)
    ensures
        r is Some <==> u64_text(text@),
        r matches Some(n) ==> n == decimal_value(text@),
{
    let chars: Vec<char> = to_chars(text);
    if chars.len() == 0 {
        return None;
    }
    let mut n: u64 = 0;
    let mut i: usize = 0;
    while i < chars.len()
        invariant
            chars@ == text@,
            i <= text@.len(),
            n == decimal_value(text@.take(i as int)),
            forall|j: int| 0 <= j < i ==> ascii_digit(#[trigger] text@[j]),
        decreases chars.len() - i,
    {
        let c: char = chars[i];
        if !is_ascii_digit(c) {
            return None;
        }
        let d: u64 = c as u64 - 48;
        proof {
            assert(text@.take(i + 1).drop_last() =~= text@.take(i as int));
            lemma_decimal_prefix(text@, i + 1);
        }
        if n > (u64::MAX - d) / 10 {
            return None;
        }
        n = n * 10 + d;
        i += 1;
    }
    assert(text@.take(i as int) =~= text@);
    Some(n)
}

/// Lexicographic order by code point, which is also the order by UTF-8 bytes.
pub open spec fn text_less(a: Seq<char>, b: Seq<char>) -> bool
    decreases a.len(),
{
    if b.len() == 0 {
        false
    } else if a.len() == 0 {
        true
    } else if a[0] != b[0] {
        a[0] < b[0]
    } else {
        text_less(a.drop_first(), b.drop_first())
    }
}

pub fn is_text_less(a: &str, b: &str) -> (r: bool)
    ensures
        r == text_less(a@, b@),
{
    let x: Vec<char> = to_chars(a);
    let y: Vec<char> = to_chars(b);
    let mut i: usize = 0;
    assert(a@.skip(0) =~= a@ && b@.skip(0) =~= b@);
    while i < x.len() && i < y.len() && x[i] == y[i]
        invariant
            x@ == a@,
            y@ == b@,
            i <= a@.len(),
            i <= b@.len(),
            text_less(a@, b@) == text_less(a@.skip(i as int), b@.skip(i as int)),
        decreases x.len() - i,
    {
        assert(a@.skip(i as int).drop_first() =~= a@.skip(i + 1));
        assert(b@.skip(i as int).drop_first() =~= b@.skip(i + 1));
        i += 1;
    }
    if i >= y.len() {
        false
    } else if i >= x.len() {
        true
    } else {
        x[i] < y[i]
    }
}

/// No text stands before itself.
pub proof fn lemma_text_less_irreflexive(a: Seq<char>)
    ensures
        !text_less(a, a),
    decreases a.len(),
{
    if a.len() > 0 {
        lemma_text_less_irreflexive(a.drop_first());
    }
}

pub proof fn lemma_text_less_transitive(a: Seq<char>, b: Seq<char>, c: Seq<char>)
    requires
        text_less(a, b),
        text_less(b, c),
    ensures
        text_less(a, c),
    decreases a.len(),
{
    if a.len() > 0 && a[0] == b[0] && b[0] == c[0] {
        lemma_text_less_transitive(a.drop_first(), b.drop_first(), c.drop_first());
    }
}

/// Of two different texts one stands before the other.
pub proof fn lemma_text_less_total(a: Seq<char>, b: Seq<char>)
    requires
        !text_less(a, b),
        !text_less(b, a),
    ensures
        a == b,
    decreases a.len(),
{
    if a.len() == 0 || b.len() == 0 {
        assert(a =~= b);
    } else {
        lemma_text_less_total(a.drop_first(), b.drop_first());
        assert(a =~= seq![a[0]] + a.drop_first());
        assert(b =~= seq![b[0]] + b.drop_first());
    }
}

/// What a string holds, if there is one.
pub open spec fn opt_view(s: Option<String>) -> Option<Seq<char>> {
    match s {
        Some(s) => Some(s@),
        None => None,
    }
}

/// What the strings of a sequence hold.
pub open spec fn views(strings: Seq<String>) -> Seq<Seq<char>> {
    strings.map_values(|s: String| s@)
}

/// Each text stands before all that follow it; so none stands twice.
pub open spec fn ascending(texts: Seq<Seq<char>>) -> bool {
    forall|i: int, j: int|
        0 <= i < j < texts.len() ==> text_less(#[trigger] texts[i], #[trigger] texts[j])
}

/// Two ascending sequences with the same members are the same sequence.
pub proof fn lemma_ascending_unique(a: Seq<Seq<char>>, b: Seq<Seq<char>>)
    requires
        ascending(a),
        ascending(b),
        forall|t: Seq<char>| a.contains(t) <==> b.contains(t),
    ensures
        a == b,
    decreases a.len(),
{
    if a.len() == 0 {
        if b.len() > 0 {
            assert(b.contains(b[0]));
        }
        assert(a =~= b);
    } else {
        let x = a.last();
        assert(a[a.len() - 1] == x);
        assert(b.contains(x));
        let y = b.last();
        assert(b[b.len() - 1] == y);
        assert(a.contains(y));
        let i = choose|i: int| 0 <= i < a.len() && a[i] == y;
        let j = choose|j: int| 0 <= j < b.len() && b[j] == x;
        if i < a.len() - 1 {
            assert(text_less(a[i], a[a.len() - 1]));
            if j < b.len() - 1 {
                assert(text_less(b[j], b[b.len() - 1]));
                lemma_text_less_transitive(x, y, x);
            }
            lemma_text_less_irreflexive(x);
        }
        assert(x == y);
        let c = a.drop_last();
        let d = b.drop_last();
        assert forall|t: Seq<char>| c.contains(t) <==> d.contains(t) by {
            lemma_text_less_irreflexive(x);
            if c.contains(t) {
                let k = choose|k: int| 0 <= k < c.len() && c[k] == t;
                assert(text_less(a[k], a[a.len() - 1]));
                assert(a.contains(t));
                let m = choose|m: int| 0 <= m < b.len() && b[m] == t;
                assert(d[m] == t);
            }
            if d.contains(t) {
                let k = choose|k: int| 0 <= k < d.len() && d[k] == t;
                assert(text_less(b[k], b[b.len() - 1]));
                assert(b.contains(t));
                let m = choose|m: int| 0 <= m < a.len() && a[m] == t;
                assert(c[m] == t);
            }
        }
        assert forall|k: int, m: int| 0 <= k < m < c.len() implies text_less(
            #[trigger] c[k],
            #[trigger] c[m],
        ) by {
            assert(text_less(a[k], a[m]));
        }
        assert forall|k: int, m: int| 0 <= k < m < d.len() implies text_less(
            #[trigger] d[k],
            #[trigger] d[m],
        ) by {
            assert(text_less(b[k], b[m]));
        }
        lemma_ascending_unique(c, d);
        assert(a =~= c.push(x));
        assert(b =~= d.push(x));
    }
}

/// Puts `s` where it belongs in an ascending sequence, unless it is there.
fn insert_ascending(sorted: &mut Vec<String>, s: String)
    requires
        ascending(views(old(sorted)@)),
    ensures
        ascending(views(final(sorted)@)),
        forall|t: Seq<char>|
            views(final(sorted)@).contains(t) <==> views(old(sorted)@).contains(t) || t == s@,
{
    let ghost before = views(sorted@);
    let mut at: usize = 0;
    while at < sorted.len() && is_text_less(sorted[at].as_str(), s.as_str())
        invariant
            sorted@ == old(sorted)@,
            before == views(sorted@),
            at <= sorted@.len(),
            forall|j: int| 0 <= j < at ==> text_less(#[trigger] before[j], s@),
        decreases sorted.len() - at,
    {
        assert(before[at as int] == sorted@[at as int]@);
        at += 1;
    }
    if at < sorted.len() && same_text(sorted[at].as_str(), s.as_str()) {
        assert(before[at as int] == s@);
        return;
    }
    sorted.insert(at, s);
    proof {
        let after = views(sorted@);
        assert(after =~= before.insert(at as int, s@));
        assert forall|i: int, j: int| 0 <= i < j < after.len() implies text_less(
            #[trigger] after[i],
            #[trigger] after[j],
        ) by {
            if at < before.len() {
                lemma_text_less_total_at(before[at as int], s@);
            }
            if i < at {
                if j > at {
                    assert(text_less(before[i], before[j - 1]));
                } else if j < at {
                    assert(text_less(before[i], before[j]));
                }
            } else if i == at {
                if j > at + 1 {
                    assert(text_less(before[at as int], before[j - 1]));
                    lemma_text_less_transitive(s@, before[at as int], before[j - 1]);
                }
            } else {
                assert(text_less(before[i - 1], before[j - 1]));
            }
        }
        assert forall|t: Seq<char>| after.contains(t) <==> before.contains(t) || t == s@ by {
            if after.contains(t) {
                let i = choose|i: int| 0 <= i < after.len() && after[i] == t;
                if i < at {
                    assert(before[i] == t);
                } else if i > at {
                    assert(before[i - 1] == t);
                }
            }
            if before.contains(t) {
                let i = choose|i: int| 0 <= i < before.len() && before[i] == t;
                if i < at {
                    assert(after[i] == t);
                } else {
                    assert(after[i + 1] == t);
                }
            }
            if t == s@ {
                assert(after[at as int] == t);
            }
        }
    }
}

proof fn lemma_text_less_total_at(a: Seq<char>, b: Seq<char>)
    requires
        !text_less(a, b),
        a != b,
    ensures
        text_less(b, a),
{
    if !text_less(b, a) {
        lemma_text_less_total(a, b);
    }
}

/// The strings of `strings`, in ascending order, each once.
pub fn sort_and_dedup(strings: &Vec<String>) -> (sorted: Vec<String>)
    ensures
        ascending(views(sorted@)),
        forall|t: Seq<char>| views(sorted@).contains(t) <==> views(strings@).contains(t),
{
    let mut sorted: Vec<String> = Vec::new();
    let mut i: usize = 0;
    while i < strings.len()
        invariant
            i <= strings@.len(),
            ascending(views(sorted@)),
            forall|t: Seq<char>|
                views(sorted@).contains(t) <==> views(strings@).take(i as int).contains(t),
        decreases strings.len() - i,
    {
        insert_ascending(&mut sorted, strings[i].clone());
        proof {
            let v = views(strings@);
            let p = v.take(i as int);
            let q = v.take(i + 1);
            assert(q =~= p.push(v[i as int]));
            assert forall|t: Seq<char>| views(sorted@).contains(t) <==> q.contains(t) by {
                if p.contains(t) {
                    let k = choose|k: int| 0 <= k < p.len() && p[k] == t;
                    assert(q[k] == t);
                }
                if t == v[i as int] {
                    assert(q[i as int] == t);
                }
                if q.contains(t) {
                    let k = choose|k: int| 0 <= k < q.len() && q[k] == t;
                    if k < i {
                        assert(p[k] == t);
                    }
                }
            }
        }
        i += 1;
    }
    assert(views(strings@).take(i as int) =~= views(strings@));
    sorted
}

/// Trimming takes white space off both ends, all of it, and nothing else.
pub proof fn law_trimming_takes_white_space_off(s: Seq<char>)
    ensures
        exists|from: int, to: int|
            0 <= from <= to <= s.len() && #[trigger] s.subrange(from, to) == trimmed(s) && (forall|
                i: int,
            |
                0 <= i < from ==> white_space(#[trigger] s[i])) && (forall|i: int|
                to <= i < s.len() ==> white_space(#[trigger] s[i])) && (from < to ==> !white_space(
                s[from],
            ) && !white_space(s[to - 1])),
{
    lemma_trimmed_ends(s);
    let from = lemma_front_is_cut(s);
    let rest = front_trimmed(s);
    let len = lemma_back_is_cut(rest);
    assert(s.subrange(from, from + len) =~= trimmed(s));
    assert forall|i: int| from + len <= i < s.len() implies white_space(#[trigger] s[i]) by {
        assert(white_space(rest[i - from]));
    }
    if len > 0 {
        assert(trimmed(s)[0] == s[from]);
        assert(trimmed(s).last() == s[from + len - 1]);
    }
}

proof fn lemma_front_is_cut(s: Seq<char>) -> (from: int)
    ensures
        0 <= from <= s.len(),
        front_trimmed(s) == s.skip(from),
        forall|i: int| 0 <= i < from ==> white_space(#[trigger] s[i]),
    decreases s.len(),
{
    if s.len() > 0 && white_space(s[0]) {
        let from = lemma_front_is_cut(s.drop_first()) + 1;
        assert(front_trimmed(s) =~= s.skip(from));
        assert forall|i: int| 0 <= i < from implies white_space(#[trigger] s[i]) by {
            if i > 0 {
                assert(white_space(s.drop_first()[i - 1]));
            }
        }
        from
    } else {
        assert(s =~= s.skip(0));
        0
    }
}

proof fn lemma_back_is_cut(s: Seq<char>) -> (len: int)
    ensures
        0 <= len <= s.len(),
        back_trimmed(s) == s.take(len),
        forall|i: int| len <= i < s.len() ==> white_space(#[trigger] s[i]),
    decreases s.len(),
{
    if s.len() > 0 && white_space(s.last()) {
        let len = lemma_back_is_cut(s.drop_last());
        assert(back_trimmed(s) =~= s.take(len));
        assert forall|i: int| len <= i < s.len() implies white_space(#[trigger] s[i]) by {
            if i < s.len() - 1 {
                assert(white_space(s.drop_last()[i]));
            }
        }
        len
    } else {
        assert(s =~= s.take(s.len() as int));
        s.len() as int
    }
}

/// Replacing goes character by character: the one that is looked for becomes the new text,
/// every other stays, wherever it stands.
pub proof fn law_replacing_is_local(a: Seq<char>, b: Seq<char>, c: char, with: Seq<char>)
    ensures
        replaced(a + b, c, with) == replaced(a, c, with) + replaced(b, c, with),
        !a.contains(c) ==> replaced(a, c, with) == a,
        replaced(seq![c], c, with) == with,
    decreases b.len(), a.len(),
{
    if b.len() == 0 {
        assert(a + b =~= a);
        assert(replaced(a, c, with) + replaced(b, c, with) =~= replaced(a, c, with));
    } else {
        assert((a + b).drop_last() =~= a + b.drop_last());
        law_replacing_is_local(a, b.drop_last(), c, with);
        assert(replaced(a + b, c, with) =~= replaced(a, c, with) + replaced(b, c, with));
    }
    lemma_nothing_to_replace(a, c, with);
    let none = Seq::<char>::empty();
    assert(seq![c].drop_last() =~= none);
    assert(replaced(none, c, with) =~= none);
    assert(replaced(seq![c], c, with) =~= with);
}

proof fn lemma_nothing_to_replace(a: Seq<char>, c: char, with: Seq<char>)
    ensures
        !a.contains(c) ==> replaced(a, c, with) == a,
    decreases a.len(),
{
    if a.len() > 0 && !a.contains(c) {
        let init = a.drop_last();
        assert forall|i: int| 0 <= i < init.len() implies #[trigger] init[i] != c by {
            assert(a.contains(a[i]));
        }
        lemma_nothing_to_replace(init, c, with);
        assert(a.contains(a[a.len() - 1]));
        assert(a =~= init + seq![a.last()]);
    }
}

/// One text stands before another if it is a proper prefix of it, or if it has the lower
/// character where the two first differ; otherwise it does not.
pub proof fn law_texts_are_ordered_where_they_differ(a: Seq<char>, b: Seq<char>)
    ensures
        text_less(a, b) <==> (a.len() < b.len() && a.is_prefix_of(b)) || exists|k: int|
            0 <= k < a.len() && k < b.len() && a[k] < b[k] && #[trigger] a.take(k) == b.take(k),
    decreases a.len(),
{
    if a.len() == 0 {
        assert(a =~= b.subrange(0, 0));
    } else if b.len() > 0 {
        let x = a.drop_first();
        let y = b.drop_first();
        law_texts_are_ordered_where_they_differ(x, y);
        if a[0] == b[0] {
            if x.len() < y.len() && x.is_prefix_of(y) {
                assert(a =~= b.subrange(0, a.len() as int)) by {
                    assert forall|i: int| 0 <= i < a.len() implies a[i] == b[i] by {
                        if i > 0 {
                            assert(x[i - 1] == y[i - 1]);
                        }
                    }
                }
            }
            if a.len() < b.len() && a.is_prefix_of(b) {
                assert(x =~= y.subrange(0, x.len() as int)) by {
                    assert forall|i: int| 0 <= i < x.len() implies x[i] == y[i] by {
                        assert(a[i + 1] == b[i + 1]);
                    }
                }
            }
            if exists|k: int|
                0 <= k < x.len() && k < y.len() && x[k] < y[k] && #[trigger] x.take(k) == y.take(
                    k,
                ) {
                let k = choose|k: int|
                    0 <= k < x.len() && k < y.len() && x[k] < y[k] && #[trigger] x.take(k)
                        == y.take(k);
                assert(a.take(k + 1) =~= b.take(k + 1)) by {
                    assert forall|i: int| 0 <= i < k + 1 implies a[i] == b[i] by {
                        if i > 0 {
                            assert(x.take(k)[i - 1] == y.take(k)[i - 1]);
                        }
                    }
                }
                assert(a[k + 1] < b[k + 1]);
            }
            if exists|k: int|
                0 <= k < a.len() && k < b.len() && a[k] < b[k] && #[trigger] a.take(k) == b.take(
                    k,
                ) {
                let k = choose|k: int|
                    0 <= k < a.len() && k < b.len() && a[k] < b[k] && #[trigger] a.take(k)
                        == b.take(k);
                assert(k > 0);
                assert(x.take(k - 1) =~= y.take(k - 1)) by {
                    assert forall|i: int| 0 <= i < k - 1 implies x[i] == y[i] by {
                        assert(a.take(k)[i + 1] == b.take(k)[i + 1]);
                    }
                }
                assert(x[k - 1] < y[k - 1]);
            }
        } else {
            if a[0] < b[0] {
                assert(a.take(0) =~= b.take(0));
            }
            if exists|k: int|
                0 <= k < a.len() && k < b.len() && a[k] < b[k] && #[trigger] a.take(k) == b.take(
                    k,
                ) {
                let k = choose|k: int|
                    0 <= k < a.len() && k < b.len() && a[k] < b[k] && #[trigger] a.take(k)
                        == b.take(k);
                if k > 0 {
                    assert(a.take(k)[0] == b.take(k)[0]);
                }
            }
        }
    }
}

/// A number written with one more digit is ten times as much and the digit; the digits from
/// `0` to `9` are the numbers up to nine.
pub proof fn law_decimal_digits(n: nat, digits: Seq<char>, digit: char)
    requires
        '0' <= digit <= '9',
    ensures
        decimal_value(seq![digit]) == digit as nat - '0' as nat,
        decimal_value(digits.push(digit)) == decimal_value(digits) * 10 + (digit as nat
            - '0' as nat),
        decimal_value(decimal_text(n)) == n,
        forall|i: int|
            0 <= i < decimal_text(n).len() ==> '0' <= #[trigger] decimal_text(n)[i] <= '9',
        n > 0 ==> decimal_text(n)[0] != '0',
        n == 0 ==> decimal_text(n) == seq!['0'],
{
    assert(digits.push(digit).drop_last() =~= digits);
    let none = Seq::<char>::empty();
    assert(seq![digit].drop_last() =~= none);
    assert(decimal_value(none) == 0);
    lemma_decimal_text(n);
    lemma_no_leading_zero(n);
}

proof fn lemma_no_leading_zero(n: nat)
    ensures
        decimal_text(n).len() > 0,
        n > 0 ==> decimal_text(n)[0] != '0',
        n == 0 ==> decimal_text(n) == seq!['0'],
    decreases n,
{
    if n >= 10 {
        lemma_no_leading_zero(n / 10);
    } else {
        assert(n > 0 ==> digit_char(n) != '0');
    }
}

/// The letters are those from `a` to `z`, small or capital, and the digits those from `0`
/// to `9`.
pub proof fn law_letters_and_digits(c: char)
    ensures
        ascii_alphanumeric(c) <==> 'a' <= c <= 'z' || 'A' <= c <= 'Z' || '0' <= c <= '9',
        ascii_letter(c) <==> 'a' <= c <= 'z' || 'A' <= c <= 'Z',
        ascii_digit(c) <==> '0' <= c <= '9',
{
}

/// A text occurs in another if and only if the other can be cut into something, the text
/// and something else.
pub proof fn law_occurring_text_can_be_cut_out(s: Seq<char>, pattern: Seq<char>)
    ensures
        occurs(s, pattern) <==> exists|a: Seq<char>, b: Seq<char>| s == #[trigger] (a + pattern + b),
{
    if occurs(s, pattern) {
        let i = choose|i: int|
            0 <= i <= s.len() - pattern.len() && #[trigger] s.subrange(i, i + pattern.len())
                == pattern;
        assert(s =~= s.take(i) + pattern + s.skip(i + pattern.len()));
    }
    if exists|a: Seq<char>, b: Seq<char>| s == #[trigger] (a + pattern + b) {
        let (a, b) = choose|a: Seq<char>, b: Seq<char>| s == #[trigger] (a + pattern + b);
        assert(s.subrange(a.len() as int, a.len() as int + pattern.len()) =~= pattern);
    }
}

/// A text is read as a number if it is one digit or more, and denotes at most
/// 18446744073709551615.
pub proof fn law_texts_that_are_numbers(text: Seq<char>)
    ensures
        u64_text(text) <==> text.len() > 0 && (forall|i: int|
            0 <= i < text.len() ==> '0' <= #[trigger] text[i] <= '9') && decimal_value(text)
            <= 18446744073709551615,
{
    if u64_text(text) {
        assert forall|i: int| 0 <= i < text.len() implies '0' <= #[trigger] text[i] <= '9' by {
            assert(ascii_digit(text[i]));
        }
    }
}

} // verus!
