//! The part of a request's path that lists packages.
//!
//! It is base64, and what it encodes may carry a version of the protocol, as in
//! `5({"react":"^18.0.0"})`.

use vstd::prelude::*;

use crate::app_error::ServerError;
use crate::text;

verus! {

/// The latest version of the protocol.
pub const LATEST_VERSION: u64 = 5;

/// The version of a request that carries none.
pub const DEFAULT_VERSION: u64 = 1;

/// The most bytes that an encoded list may take; lists of some thousand packages
/// stay well under it.
pub const MAX_ENCODED_LEN: usize = 65536;

/// The character that stands for six bits.
pub open spec fn base64_char(bits: int) -> char {
    if bits < 26 {
        (65 + bits) as char
    } else if bits < 52 {
        (97 + bits - 26) as char
    } else if bits < 62 {
        (48 + bits - 52) as char
    } else if bits == 62 {
        '+'
    } else {
        '/'
    }
}

/// Bytes in base64, with the standard characters and with padding.
pub open spec fn base64_text(bytes: Seq<u8>) -> Seq<char>
    decreases bytes.len(),
{
    let a = bytes[0] as int;
    let b = bytes[1] as int;
    let c = bytes[2] as int;
    if bytes.len() == 0 {
        Seq::empty()
    } else if bytes.len() == 1 {
        seq![base64_char(a / 4), base64_char(a % 4 * 16), '=', '=']
    } else if bytes.len() == 2 {
        seq![base64_char(a / 4), base64_char(a % 4 * 16 + b / 16), base64_char(b % 16 * 4), '=']
    } else {
        seq![
            base64_char(a / 4),
            base64_char(a % 4 * 16 + b / 16),
            base64_char(b % 16 * 4 + c / 64),
            base64_char(c % 64),
        ] + base64_text(bytes.skip(3))
    }
}

/// A text in base64.
pub open spec fn encoded(s: Seq<char>) -> Seq<char> {
    base64_text(vstd::utf8::encode_utf8(s))
}

/// `base64_simd::STANDARD.decode_to_vec`: the bytes of which a text is the base64,
/// with the padding that belongs to it and no stray bits; an error when there are
/// none.
#[verifier::external_body]
fn base64_bytes(part: &str) -> (r: Option<Vec<u8>>)
    ensures
        (match r {
            Some(bytes) => base64_text(bytes@) == part@,
            None => forall|bytes: Seq<u8>| #[trigger] base64_text(bytes) != part@,
        }),
{
    base64_simd::STANDARD.decode_to_vec(part.as_bytes()).ok()
}

/// `String::from_utf8`: the text that bytes are the UTF-8 of, if they are any.
#[verifier::external_body]
pub(crate) fn utf8_text(bytes: Vec<u8>) -> (r: Option<String>)
    ensures
        (match r {
            Some(s) => vstd::utf8::valid_utf8(bytes@) && s@ == vstd::utf8::decode_utf8(bytes@),
            None => !vstd::utf8::valid_utf8(bytes@),
        }),
{
    String::from_utf8(bytes).ok()
}

/// The text that `part` is the base64 of.
pub fn decode_base64(part: &str) -> (r: Result<String, ServerError>)
    ensures
        (match r {
            Ok(s) => vstd::utf8::encode_utf8(part@).len() <= MAX_ENCODED_LEN && encoded(s@)
                == part@,
            Err(ServerError::InvalidQuery) => vstd::utf8::encode_utf8(part@).len()
                > MAX_ENCODED_LEN,
            Err(ServerError::Base64DecodingError()) => vstd::utf8::encode_utf8(part@).len()
                <= MAX_ENCODED_LEN && forall|s: Seq<char>| #[trigger] encoded(s) != part@,
            Err(_) => false,
        }),
{
    if text::byte_len(part) > MAX_ENCODED_LEN {
        return Err(ServerError::InvalidQuery);
    }
    let bytes: Vec<u8> = match base64_bytes(part) {
        Some(bytes) => bytes,
        None => {
            return Err(ServerError::Base64DecodingError());
        },
    };
    let ghost raw = bytes@;
    match utf8_text(bytes) {
        Some(s) => {
            proof {
                vstd::utf8::decode_utf8_encode_utf8(raw);
            }
            Ok(s)
        },
        None => {
            proof {
                assert forall|s: Seq<char>| #[trigger] encoded(s) != part@ by {
                    if encoded(s) == part@ {
                        law_base64_is_unambiguous(vstd::utf8::encode_utf8(s), raw);
                        vstd::utf8::encode_utf8_valid_utf8(s);
                    }
                }
            }
            Err(ServerError::Base64DecodingError())
        },
    }
}

proof fn lemma_base64_char(a: int, b: int)
    requires
        0 <= a < 64,
        0 <= b < 64,
        base64_char(a) == base64_char(b),
    ensures
        a == b,
{
}

proof fn lemma_base64_char_is_no_padding(a: int)
    requires
        0 <= a < 64,
    ensures
        base64_char(a) != '=',
{
}

/// No two byte sequences have the same base64.
pub proof fn law_base64_is_unambiguous(a: Seq<u8>, b: Seq<u8>)
    requires
        base64_text(a) == base64_text(b),
    ensures
        a == b,
    decreases a.len(),
{
    let x = base64_text(a);
    let y = base64_text(b);
    assert(x.len() == 0 <==> a.len() == 0);
    assert(y.len() == 0 <==> b.len() == 0);
    if a.len() == 0 {
        assert(a =~= b);
    } else {
        let p0 = a[0] as int;
        let p1 = a[1] as int;
        let p2 = a[2] as int;
        let q0 = b[0] as int;
        let q1 = b[1] as int;
        let q2 = b[2] as int;
        assert(x[0] == y[0] && x[1] == y[1] && x[2] == y[2] && x[3] == y[3]);
        lemma_base64_char(p0 / 4, q0 / 4);
        lemma_base64_char_is_no_padding(p1 % 16 * 4);
        lemma_base64_char_is_no_padding(q1 % 16 * 4);
        lemma_base64_char_is_no_padding(p1 % 16 * 4 + p2 / 64);
        lemma_base64_char_is_no_padding(q1 % 16 * 4 + q2 / 64);
        lemma_base64_char_is_no_padding(p2 % 64);
        lemma_base64_char_is_no_padding(q2 % 64);
        if a.len() == 1 {
            assert(b.len() == 1);
            lemma_base64_char(p0 % 4 * 16, q0 % 4 * 16);
            assert(a =~= b);
        } else if a.len() == 2 {
            assert(b.len() == 2);
            lemma_base64_char(p0 % 4 * 16 + p1 / 16, q0 % 4 * 16 + q1 / 16);
            lemma_base64_char(p1 % 16 * 4, q1 % 16 * 4);
            assert(a =~= b);
        } else {
            assert(b.len() >= 3);
            lemma_base64_char(p0 % 4 * 16 + p1 / 16, q0 % 4 * 16 + q1 / 16);
            lemma_base64_char(p1 % 16 * 4 + p2 / 64, q1 % 16 * 4 + q2 / 64);
            lemma_base64_char(p2 % 64, q2 % 64);
            assert(base64_text(a.skip(3)) =~= x.skip(4));
            assert(base64_text(b.skip(3)) =~= y.skip(4));
            law_base64_is_unambiguous(a.skip(3), b.skip(3));
            assert(a =~= a.take(3) + a.skip(3));
            assert(b =~= b.take(3) + b.skip(3));
            assert(a.take(3) =~= b.take(3));
        }
    }
}

/// No two texts have the same encoding, so that what is decoded is what was encoded.
pub proof fn law_encoding_is_unambiguous(s: Seq<char>, t: Seq<char>)
    requires
        encoded(s) == encoded(t),
    ensures
        s == t,
{
    law_base64_is_unambiguous(vstd::utf8::encode_utf8(s), vstd::utf8::encode_utf8(t));
    vstd::utf8::encode_utf8_decode_utf8(s);
    vstd::utf8::encode_utf8_decode_utf8(t);
}

/// What a text with a version looks like: `(version)`, the content in brackets.
pub const VERSION_PATTERN: &'static str = "^(\\d+)\\((.*)\\)$";

/// The groups that `regex` captures of a text for a pattern with two groups.
pub uninterp spec fn captured(pattern: Seq<char>, text: Seq<char>) -> Option<
    (Seq<char>, Seq<char>),
>;

/// What stands before the first bracket of a text such as `5({})`, and its content: the
/// text goes on to a closing bracket at its end, and the content is on one line.
pub open spec fn bracketed(text: Seq<char>) -> Option<(Seq<char>, Seq<char>)> {
    let open = text::next_index(text, '(', 0);
    let close = text.len() - 1;
    if 0 < open < close && text[close] == ')' && (forall|i: int|
        open < i < close ==> #[trigger] text[i] != '\n') {
        Some((text.take(open), text.subrange(open + 1, close)))
    } else {
        None
    }
}

/// The version and the content of a text such as `5({})`: ASCII digits, then the
/// content in brackets, on one line.
pub open spec fn versioned(text: Seq<char>) -> Option<(Seq<char>, Seq<char>)> {
    if forall|i: int|
        0 <= i < text::next_index(text, '(', 0) ==> text::ascii_digit(#[trigger] text[i]) {
        bracketed(text)
    } else {
        None
    }
}

/// Before the first opening bracket stand ASCII digits and characters beyond ASCII,
/// which may be digits too.
pub open spec fn foreign_front(text: Seq<char>) -> bool {
    let open = text::next_index(text, '(', 0);
    &&& open < text.len()
    &&& forall|i: int|
        0 <= i < open ==> text::ascii_digit(#[trigger] text[i]) || text[i] > '\u{7f}'
    &&& exists|i: int| 0 <= i < open && #[trigger] text[i] > '\u{7f}'
}

pub open spec fn groups_view(groups: Option<(String, String)>) -> Option<(Seq<char>, Seq<char>)> {
    match groups {
        Some((a, b)) => Some((a@, b@)),
        None => None,
    }
}

/// `regex::Regex::captures`, for [`VERSION_PATTERN`]: the whole text has to be digits
/// and then a bracketed content without a line break. The digits may be the decimal
/// digits of any script. Which characters beyond ASCII are such digits is not stated,
/// only that the outcome depends on the text alone, and that what is captured is the
/// front of the text and its content.
#[verifier::external_body]
fn capture_groups(pattern: &str, text: &str) -> (r: Option<(String, String)>)
    requires
        pattern@ == VERSION_PATTERN@,
    ensures
        groups_view(r) == captured(pattern@, text@),
        !foreign_front(text@) ==> groups_view(r) == versioned(text@),
        foreign_front(text@) ==> r is None || groups_view(r) == bracketed(text@),
{
    let re = regex::Regex::new(pattern).ok()?;
    let groups = re.captures(text)?;
    Some((groups.get(1)?.as_str().to_string(), groups.get(2)?.as_str().to_string()))
}

/// What a request says, given the groups that were captured of its text: a version
/// that is a number, and no later than the latest, with its content; or the whole
/// text, when nothing was captured.
pub open spec fn reads_as(
    decoded: Seq<char>,
    groups: Option<(Seq<char>, Seq<char>)>,
    r: Result<(u64, String), ServerError>,
) -> bool {
    match groups {
        Some((digits, content)) => if !text::u64_text(digits) {
            r matches Err(ServerError::IntegerParse(t)) && t@ == digits
        } else if text::decimal_value(digits) > LATEST_VERSION {
            r matches Err(ServerError::InvalidCDNVersion)
        } else {
            r is Ok && r->Ok_0.0 == text::decimal_value(digits) && r->Ok_0.1@ == content
        },
        None => r is Ok && r->Ok_0.0 == DEFAULT_VERSION && r->Ok_0.1@ == decoded,
    }
}

/// What a request says whose text begins with characters beyond ASCII: the whole text,
/// or a front that is no number. It never gives a version.
pub open spec fn reads_foreign(decoded: Seq<char>, r: Result<(u64, String), ServerError>) -> bool {
    ||| r is Ok && r->Ok_0.0 == DEFAULT_VERSION && r->Ok_0.1@ == decoded
    ||| (bracketed(decoded) matches Some((front, _)) && (r matches Err(
        ServerError::IntegerParse(t),
    ) && t@ == front))
}

/// Takes the groups that were captured of a text for what they say.
pub fn read_groups(decoded: String, groups: Option<(String, String)>) -> (r: Result<
    (u64, String),
    ServerError,
>)
    ensures
        reads_as(decoded@, groups_view(groups), r),
        groups is None ==> r is Ok && r->Ok_0.0 == 1 && r->Ok_0.1@ == decoded@,
        groups matches Some((digits, content)) ==> if !text::u64_text(digits@) {
            r matches Err(ServerError::IntegerParse(t)) && t@ == digits@
        } else if text::decimal_value(digits@) > 5 {
            r matches Err(ServerError::InvalidCDNVersion)
        } else {
            r is Ok && r->Ok_0.0 == text::decimal_value(digits@) && r->Ok_0.1@ == content@
        },
{
    match groups {
        Some((digits, content)) => match text::parse_u64(digits.as_str()) {
            Some(version) => {
                if version > LATEST_VERSION {
                    Err(ServerError::InvalidCDNVersion)
                } else {
                    Ok((version, content))
                }
            },
            None => Err(ServerError::IntegerParse(digits)),
        },
        None => Ok((DEFAULT_VERSION, decoded)),
    }
}

/// The version of the protocol and the content of a decoded request.
pub fn read_version(decoded: String) -> (r: Result<(u64, String), ServerError>)
    ensures
        reads_as(decoded@, captured(VERSION_PATTERN@, decoded@), r),
        !foreign_front(decoded@) ==> reads_as(decoded@, versioned(decoded@), r),
        foreign_front(decoded@) ==> reads_foreign(decoded@, r),
{
    proof {
        if foreign_front(decoded@) {
            let open = text::next_index(decoded@, '(', 0);
            let i = choose|i: int| 0 <= i < open && #[trigger] decoded@[i] > '\u{7f}';
            assert(decoded@.take(open)[i] == decoded@[i]);
            assert(!text::u64_text(decoded@.take(open)));
        }
    }
    let groups: Option<(String, String)> = capture_groups(VERSION_PATTERN, decoded.as_str());
    read_groups(decoded, groups)
}

/// The version of the protocol and the content of a request.
pub fn decode_req_part(part: &str) -> (r: Result<(u64, String), ServerError>)
    ensures
        vstd::utf8::encode_utf8(part@).len() > 65536 ==> (r matches Err(ServerError::InvalidQuery)),
        vstd::utf8::encode_utf8(part@).len() > MAX_ENCODED_LEN ==> (r matches Err(
            ServerError::InvalidQuery,
        )),
        vstd::utf8::encode_utf8(part@).len() <= 65536 ==> !(r matches Err(
            ServerError::InvalidQuery,
        )),
        vstd::utf8::encode_utf8(part@).len() <= MAX_ENCODED_LEN && (forall|s: Seq<char>|
         #[trigger]
            encoded(s) != part@) ==> (r matches Err(ServerError::Base64DecodingError())),
        forall|s: Seq<char>|
            vstd::utf8::encode_utf8(part@).len() <= MAX_ENCODED_LEN && #[trigger] encoded(s)
                == part@ ==> reads_as(s, captured(VERSION_PATTERN@, s), r) && (!foreign_front(s)
                ==> reads_as(s, versioned(s), r)) && (foreign_front(s) ==> reads_foreign(s, r)),
{
    match decode_base64(part) {
        Ok(decoded) => {
            proof {
                assert forall|s: Seq<char>| #[trigger] encoded(s) == part@ implies s == decoded@ by {
                    law_encoding_is_unambiguous(s, decoded@);
                }
            }
            read_version(decoded)
        },
        Err(err) => Err(err),
    }
}

/// The characters of base64 are the capital letters, the small letters, the digits, `+`
/// and `/`, in this order.
pub proof fn law_characters_of_base64(bits: int)
    requires
        0 <= bits < 64,
    ensures
        bits < 26 ==> base64_char(bits) as int == 'A' as int + bits,
        26 <= bits < 52 ==> base64_char(bits) as int == 'a' as int + (bits - 26),
        52 <= bits < 62 ==> base64_char(bits) as int == '0' as int + (bits - 52),
        bits == 62 ==> base64_char(bits) == '+',
        bits == 63 ==> base64_char(bits) == '/',
{
}

/// Three bytes are one number of 24 bits, and are written as four characters of six bits
/// each, the highest first. One or two bytes at the end are filled up with zero bits, and
/// the characters that are then missing are `=`.
pub proof fn law_bytes_in_base64(a: u8, b: u8, c: u8, rest: Seq<u8>)
    ensures
        base64_text(Seq::empty()) == Seq::<char>::empty(),
        ({
            let n = a as int * 65536;
            base64_text(seq![a]) == seq![
                base64_char(n / 262144),
                base64_char(n / 4096 % 64),
                '=',
                '=',
            ]
        }),
        ({
            let n = a as int * 65536 + b as int * 256;
            base64_text(seq![a, b]) == seq![
                base64_char(n / 262144),
                base64_char(n / 4096 % 64),
                base64_char(n / 64 % 64),
                '=',
            ]
        }),
        ({
            let n = a as int * 65536 + b as int * 256 + c as int;
            base64_text(seq![a, b, c] + rest) == seq![
                base64_char(n / 262144),
                base64_char(n / 4096 % 64),
                base64_char(n / 64 % 64),
                base64_char(n % 64),
            ] + base64_text(rest)
        }),
{
    let all = seq![a, b, c] + rest;
    assert(all.skip(3) =~= rest);
    lemma_groups_of_six(a as int, b as int, c as int);
    lemma_groups_of_six(a as int, b as int, 0);
    lemma_groups_of_six(a as int, 0, 0);
}

proof fn lemma_groups_of_six(x: int, y: int, z: int)
    requires
        0 <= x < 256,
        0 <= y < 256,
        0 <= z < 256,
    ensures
        (x * 65536 + y * 256 + z) / 262144 == x / 4,
        (x * 65536 + y * 256 + z) / 4096 % 64 == x % 4 * 16 + y / 16,
        (x * 65536 + y * 256 + z) / 64 % 64 == y % 16 * 4 + z / 64,
        (x * 65536 + y * 256 + z) % 64 == z % 64,
{
    let n = x * 65536 + y * 256 + z;
    let (p, q) = (x / 4, x % 4);
    let (s, t) = (y / 16, y % 16);
    let (u, v) = (z / 64, z % 64);
    assert(n == p * 262144 + (q * 65536 + s * 4096 + t * 256 + u * 64 + v));
    vstd::arithmetic::div_mod::lemma_fundamental_div_mod_converse(n, 262144, p, q * 65536 + s * 4096 + t * 256 + u * 64 + v);
    vstd::arithmetic::div_mod::lemma_fundamental_div_mod_converse(n, 4096, p * 64 + q * 16 + s, t * 256 + u * 64 + v);
    vstd::arithmetic::div_mod::lemma_fundamental_div_mod_converse(p * 64 + q * 16 + s, 64, p, q * 16 + s);
    vstd::arithmetic::div_mod::lemma_fundamental_div_mod_converse(n, 64, p * 4096 + q * 1024 + s * 64 + t * 4 + u, v);
    vstd::arithmetic::div_mod::lemma_fundamental_div_mod_converse(
        p * 4096 + q * 1024 + s * 64 + t * 4 + u,
        64,
        p * 64 + q * 16 + s,
        t * 4 + u,
    );
}

/// A text carries a version if and only if it is digits and then a content in brackets:
/// there is at least one digit, no character but the digits `0` to `9` stands before the
/// first bracket, and the content is on one line.
pub proof fn law_text_with_a_version(text: Seq<char>, digits: Seq<char>, content: Seq<char>)
    ensures
        versioned(text) == Some((digits, content)) <==> text == digits + seq!['('] + content
            + seq![')'] && digits.len() > 0 && (forall|i: int|
            0 <= i < digits.len() ==> '0' <= #[trigger] digits[i] <= '9') && !content.contains(
            '\n',
        ),
{
    let open = text::next_index(text, '(', 0);
    let close = text.len() - 1;
    text::lemma_next_index(text, '(', 0);
    if versioned(text) == Some((digits, content)) {
        assert(digits =~= text.take(open));
        assert(text =~= digits + seq!['('] + content + seq![')']);
        assert forall|i: int| 0 <= i < digits.len() implies '0' <= #[trigger] digits[i] <= '9' by {
            assert(text::ascii_digit(text[i]));
        }
        assert forall|i: int| 0 <= i < content.len() implies #[trigger] content[i] != '\n' by {
            assert(text[open + 1 + i] != '\n');
        }
    }
    if text == digits + seq!['('] + content + seq![')'] && digits.len() > 0 && (forall|i: int|
        0 <= i < digits.len() ==> '0' <= #[trigger] digits[i] <= '9') && !content.contains('\n') {
        assert forall|j: int| 0 <= j < digits.len() implies #[trigger] text[j] != '(' by {
            assert('0' <= digits[j] <= '9');
        }
        text::lemma_next_index_is(text, '(', 0, digits.len() as int);
        assert forall|i: int| 0 <= i < open implies text::ascii_digit(#[trigger] text[i]) by {
            assert('0' <= digits[i] <= '9');
        }
        assert forall|i: int| open < i < close implies #[trigger] text[i] != '\n' by {
            assert(content.contains(content[i - open - 1]));
        }
        assert(text.take(open) =~= digits);
        assert(text.subrange(open + 1, close) =~= content);
    }
}

/// The front of a text is what stands before its first bracket, if the text then is a
/// content in brackets on one line.
pub proof fn law_front_of_a_text(text: Seq<char>, front: Seq<char>, content: Seq<char>)
    ensures
        bracketed(text) == Some((front, content)) <==> text == front + seq!['('] + content
            + seq![')'] && front.len() > 0 && !front.contains('(') && !content.contains('\n'),
{
    let open = text::next_index(text, '(', 0);
    let close = text.len() - 1;
    text::lemma_next_index(text, '(', 0);
    if bracketed(text) == Some((front, content)) {
        assert(text =~= front + seq!['('] + content + seq![')']);
        assert forall|i: int| 0 <= i < front.len() implies #[trigger] front[i] != '(' by {
            assert(text[i] != '(');
        }
        assert forall|i: int| 0 <= i < content.len() implies #[trigger] content[i] != '\n' by {
            assert(text[open + 1 + i] != '\n');
        }
    }
    if text == front + seq!['('] + content + seq![')'] && front.len() > 0 && !front.contains('(')
        && !content.contains('\n') {
        assert forall|j: int| 0 <= j < front.len() implies #[trigger] text[j] != '(' by {
            assert(front.contains(front[j]));
        }
        text::lemma_next_index_is(text, '(', 0, front.len() as int);
        assert forall|i: int| open < i < close implies #[trigger] text[i] != '\n' by {
            assert(content.contains(content[i - open - 1]));
        }
        assert(text.take(open) =~= front);
        assert(text.subrange(open + 1, close) =~= content);
    }
}

/// What stands before the first bracket may be digits of another script if it is made of
/// ASCII digits and of characters beyond ASCII, with at least one of the latter. Without a
/// bracket there is no such front.
pub proof fn law_front_beyond_ascii(front: Seq<char>, rest: Seq<char>)
    requires
        !front.contains('('),
    ensures
        !foreign_front(front),
        foreign_front(front + seq!['('] + rest) <==> (forall|i: int|
            0 <= i < front.len() ==> '0' <= #[trigger] front[i] <= '9' || front[i] > '\u{7f}') && (
        exists|i: int| 0 <= i < front.len() && #[trigger] front[i] > '\u{7f}'),
{
    text::lemma_next_index(front, '(', 0);
    let bare = text::next_index(front, '(', 0);
    if bare < front.len() {
        assert(front.contains(front[bare]));
    }
    let text = front + seq!['('] + rest;
    assert forall|j: int| 0 <= j < front.len() implies #[trigger] text[j] != '(' by {
        assert(front.contains(front[j]));
    }
    text::lemma_next_index_is(text, '(', 0, front.len() as int);
    assert forall|i: int| 0 <= i < front.len() implies #[trigger] text[i] == front[i] by {}
    if foreign_front(text) {
        assert forall|i: int| 0 <= i < front.len() implies '0' <= #[trigger] front[i] <= '9'
            || front[i] > '\u{7f}' by {
            assert(text::ascii_digit(text[i]) || text[i] > '\u{7f}');
        }
        let i = choose|i: int| 0 <= i < front.len() && #[trigger] text[i] > '\u{7f}';
        assert(front[i] > '\u{7f}');
    }
    if (forall|i: int|
        0 <= i < front.len() ==> '0' <= #[trigger] front[i] <= '9' || front[i] > '\u{7f}') && (
    exists|i: int| 0 <= i < front.len() && #[trigger] front[i] > '\u{7f}') {
        assert forall|i: int| 0 <= i < front.len() implies text::ascii_digit(#[trigger] text[i])
            || text[i] > '\u{7f}' by {
            assert('0' <= front[i] <= '9' || front[i] > '\u{7f}');
        }
        let i = choose|i: int| 0 <= i < front.len() && #[trigger] front[i] > '\u{7f}';
        assert(text[i] > '\u{7f}');
    }
}

/// What a decoded request is answered: version 5 is the latest that is understood, and a
/// text that carries no version is one of version 1, whole.
pub proof fn law_versions_that_are_understood(
    version: nat,
    content: Seq<char>,
    plain: Seq<char>,
    r: Result<(u64, String), ServerError>,
)
    requires
        version <= u64::MAX,
        !content.contains('\n'),
        !plain.contains('('),
    ensures
        ({
            let text = text::decimal_text(version) + seq!['('] + content + seq![')'];
            reads_as(text, versioned(text), r) <==> if version <= 5 {
                r is Ok && r->Ok_0.0 == version && r->Ok_0.1@ == content
            } else {
                r matches Err(ServerError::InvalidCDNVersion)
            }
        }),
        reads_as(plain, versioned(plain), r) <==> r is Ok && r->Ok_0.0 == 1 && r->Ok_0.1@ == plain,
{
    law_written_version_is_read(version, content);
    if let Some((digits, inner)) = versioned(plain) {
        law_text_with_a_version(plain, digits, inner);
        assert(plain[digits.len() as int] == '(');
        assert(plain.contains('('));
    }
}

/// A front beyond ASCII never gives a version: the text counts as a whole, or its front is
/// reported as no number.
pub proof fn law_front_beyond_ascii_is_no_version(
    front: Seq<char>,
    content: Seq<char>,
    r: Result<(u64, String), ServerError>,
)
    requires
        front.len() > 0,
        !front.contains('('),
        !content.contains('\n'),
    ensures
        ({
            let text = front + seq!['('] + content + seq![')'];
            reads_foreign(text, r) <==> (r is Ok && r->Ok_0.0 == 1 && r->Ok_0.1@ == text) || (r
                matches Err(ServerError::IntegerParse(t)) && t@ == front)
        }),
{
    law_front_of_a_text(front + seq!['('] + content + seq![')'], front, content);
}

/// A content on one line that is written with a version is read with that version;
/// a version that is too late is refused.
pub proof fn law_written_version_is_read(version: nat, content: Seq<char>)
    requires
        version <= u64::MAX,
        !content.contains('\n'),
    ensures
        !foreign_front(text::decimal_text(version) + seq!['('] + content + seq![')']),
        versioned(text::decimal_text(version) + seq!['('] + content + seq![')']) == Some(
            (text::decimal_text(version), content),
        ),
        text::u64_text(text::decimal_text(version)),
        text::decimal_value(text::decimal_text(version)) == version,
{
    let digits = text::decimal_text(version);
    let t = digits + seq!['('] + content + seq![')'];
    text::lemma_decimal_text(version);
    assert forall|j: int| 0 <= j < digits.len() implies t[j] != '(' by {
        assert(text::ascii_digit(digits[j]));
    }
    text::lemma_next_index_is(t, '(', 0, digits.len() as int);
    assert forall|i: int| 0 <= i < digits.len() implies text::ascii_digit(#[trigger] t[i]) by {
        assert(text::ascii_digit(digits[i]));
    }
    assert forall|i: int| digits.len() < i < t.len() - 1 implies #[trigger] t[i] != '\n' by {
        assert(t[i] == content[i - digits.len() - 1]);
        assert(content.contains(content[i - digits.len() - 1]));
    }
    assert(t.take(digits.len() as int) =~= digits);
    assert(t.subrange(digits.len() as int + 1, t.len() - 1) =~= content);
}

} // verus!
