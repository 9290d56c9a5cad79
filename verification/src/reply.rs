//! What is answered to a request.

use vstd::prelude::*;

use crate::app_error;
use crate::app_error::ServerError;
use crate::str_map;
use crate::str_map::StrMap;
use crate::text;

verus! {

/// An answer: its body, its HTTP status and its headers.
#[derive(Debug)]
pub struct CustomReply {
    pub body: Vec<u8>,
    pub status: u16,
    pub headers: StrMap<String>,
}

/// What a [`CustomReply`] says.
#[verifier::ext_equal]
pub struct ReplyView {
    pub body: Seq<u8>,
    pub status: u16,
    pub headers: Map<Seq<char>, Seq<char>>,
}

impl View for CustomReply {
    type V = ReplyView;

    open spec fn view(&self) -> ReplyView {
        ReplyView {
            body: self.body@,
            status: self.status,
            headers: str_map::map_of(str_map::pairs(self.headers)),
        }
    }
}

/// A reply with one more header, or with another value for one.
pub open spec fn with_header(reply: ReplyView, name: Seq<char>, value: Seq<char>) -> ReplyView {
    ReplyView { headers: reply.headers.insert(name, value), ..reply }
}

/// A successful reply with a body of the given type.
pub open spec fn typed_reply(body: Seq<u8>, content_type: Seq<char>) -> ReplyView {
    ReplyView { body, status: 200, headers: map!["content-type"@ => content_type] }
}

pub open spec fn json_reply(body: Seq<u8>) -> ReplyView {
    typed_reply(body, "application/json"@)
}

/// MessagePack goes by the type of a script, for only then is it compressed on its
/// way.
pub open spec fn msgpack_reply(body: Seq<u8>) -> ReplyView {
    typed_reply(body, "application/javascript"@)
}

/// A reply that may be kept for `ttl` seconds.
pub open spec fn cacheable(reply: ReplyView, ttl: u32) -> ReplyView {
    with_header(
        with_header(reply, "Cache-Control"@, "public, max-age="@ + text::decimal_text(ttl as nat)),
        "CDN-Cache-Control"@,
        "max-age="@ + text::decimal_text(ttl as nat),
    )
}

impl CustomReply {
    fn typed(body: Vec<u8>, content_type: &str) -> (reply: CustomReply)
        ensures
            reply@ == typed_reply(body@, content_type@),
    {
        let mut reply = CustomReply { body, status: 200, headers: StrMap::new() };
        assert(reply@.headers =~= Map::empty());
        reply.add_header("content-type", content_type);
        reply
    }

    /// A JSON reply, of a value that was encoded or failed to be.
    pub fn json(encoded: Result<Vec<u8>, String>) -> (r: Result<CustomReply, ServerError>)
        ensures
            (match encoded {
                Ok(body) => r is Ok && r->Ok_0@ == json_reply(body@),
                Err(message) => r matches Err(ServerError::JSONParseError(m)) && m@ == message@,
            }),
    {
        match encoded {
            Ok(body) => Ok(CustomReply::raw_json(body)),
            Err(message) => Err(ServerError::JSONParseError(message)),
        }
    }

    /// A JSON reply, of a body that is JSON already.
    pub fn raw_json(body: Vec<u8>) -> (reply: CustomReply)
        ensures
            reply@ == json_reply(body@),
    {
        CustomReply::typed(body, "application/json")
    }

    /// A MessagePack reply, of a value that was encoded or failed to be.
    pub fn msgpack(encoded: Result<Vec<u8>, ServerError>) -> (r: Result<CustomReply, ServerError>)
        ensures
            (match encoded {
                Ok(body) => r is Ok && r->Ok_0@ == msgpack_reply(body@),
                Err(err) => r matches Err(e) && e == err,
            }),
    {
        match encoded {
            Ok(body) => Ok(CustomReply::typed(body, "application/javascript")),
            Err(err) => Err(err),
        }
    }

    /// Sets a header.
    pub fn add_header(&mut self, name: &str, value: &str)
        ensures
            final(self)@ == with_header(old(self)@, name@, value@),
    {
        proof {
            use_type_invariant(&self.headers);
        }
        let ghost before = self.headers;
        let value: String = value.to_string();
        self.headers.insert(name.to_string(), value);
        proof {
            let f = |s: String| s@;
            let pairs = str_map::pairs(before);
            assert forall|i: int, j: int| 0 <= i < j < pairs.len() implies (#[trigger] pairs[i]).0
                != (#[trigger] pairs[j]).0 by {
                assert(before.entries()[i].0 != before.entries()[j].0);
            }
            str_map::lemma_put_with_values(before.entries(), f, name@, value);
            str_map::lemma_put_map(pairs, name@, value@);
        }
    }

    pub fn set_status(&mut self, status: u16)
        ensures
            final(self)@ == (ReplyView { status, ..old(self)@ }),
    {
        self.status = status;
    }

    /// Lets the reply be kept for `ttl` seconds.
    pub fn set_cacheable(&mut self, ttl: u32)
        ensures
            final(self)@ == cacheable(old(self)@, ttl),
    {
        let seconds: String = text::decimal(ttl as u64);
        let mut value: String = "public, max-age=".to_string();
        value.append(seconds.as_str());
        self.add_header("Cache-Control", value.as_str());
        let mut value: String = "max-age=".to_string();
        value.append(seconds.as_str());
        self.add_header("CDN-Cache-Control", value.as_str());
    }
}

/// An error as it is answered.
#[derive(Debug)]
pub struct ErrorReply {
    pub status: u16,
    pub message: String,
    pub details: String,
}

/// True of the numbers that can be an HTTP status.
pub open spec fn is_status(status: u16) -> bool {
    100 <= status <= 999
}

impl ErrorReply {
    pub fn new(status: u16, message: String, details: String) -> (r: Self)
        ensures
            r == (ErrorReply { status, message, details }),
    {
        ErrorReply { status, message, details }
    }

    /// The answer to a request that failed with `err`: the status that the error
    /// surfaces as, its message, and `details`, which tell more of it.
    pub fn from_server_error(err: &ServerError, details: String) -> (r: Self)
        ensures
            r.status == app_error::http_status(*err),
            r.message@ == app_error::message_text(*err),
            r.details == details,
    {
        ErrorReply { status: err.status_code(), message: err.message(), details }
    }

    /// The answer to a request for a path that is not served.
    pub fn not_found() -> (r: Self)
        ensures
            r.status == 404,
            r.message@ == "Not found"@,
            r.details@ == "Not found"@,
    {
        ErrorReply::new(404, "Not found".to_string(), "Not found".to_string())
    }

    /// The reply, `encoded` being this error as JSON, or why it has none.
    pub fn as_reply(&self, encoded: Result<Vec<u8>, String>, cache_ttl: u32) -> (r: Result<
        CustomReply,
        ServerError,
    >)
        ensures
            (match encoded {
                Ok(body) => if is_status(self.status) {
                    r is Ok && r->Ok_0@ == cacheable(
                        (ReplyView { status: self.status, ..json_reply(body@) }),
                        cache_ttl,
                    )
                } else {
                    r matches Err(ServerError::InvalidStatusCode(n)) && n == self.status
                },
                Err(message) => r matches Err(ServerError::JSONParseError(m)) && m@ == message@,
            }),
    {
        match CustomReply::json(encoded) {
            Ok(reply) => {
                if self.status < 100 || self.status > 999 {
                    return Err(ServerError::InvalidStatusCode(self.status));
                }
                let mut reply: CustomReply = reply;
                reply.set_status(self.status);
                reply.set_cacheable(cache_ttl);
                Ok(reply)
            },
            Err(err) => Err(err),
        }
    }

    /// The reply; a bare 500 where there is none.
    pub fn respond(self, encoded: Result<Vec<u8>, String>, cache_ttl: u32) -> (reply: CustomReply)
        ensures
            reply@ == (if encoded is Ok && is_status(self.status) {
                cacheable(
                    (ReplyView { status: self.status, ..json_reply(encoded->Ok_0@) }),
                    cache_ttl,
                )
            } else {
                ReplyView { body: Seq::empty(), status: 500, headers: Map::empty() }
            }),
    {
        match self.as_reply(encoded, cache_ttl) {
            Ok(reply) => reply,
            Err(_) => {
                let reply = CustomReply { body: Vec::new(), status: 500, headers: StrMap::new() };
                assert(reply@.headers =~= Map::empty());
                reply
            },
        }
    }
}

/// An error never fails to be answered for its status.
pub proof fn law_every_error_has_a_status(err: ServerError)
    ensures
        is_status(app_error::http_status(err)),
        400 <= app_error::http_status(err) <= 599,
{
}

/// How a dependency tree is encoded.
#[derive(Debug, PartialEq, Eq, Structural)]
pub enum TreeFormat {
    Json,
    Msgpack,
}

/// Up to version 4 of the protocol a tree is JSON, from version 5 on MessagePack.
pub open spec fn tree_format(version: u64) -> TreeFormat {
    if version <= 4 {
        TreeFormat::Json
    } else {
        TreeFormat::Msgpack
    }
}

pub fn dep_tree_format(version: u64) -> (r: TreeFormat)
    ensures
        r == tree_format(version),
{
    if version <= 4 {
        TreeFormat::Json
    } else {
        TreeFormat::Msgpack
    }
}

/// For how many seconds a dependency tree may be kept.
pub const TREE_TTL: u32 = 900;

/// The reply to a request for a dependency tree, `encoded` being the tree in the
/// format that the request's version asks for.
pub fn get_dep_tree_reply(version: u64, encoded: Result<Vec<u8>, ServerError>) -> (r: Result<
    CustomReply,
    ServerError,
>)
    ensures
        (match encoded {
            Ok(body) => r is Ok && r->Ok_0@ == cacheable(
                match tree_format(version) {
                    TreeFormat::Json => json_reply(body@),
                    TreeFormat::Msgpack => msgpack_reply(body@),
                },
                TREE_TTL,
            ),
            Err(err) => r matches Err(e) && e == err,
        }),
{
    let body: Vec<u8> = match encoded {
        Ok(body) => body,
        Err(err) => {
            return Err(err);
        },
    };
    let mut reply: CustomReply = match dep_tree_format(version) {
        TreeFormat::Json => CustomReply::raw_json(body),
        TreeFormat::Msgpack => CustomReply::typed(body, "application/javascript"),
    };
    reply.set_cacheable(TREE_TTL);
    Ok(reply)
}

/// The status and the text that the question for the server's health is answered
/// with, `ping` being what came of a question to the database.
pub fn health_reply(ping: &Result<(), ServerError>) -> (r: (u16, String))
    ensures
        (match ping {
            Ok(_) => r.0 == 200 && r.1@ == "ok"@,
            Err(err) => r.0 == 503 && r.1@ == "database unavailable: "@ + app_error::message_text(
                *err,
            ),
        }),
{
    match ping {
        Ok(_) => (200, "ok".to_string()),
        Err(err) => {
            let mut text: String = "database unavailable: ".to_string();
            text.append(err.message().as_str());
            (503, text)
        },
    }
}

/// What the kinds of replies carry: JSON and MessagePack each have their type, both are
/// successes, and a reply that may be kept says for how long, to browsers and to the
/// network in between, with all else as it was.
pub proof fn law_headers_of_replies(body: Seq<u8>, reply: ReplyView, ttl: u32)
    ensures
        json_reply(body).body == body && json_reply(body).status == 200,
        json_reply(body).headers == map!["content-type"@ => "application/json"@],
        msgpack_reply(body).body == body && msgpack_reply(body).status == 200,
        msgpack_reply(body).headers == map!["content-type"@ => "application/javascript"@],
        cacheable(reply, ttl).body == reply.body,
        cacheable(reply, ttl).status == reply.status,
        cacheable(reply, ttl).headers == reply.headers.insert(
            "Cache-Control"@,
            "public, max-age="@ + text::decimal_text(ttl as nat),
        ).insert("CDN-Cache-Control"@, "max-age="@ + text::decimal_text(ttl as nat)),
{
}

/// A header that is set has its new value, and no other header changes.
pub proof fn law_set_header(
    reply: ReplyView,
    name: Seq<char>,
    value: Seq<char>,
    other: Seq<char>,
)
    ensures
        with_header(reply, name, value).headers.contains_key(name),
        with_header(reply, name, value).headers[name] == value,
        other != name ==> with_header(reply, name, value).headers.contains_key(other)
            == reply.headers.contains_key(other),
        other != name ==> with_header(reply, name, value).headers[other] == reply.headers[other],
        with_header(reply, name, value).body == reply.body,
        with_header(reply, name, value).status == reply.status,
{
}

/// Trees are JSON before version 5 of the protocol and MessagePack from then on, and they
/// may be kept for a quarter of an hour. A status has three digits.
pub proof fn law_how_trees_are_answered(version: u64, status: u16)
    ensures
        tree_format(version) == TreeFormat::Json <==> version < 5,
        tree_format(version) == TreeFormat::Msgpack <==> version >= 5,
        TREE_TTL == 15 * 60,
        is_status(status) <==> 1 <= status as int / 100 <= 9,
{
}

} // verus!
