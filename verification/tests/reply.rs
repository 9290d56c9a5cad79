use sandpack_cdn::app_error::ServerError;
use sandpack_cdn::config::package_cache_dir;
use sandpack_cdn::reply::{
    dep_tree_format, get_dep_tree_reply, health_reply, CustomReply, ErrorReply, TreeFormat,
};

fn header<'a>(reply: &'a CustomReply, name: &str) -> Option<&'a str> {
    reply.headers.get(name).map(String::as_str)
}

#[test]
fn replies_have_their_types() {
    let reply = CustomReply::json(Ok(b"{}".to_vec())).unwrap();
    assert_eq!(reply.status, 200);
    assert_eq!(reply.body, b"{}".to_vec());
    assert_eq!(header(&reply, "content-type"), Some("application/json"));
    assert_eq!(reply.headers.len(), 1);
    let reply = CustomReply::raw_json(b"[]".to_vec());
    assert_eq!(header(&reply, "content-type"), Some("application/json"));
    let reply = CustomReply::msgpack(Ok(vec![0x80])).unwrap();
    assert_eq!(reply.body, vec![0x80]);
    assert_eq!(header(&reply, "content-type"), Some("application/javascript"));
}

#[test]
fn failed_encodings_are_errors() {
    assert!(matches!(
        CustomReply::json(Err("no".to_string())),
        Err(ServerError::JSONParseError(m)) if m == "no"
    ));
    assert!(matches!(
        CustomReply::msgpack(Err(ServerError::SerializeError())),
        Err(ServerError::SerializeError())
    ));
}

#[test]
fn headers_and_status_are_set() {
    let mut reply = CustomReply::raw_json(Vec::new());
    reply.add_header("x", "1");
    reply.add_header("x", "2");
    reply.set_status(418);
    assert_eq!(header(&reply, "x"), Some("2"));
    assert_eq!(reply.status, 418);
    assert_eq!(reply.headers.len(), 2);
}

#[test]
fn errors_are_answered_with_their_status() {
    let err = ServerError::PackageNotFound("left-pad".to_string());
    let reply = ErrorReply::from_server_error(&err, "details".to_string());
    assert_eq!(reply.status, 404);
    assert_eq!(reply.message, "Package left-pad not found");
    assert_eq!(reply.details, "details");
    let reply = reply.as_reply(Ok(b"{}".to_vec()), 60).unwrap();
    assert_eq!(reply.status, 404);
    assert_eq!(header(&reply, "content-type"), Some("application/json"));
    assert_eq!(header(&reply, "Cache-Control"), Some("public, max-age=60"));
    assert_eq!(header(&reply, "CDN-Cache-Control"), Some("max-age=60"));
}

#[test]
fn numbers_that_are_no_status_are_refused() {
    for status in [0, 99, 1000, 65535] {
        let reply = ErrorReply::new(status, "m".to_string(), "d".to_string());
        assert!(matches!(
            reply.as_reply(Ok(Vec::new()), 0),
            Err(ServerError::InvalidStatusCode(n)) if n == status
        ));
        let reply = reply.respond(Ok(b"{}".to_vec()), 0);
        assert_eq!(reply.status, 500);
        assert!(reply.body.is_empty());
        assert!(reply.headers.is_empty());
    }
    for status in [100, 999] {
        let reply = ErrorReply::new(status, "m".to_string(), "d".to_string());
        assert_eq!(reply.respond(Ok(b"{}".to_vec()), 0).status, status);
    }
}

#[test]
fn unknown_paths_are_not_found() {
    let reply = ErrorReply::not_found();
    assert_eq!(
        (reply.status, reply.message.as_str(), reply.details.as_str()),
        (404, "Not found", "Not found")
    );
    assert_eq!(reply.respond(Err("x".to_string()), 0).status, 500);
}

#[test]
fn trees_are_encoded_by_version() {
    for version in 0..=4 {
        assert_eq!(dep_tree_format(version), TreeFormat::Json);
    }
    assert_eq!(dep_tree_format(5), TreeFormat::Msgpack);
    let reply = get_dep_tree_reply(1, Ok(b"[]".to_vec())).unwrap();
    assert_eq!(header(&reply, "content-type"), Some("application/json"));
    assert_eq!(header(&reply, "Cache-Control"), Some("public, max-age=900"));
    assert_eq!(header(&reply, "CDN-Cache-Control"), Some("max-age=900"));
    let reply = get_dep_tree_reply(5, Ok(vec![0x90])).unwrap();
    assert_eq!(header(&reply, "content-type"), Some("application/javascript"));
    assert_eq!(reply.body, vec![0x90]);
    assert!(matches!(
        get_dep_tree_reply(5, Err(ServerError::SerializeError())),
        Err(ServerError::SerializeError())
    ));
}

#[test]
fn health_is_that_of_the_database() {
    assert_eq!(health_reply(&Ok(())), (200, "ok".to_string()));
    assert_eq!(
        health_reply(&Err(ServerError::SQLiteError("x".to_string()))),
        (503, "database unavailable: SQLite Error".to_string())
    );
}

#[test]
fn cache_directory_is_chosen() {
    let some = |s: &str| Some(s.to_string());
    assert_eq!(package_cache_dir(some("/c"), some("/d/package_cache")), "/c");
    assert_eq!(package_cache_dir(some(""), some("/d/package_cache")), "/d/package_cache");
    assert_eq!(package_cache_dir(None, some("package_cache")), "package_cache");
    assert_eq!(package_cache_dir(None, None), "package_cache");
}
