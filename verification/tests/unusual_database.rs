use protohacker_in_rust::protohackers::problem4::{format_response, handle_message, Db, Request};

#[test]
fn test_parse_insert_simple() {
    let req = Request::parse(b"foo=bar").unwrap();
    assert_eq!(
        req,
        Request::Insert {
            key: "foo".to_string(),
            value: "bar".to_string()
        }
    );
}

#[test]
fn test_parse_insert_with_equals_in_value() {
    let req = Request::parse(b"foo=bar=baz").unwrap();
    assert_eq!(
        req,
        Request::Insert {
            key: "foo".to_string(),
            value: "bar=baz".to_string()
        }
    );
}

#[test]
fn test_parse_insert_empty_value() {
    let req = Request::parse(b"foo=").unwrap();
    assert_eq!(
        req,
        Request::Insert {
            key: "foo".to_string(),
            value: "".to_string()
        }
    );
}

#[test]
fn test_parse_insert_multiple_equals() {
    let req = Request::parse(b"foo===").unwrap();
    assert_eq!(
        req,
        Request::Insert {
            key: "foo".to_string(),
            value: "==".to_string()
        }
    );
}

#[test]
fn test_parse_insert_empty_key() {
    let req = Request::parse(b"=foo").unwrap();
    assert_eq!(
        req,
        Request::Insert {
            key: "".to_string(),
            value: "foo".to_string()
        }
    );
}

#[test]
fn test_parse_retrieve() {
    let req = Request::parse(b"message").unwrap();
    assert_eq!(
        req,
        Request::Retrieve {
            key: "message".to_string()
        }
    );
}

#[test]
fn test_parse_retrieve_empty_key() {
    let req = Request::parse(b"").unwrap();
    assert_eq!(
        req,
        Request::Retrieve {
            key: "".to_string()
        }
    );
}

#[test]
fn test_parse_ignore_version_insert() {
    // Should return None → ignored
    assert!(Request::parse(b"version=hacked").is_none());
}

#[test]
fn test_parse_version_retrieve() {
    let req = Request::parse(b"version").unwrap();
    assert_eq!(
        req,
        Request::Retrieve {
            key: "version".to_string()
        }
    );
}

#[test]
fn test_parse_non_utf8() {
    // Invalid UTF-8 → ignored
    assert!(Request::parse(&[0xFF, 0xFE]).is_none());
}

#[test]
fn test_format_response() {
    assert_eq!(format_response("key", "value"), b"key=value".to_vec());
    assert_eq!(format_response("", "hello"), b"=hello".to_vec());
    assert_eq!(format_response("empty", ""), b"empty=".to_vec());
}

// Now test the full handle_message logic with a mock DB
#[test]
fn test_handle_insert_and_retrieve() {
    let mut db = Db::new();
    // Pre-populate version
    db.insert(
        "version".to_string(),
        "Ken's Key-Value Store 1.0".to_string(),
    );

    // Insert
    let resp = handle_message(&mut db, b"foo=bar");
    assert!(resp.is_none());

    // Retrieve
    let resp = handle_message(&mut db, b"foo").unwrap();
    assert_eq!(resp, b"foo=bar");

    // Retrieve missing key → returns "key="
    let resp = handle_message(&mut db, b"missing").unwrap();
    assert_eq!(resp, b"missing=");
}

#[test]
fn test_handle_version_retrieve() {
    let mut db = Db::new();
    db.insert(
        "version".to_string(),
        "Ken's Key-Value Store 1.0".to_string(),
    );

    let resp = handle_message(&mut db, b"version").unwrap();
    assert_eq!(resp, b"version=Ken's Key-Value Store 1.0");
}

#[test]
fn test_handle_version_insert_ignored() {
    let mut db = Db::new();
    db.insert(
        "version".to_string(),
        "Ken's Key-Value Store 1.0".to_string(),
    );

    // Try to overwrite version
    let resp = handle_message(&mut db, b"version=hacked");
    assert!(resp.is_none());

    // Version should still be what it was
    let resp = handle_message(&mut db, b"version").unwrap();
    assert_eq!(resp, b"version=Ken's Key-Value Store 1.0");
}

#[test]
fn test_handle_empty_key() {
    let mut db = Db::new();
    db.insert(
        "version".to_string(),
        "Ken's Key-Value Store 1.0".to_string(),
    );

    // Insert with empty key
    let resp = handle_message(&mut db, b"=hello");
    assert!(resp.is_none());

    // Retrieve empty key
    let resp = handle_message(&mut db, b"").unwrap();
    assert_eq!(resp, b"=hello");
}

#[test]
fn test_handle_update_existing_key() {
    let mut db = Db::new();
    db.insert(
        "version".to_string(),
        "Ken's Key-Value Store 1.0".to_string(),
    );

    handle_message(&mut db, b"key=old");
    handle_message(&mut db, b"key=new");

    let resp = handle_message(&mut db, b"key").unwrap();
    assert_eq!(resp, b"key=new");
}

#[test]
fn the_store_returns_what_was_there() {
    let mut db = Db::new();
    assert_eq!(db.retrieve("a"), None);
    assert_eq!(db.insert("a".to_string(), "1".to_string()), None);
    assert_eq!(db.insert("b".to_string(), "2".to_string()), None);
    assert_eq!(
        db.insert("a".to_string(), "3".to_string()),
        Some("1".to_string())
    );
    assert_eq!(db.retrieve("a"), Some("3".to_string()));
    assert_eq!(db.retrieve("b"), Some("2".to_string()));
    assert_eq!(db.retrieve(""), None);
}

#[test]
fn requests_may_hold_any_utf8() {
    let req = Request::parse("cl\u{e9}=\u{1f980}=x".as_bytes()).unwrap();
    assert_eq!(
        req,
        Request::Insert {
            key: "cl\u{e9}".to_string(),
            value: "\u{1f980}=x".to_string()
        }
    );
    assert!(Request::parse(b"version=").is_none());
    assert_eq!(
        Request::parse(b"versions=1"),
        Some(Request::Insert {
            key: "versions".to_string(),
            value: "1".to_string()
        })
    );
    assert_eq!(
        format_response("cl\u{e9}", "\u{1f980}"),
        "cl\u{e9}=\u{1f980}".as_bytes()
    );
}
