use conduit_cookie::{parse_pair, SessionMap, SessionMiddleware};
use conduit_cookie::parse::parse_header;
use cookie::Cookie;

#[test]
fn no_equals() {
    let e = {
        let mut map = SessionMap::new();
        map.insert("a".to_string(), "bc".to_string());
        SessionMiddleware::encode(&map)
    };
    assert!(!e.ends_with('='));

    let c = Cookie::new("foo", e);
    let m = SessionMiddleware::decode(c.value());
    assert_eq!(m.get("a").unwrap(), "bc");
}

#[test]
fn encode_exact_value() {
    // "a" | 0xFF | "bc" is four bytes; two pad bytes make six, which is
    // exactly eight base64 characters with no padding.
    let mut map = SessionMap::new();
    map.insert("a".to_string(), "bc".to_string());
    assert_eq!(SessionMiddleware::encode(&map), "Yf9iY///");
}

#[test]
fn encode_empty_map() {
    let map = SessionMap::new();
    let e = SessionMiddleware::encode(&map);
    assert_eq!(e, "");
    assert!(!e.ends_with('='));
    let m = SessionMiddleware::decode(&e);
    assert_eq!(m.len(), 0);
}

#[test]
fn decode_garbage_never_fails() {
    assert_eq!(SessionMiddleware::decode("").len(), 0);
    assert_eq!(SessionMiddleware::decode("%%%not base64!").len(), 0);
    assert_eq!(SessionMiddleware::decode("=====").len(), 0);
    // valid base64, but no separator at all: no value segment, no entry
    assert_eq!(SessionMiddleware::decode("QUJD").len(), 0);
    // valid base64 of pure padding bytes: an empty key ends the data
    assert_eq!(SessionMiddleware::decode("////").len(), 0);
}

#[test]
fn decode_skips_invalid_utf8() {
    // base64 of [0x80, 0xFF, 0x41]: the key bytes are not UTF-8, so the
    // pair is dropped silently
    assert_eq!(SessionMiddleware::decode("gP9B").len(), 0);
    // base64 of [0x41, 0xFF, 0x42]: a valid pair "A" -> "B"
    let m = SessionMiddleware::decode("Qf9C");
    assert_eq!(m.len(), 1);
    assert_eq!(m.get("A").unwrap(), "B");
}

#[test]
fn round_trip_two_pairs_any_order() {
    // scenario C: two independent pairs survive encode/decode in either
    // insertion order
    let mut ab = SessionMap::new();
    ab.insert("foo".to_string(), "bar".to_string());
    ab.insert("baz".to_string(), "qux".to_string());
    let back = SessionMiddleware::decode(&SessionMiddleware::encode(&ab));
    assert_eq!(back.len(), 2);
    assert_eq!(back.get("foo").unwrap(), "bar");
    assert_eq!(back.get("baz").unwrap(), "qux");

    let mut ba = SessionMap::new();
    ba.insert("baz".to_string(), "qux".to_string());
    ba.insert("foo".to_string(), "bar".to_string());
    let back = SessionMiddleware::decode(&SessionMiddleware::encode(&ba));
    assert_eq!(back.len(), 2);
    assert_eq!(back.get("foo").unwrap(), "bar");
    assert_eq!(back.get("baz").unwrap(), "qux");
}

#[test]
fn round_trip_unicode_and_empty_value() {
    let mut m = SessionMap::new();
    m.insert("grüße".to_string(), "καλημέρα".to_string());
    m.insert("empty".to_string(), "".to_string());
    let back = SessionMiddleware::decode(&SessionMiddleware::encode(&m));
    assert_eq!(back.len(), 2);
    assert_eq!(back.get("grüße").unwrap(), "καλημέρα");
    assert_eq!(back.get("empty").unwrap(), "");
}

#[test]
fn encode_then_decode_runs_the_round_trip() {
    let mut m = SessionMap::new();
    m.insert("one".to_string(), "1".to_string());
    m.insert("two".to_string(), "22".to_string());
    m.insert("three".to_string(), "333".to_string());
    let back = conduit_cookie::codec::encode_then_decode(&m);
    assert_eq!(back.len(), 3);
    assert_eq!(back.get("one").unwrap(), "1");
    assert_eq!(back.get("two").unwrap(), "22");
    assert_eq!(back.get("three").unwrap(), "333");
}

#[test]
fn session_map_last_write_wins() {
    let mut m = SessionMap::new();
    assert!(m.insert("k".to_string(), "v1".to_string()).is_none());
    assert_eq!(m.insert("k".to_string(), "v2".to_string()).unwrap(), "v1");
    assert_eq!(m.len(), 1);
    assert_eq!(m.get("k").unwrap(), "v2");
    assert!(m.get("missing").is_none());
}

#[test]
fn parse_pair_splits_at_first_equals() {
    assert_eq!(
        parse_pair("foo=bar").unwrap(),
        ("foo".to_string(), "bar".to_string())
    );
    assert_eq!(
        parse_pair("  foo =  bar ").unwrap(),
        ("foo".to_string(), "bar".to_string())
    );
    assert_eq!(
        parse_pair("a=b=c").unwrap(),
        ("a".to_string(), "b=c".to_string())
    );
    assert!(parse_pair("no-equals-here").is_none());
    assert!(parse_pair("").is_none());
}

#[test]
fn parse_header_is_deterministic() {
    let h = "foo=bar; baz=qux; dropped; x = 1 ";
    let once = parse_header(h);
    let twice = parse_header(h);
    assert_eq!(once, twice);
    assert_eq!(
        once,
        vec![
            ("foo".to_string(), "bar".to_string()),
            ("baz".to_string(), "qux".to_string()),
            ("x".to_string(), "1".to_string()),
        ]
    );
}
