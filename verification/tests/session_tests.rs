use conduit_cookie::{Middleware, RequestCookies, RequestSession, SessionMiddleware};
use cookie::Cookie;

fn test_key() -> Vec<u8> {
    (0..32).collect()
}

fn other_key() -> Vec<u8> {
    (100..132).collect()
}

#[test]
fn simple() {
    let key = test_key();

    // Set the session cookie
    let mw = Middleware::new();
    let smw = SessionMiddleware::new("lol", key, false);
    let headers: Vec<String> = Vec::new();
    let mut req = mw.before(&headers);
    smw.before(&mut req);
    assert!(req
        .session_mut()
        .insert("foo".to_string(), "bar".to_string())
        .is_none());
    smw.after(&mut req);
    let set_cookies = mw.after(&req);
    assert_eq!(set_cookies.len(), 1);
    let v = set_cookies[0].clone();
    assert!(v.starts_with("lol"));

    // Use the session cookie
    let key = test_key();
    let smw = SessionMiddleware::new("lol", key, false);
    let headers = vec![v];
    let mut req = mw.before(&headers);
    smw.before(&mut req);
    assert_eq!(req.session().get("foo").unwrap(), "bar");
}

#[test]
fn dirty_tracking() {
    let mw = Middleware::new();
    let headers: Vec<String> = Vec::new();

    // a handler that only reads the session
    let smw = SessionMiddleware::new("dirty", test_key(), false);
    let mut req = mw.before(&headers);
    smw.before(&mut req);
    req.session();
    smw.after(&mut req);
    assert!(mw.after(&req).is_empty());

    // a handler that takes mutable access without changing anything
    let smw = SessionMiddleware::new("dirty", test_key(), false);
    let mut req = mw.before(&headers);
    smw.before(&mut req);
    req.session_mut();
    smw.after(&mut req);
    assert!(!mw.after(&req).is_empty());
}

#[test]
fn request_headers() {
    let mw = Middleware::new();
    let headers = vec!["foo=bar".to_string()];
    let req = mw.before(&headers);
    assert!(req.cookies().get("foo").is_some());
}

#[test]
fn set_cookie() {
    let mw = Middleware::new();
    let headers: Vec<String> = Vec::new();
    let mut req = mw.before(&headers);
    let c = Cookie::new("foo".to_string(), "bar".to_string());
    req.cookies_mut().add(c);
    let v = mw.after(&req);
    assert_eq!(v, vec!["foo=bar".to_string()]);
}

#[test]
fn cookie_list() {
    let mw = Middleware::new();
    let headers: Vec<String> = Vec::new();
    let mut req = mw.before(&headers);
    let c = Cookie::new("foo", "bar");
    req.cookies_mut().add(c);
    let c2 = Cookie::new("baz", "qux");
    req.cookies_mut().add(c2);
    let mut v = mw.after(&req);
    v.sort();
    assert_eq!(v, vec!["baz=qux".to_string(), "foo=bar".to_string()]);
}

#[test]
fn wrong_key_yields_no_session() {
    // a cookie written under one key and read under another verifies as
    // absent, never as its original value
    let mw = Middleware::new();
    let smw = SessionMiddleware::new("s", test_key(), false);
    let headers: Vec<String> = Vec::new();
    let mut req = mw.before(&headers);
    smw.before(&mut req);
    req.session_mut()
        .insert("secret".to_string(), "value".to_string());
    smw.after(&mut req);
    let set_cookies = mw.after(&req);
    assert_eq!(set_cookies.len(), 1);

    let smw2 = SessionMiddleware::new("s", other_key(), false);
    let headers = vec![set_cookies[0].clone()];
    let mut req2 = mw.before(&headers);
    smw2.before(&mut req2);
    assert!(req2.session().get("secret").is_none());
    assert_eq!(req2.session().len(), 0);
}

#[test]
fn garbage_session_cookie_yields_empty_session() {
    // scenario B: an unsigned or garbage value under the session cookie
    // name gives an empty session, not an error
    let mw = Middleware::new();
    let smw = SessionMiddleware::new("lol", test_key(), false);
    let headers = vec!["lol=complete-garbage".to_string()];
    let mut req = mw.before(&headers);
    smw.before(&mut req);
    assert_eq!(req.session().len(), 0);
}

#[test]
fn write_then_read_restores_session() {
    let mw = Middleware::new();
    let smw = SessionMiddleware::new("s", test_key(), false);
    let headers: Vec<String> = Vec::new();
    let mut req = mw.before(&headers);
    smw.before(&mut req);
    req.session_mut()
        .insert("alpha".to_string(), "one".to_string());
    req.session_mut()
        .insert("beta".to_string(), "two".to_string());
    conduit_cookie::session::write_then_read_session(&smw, &mut req);
    assert_eq!(req.session().len(), 2);
    assert_eq!(req.session().get("alpha").unwrap(), "one");
    assert_eq!(req.session().get("beta").unwrap(), "two");
}

#[test]
fn session_survives_round_trip_with_other_cookies() {
    // scenario A with an unrelated cookie in the store as well
    let mw = Middleware::new();
    let smw = SessionMiddleware::new("session", test_key(), true);
    let headers = vec!["other=thing".to_string()];
    let mut req = mw.before(&headers);
    smw.before(&mut req);
    req.session_mut()
        .insert("foo".to_string(), "bar".to_string());
    smw.after(&mut req);
    let set_cookies = mw.after(&req);
    assert_eq!(set_cookies.len(), 1);
    let line = set_cookies[0].clone();
    assert!(line.starts_with("session="));
    assert!(line.contains("HttpOnly"));
    assert!(line.contains("SameSite=Strict"));
    assert!(line.contains("Secure"));
    assert!(line.contains("Path=/"));
    assert!(line.contains("Max-Age=7776000"));

    let smw = SessionMiddleware::new("session", test_key(), true);
    let headers = vec![line];
    let mut req2 = mw.before(&headers);
    smw.before(&mut req2);
    assert_eq!(req2.session().get("foo").unwrap(), "bar");
}
