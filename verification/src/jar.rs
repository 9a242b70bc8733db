//! The per-request cookie store: the `cookie` crate's `CookieJar`,
//! declared to Verus and reached through a small set of trusted wrappers.
//!
//! The jar is modelled by two maps: `jar_map`, the cookies a lookup can
//! see (cookies added during the request shadow the request's originals),
//! and `jar_delta`, the rendered `Set-Cookie` line of every cookie added
//! since the request arrived, keyed by cookie name. Signed values are
//! named by `signed_value`: a 44-character base64 HMAC-SHA256 tag
//! followed by the plain value.
use vstd::prelude::*;
use cookie::CookieJar;

verus! {

#[verifier::external_type_specification]
#[verifier::external_body]
pub struct ExCookieJar(CookieJar);

/// The empty cookie map.
pub open spec fn no_cookies() -> Map<Seq<char>, Seq<char>> {
    Map::empty()
}

/// The cookies a lookup in the jar can see: name to raw stored value,
/// exactly what `CookieJar::get` finds.
pub uninterp spec fn jar_map(jar: CookieJar) -> Map<Seq<char>, Seq<char>>;

/// The jar's delta: for each cookie added or removed since the request
/// arrived, its rendered `Set-Cookie` header line, keyed by cookie name.
pub uninterp spec fn jar_delta(jar: CookieJar) -> Map<Seq<char>, Seq<char>>;

/// What the signed jar stores for `value` under the key derived from the
/// master bytes `key`: a 44-character base64 HMAC-SHA256 tag, then
/// `value` itself.
pub uninterp spec fn signed_value(key: Seq<u8>, value: Seq<char>) -> Seq<char>;

/// The rendered `Set-Cookie` line of a signed session cookie built with
/// the given attributes.
pub uninterp spec fn signed_render(
    key: Seq<u8>,
    name: Seq<char>,
    value: Seq<char>,
    http_only: bool,
    secure: bool,
    same_site_strict: bool,
    max_age_secs: int,
    path: Seq<char>,
) -> Seq<char>;

/// Relies on CookieJar::new: a fresh jar has no cookies and no delta.
#[verifier::external_body]
pub(crate) fn jar_new() -> (j: CookieJar)
    ensures
        jar_map(j) == no_cookies(),
        jar_delta(j) == no_cookies(),
{
    CookieJar::new()
}

/// Relies on CookieJar::add_original (and Cookie::new): the cookie joins
/// the request's originals, which never touches the delta; lookups then
/// see it unless a cookie added during the request already shadows the
/// name.
#[verifier::external_body]
pub(crate) fn jar_add_original(jar: &mut CookieJar, name: String, value: String)
    ensures
        jar_delta(*final(jar)) == jar_delta(*old(jar)),
        jar_map(*final(jar)) == if jar_delta(*old(jar)).dom().contains(name@) {
            jar_map(*old(jar))
        } else {
            jar_map(*old(jar)).insert(name@, value@)
        },
{
    jar.add_original(cookie::Cookie::new(name, value));
}

/// Relies on CookieJar::signed with Key::derive_from and SignedJar::get:
/// the call returns the plain part of the stored value exactly when the
/// cookie is present and its stored value carries a valid tag for this
/// key; the fixed-length tag prefix makes that plain part unique.
#[verifier::external_body]
pub(crate) fn jar_signed_get(jar: &CookieJar, key: &[u8], name: &str) -> (r: Option<String>)
    requires
        key@.len() >= 32,
    ensures
        match r {
            Some(v) => jar_map(*jar).contains_pair(name@, signed_value(key@, v@)) && (forall|
                w: Seq<char>,
            | jar_map(*jar)[name@] == signed_value(key@, w) ==> w == v@),
            None => !exists|w: Seq<char>|
                jar_map(*jar).contains_pair(name@, signed_value(key@, w)),
        },
{
    let k = cookie::Key::derive_from(key);
    jar.signed(&k).get(name).map(|c| c.value().to_string())
}

/// Relies on SignedJar::add, reached through CookieJar::signed_mut and
/// Key::derive_from, and on Cookie's Display: the tagged value is stored
/// under `name`, and the rendered `Set-Cookie` line of the built cookie
/// joins the delta under `name`.
#[verifier::external_body]
pub(crate) fn jar_signed_add(
    jar: &mut CookieJar,
    key: &[u8],
    name: &str,
    value: String,
    http_only: bool,
    secure: bool,
    same_site_strict: bool,
    max_age_secs: i64,
    path: &str,
)
    requires
        key@.len() >= 32,
    ensures
        jar_map(*final(jar)) == jar_map(*old(jar)).insert(name@, signed_value(key@, value@)),
        jar_delta(*final(jar)) == jar_delta(*old(jar)).insert(
            name@,
            signed_render(
                key@,
                name@,
                value@,
                http_only,
                secure,
                same_site_strict,
                max_age_secs as int,
                path@,
            ),
        ),
{
    let mut c = cookie::Cookie::new(name.to_string(), value);
    c.set_http_only(http_only);
    c.set_secure(secure);
    c.set_same_site(
        if same_site_strict {
            cookie::SameSite::Strict
        } else {
            cookie::SameSite::Lax
        },
    );
    c.set_max_age(cookie::time::Duration::seconds(max_age_secs));
    c.set_path(path.to_string());
    let k = cookie::Key::derive_from(key);
    jar.signed_mut(&k).add(c);
}

/// True when the rendered lines `rs` enumerate the delta `d`: one line
/// per entry, each line one of the delta's, and every entry represented.
pub open spec fn renders_delta(d: Map<Seq<char>, Seq<char>>, rs: Seq<String>) -> bool {
    &&& rs.len() == d.dom().len()
    &&& forall|i: int|
        #![trigger rs[i]]
        0 <= i < rs.len() ==> exists|n: Seq<char>| d.contains_pair(n, rs[i]@)
    &&& forall|n: Seq<char>|
        d.dom().contains(n) ==> exists|i: int| 0 <= i < rs.len() && rs[i]@ == d[n]
}

/// Relies on CookieJar::delta and Cookie's Display: one rendered
/// `Set-Cookie` line per delta entry, in an unspecified order.
#[verifier::external_body]
pub(crate) fn jar_delta_strings(jar: &CookieJar) -> (r: Vec<String>)
    ensures
        renders_delta(jar_delta(*jar), r@),
{
    let mut r = Vec::new();
    for c in jar.delta() {
        r.push(c.to_string());
    }
    r
}

} // verus!
