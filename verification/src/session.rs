//! The signed session: a per-request string map persisted in a single
//! signed cookie, with conservative dirty-tracking.
use vstd::prelude::*;
use vstd::set::axiom_set_insert_len;
use crate::codec;
use crate::jar::{jar_delta, jar_map, jar_signed_add, jar_signed_get, signed_render, signed_value};
use crate::middleware::RequestContext;
use crate::session_map::SessionMap;

verus! {

/// How long the session cookie lives, in seconds: 90 days.
pub const SESSION_MAX_AGE_SECS: i64 = 90 * 24 * 60 * 60;

/// The request's session: a string map, and the dirty flag that decides
/// whether the session cookie is rewritten on the way out.
pub struct Session {
    pub data: SessionMap,
    pub dirty: bool,
}

impl Session {
    /// A fresh, clean, empty session.
    pub fn new_empty() -> (s: Session)
        ensures
            s.data@ == Seq::<(Seq<char>, Seq<char>)>::empty(),
            s.data.wf(),
            s.dirty == false,
    {
        Session { data: SessionMap::new(), dirty: false }
    }
}

/// The signed session middleware: names the session cookie, holds the
/// master key bytes, and decides the `Secure` attribute per configuration.
pub struct SessionMiddleware {
    pub cookie_name: String,
    pub key: Vec<u8>,
    pub secure: bool,
}

/// True when the cookie map holds, under `name`, a value carrying a valid
/// tag for `key`.
pub open spec fn has_session(m: Map<Seq<char>, Seq<char>>, name: Seq<char>, key: Seq<u8>) -> bool {
    exists|v: Seq<char>| m.contains_pair(name, signed_value(key, v))
}

impl SessionMiddleware {
    /// The master key must hold at least 256 bits: the signed jar refuses
    /// shorter ones.
    pub open spec fn wf(&self) -> bool {
        self.key@.len() >= 32
    }

    pub fn new(cookie: &str, key: Vec<u8>, secure: bool) -> (r: SessionMiddleware)
        requires
            key@.len() >= 32,
        ensures
            r.cookie_name@ == cookie@,
            r.key@ == key@,
            r.secure == secure,
            r.wf(),
    {
        SessionMiddleware { cookie_name: String::from_str(cookie), key, secure }
    }

    /// Decodes a session cookie's raw value into a session map; total on
    /// any input.
    pub fn decode(value: &str) -> (r: SessionMap)
        ensures
            r@ == codec::spec_decode(value@),
            r.wf(),
    {
        codec::decode(value)
    }

    /// Encodes a session map as the session cookie's value: base64 text
    /// that never ends in `=`.
    pub fn encode(h: &SessionMap) -> (r: String)
        ensures
            r@ == codec::spec_encode(h@),
            codec::b64_dec(r@) == Some(codec::padded(codec::payload(h@))),
            forall|i: int| 0 <= i < r@.len() ==> r@[i] != '=',
    {
        codec::encode(h)
    }

    /// Loads the session on the way in: the named cookie is read through
    /// the signed view; a present, verified value is decoded, and
    /// anything else (absent, tampered, or signed under another key)
    /// yields an empty map. The session starts clean either way, and the
    /// cookie store is left untouched.
    pub fn before(&self, ctx: &mut RequestContext)
        requires
            self.wf(),
        ensures
            final(ctx).jar == old(ctx).jar,
            final(ctx).session.dirty == false,
            final(ctx).session.data.wf(),
            !has_session(jar_map(old(ctx).jar), self.cookie_name@, self.key@)
                ==> final(ctx).session.data@ == Seq::<(Seq<char>, Seq<char>)>::empty(),
            forall|v: Seq<char>|
                jar_map(old(ctx).jar).contains_pair(
                    self.cookie_name@,
                    #[trigger] signed_value(self.key@, v),
                ) ==> final(ctx).session.data@ == codec::spec_decode(v),
    {
        let got = jar_signed_get(&ctx.jar, self.key.as_slice(), self.cookie_name.as_str());
        let data = match got {
            Some(v) => codec::decode(v.as_str()),
            None => SessionMap::new(),
        };
        ctx.session = Session { data, dirty: false };
    }

    /// Writes the session back on the way out. A clean session changes
    /// nothing at all: no cookie is stored, the delta stays as it was. A
    /// dirty one is encoded, signed, and stored under the session cookie
    /// name with path `/`, `HttpOnly`, `SameSite=Strict`, a 90-day
    /// `Max-Age`, and `Secure` per configuration, adding exactly one
    /// entry to the delta.
    pub fn after(&self, ctx: &mut RequestContext)
        requires
            self.wf(),
            old(ctx).session.data.wf(),
        ensures
            !old(ctx).session.dirty ==> *final(ctx) == *old(ctx),
            final(ctx).session == old(ctx).session,
            old(ctx).session.dirty ==> jar_map(final(ctx).jar) == jar_map(old(ctx).jar).insert(
                self.cookie_name@,
                signed_value(self.key@, codec::spec_encode(old(ctx).session.data@)),
            ),
            old(ctx).session.dirty ==> codec::b64_dec(codec::spec_encode(old(ctx).session.data@))
                == Some(codec::padded(codec::payload(old(ctx).session.data@))),
            old(ctx).session.dirty ==> jar_delta(final(ctx).jar) == jar_delta(
                old(ctx).jar,
            ).insert(
                self.cookie_name@,
                signed_render(
                    self.key@,
                    self.cookie_name@,
                    codec::spec_encode(old(ctx).session.data@),
                    true,
                    self.secure,
                    true,
                    SESSION_MAX_AGE_SECS as int,
                    "/"@,
                ),
            ),
    {
        if ctx.session.dirty {
            let encoded = codec::encode(&ctx.session.data);
            jar_signed_add(
                &mut ctx.jar,
                self.key.as_slice(),
                self.cookie_name.as_str(),
                encoded,
                true,
                self.secure,
                true,
                SESSION_MAX_AGE_SECS,
                "/",
            );
        }
    }
}

/// The signed sub-view round trip, run end to end: a dirty session with
/// distinct, non-empty keys, written out and loaded again under the same
/// key, restores exactly the same entries.
pub fn write_then_read_session(smw: &SessionMiddleware, ctx: &mut RequestContext)
    requires
        smw.wf(),
        old(ctx).session.dirty,
        old(ctx).session.data.wf(),
        forall|i: int| 0 <= i < old(ctx).session.data@.len() ==> old(ctx).session.data@[i].0.len()
            > 0,
    ensures
        final(ctx).session.data@ == old(ctx).session.data@,
        final(ctx).session.dirty == false,
{
    let ghost entries = ctx.session.data@;
    let ghost wire = codec::spec_encode(entries);
    smw.after(ctx);
    proof {
        assert(jar_map(ctx.jar).contains_pair(smw.cookie_name@, signed_value(smw.key@, wire)));
    }
    smw.before(ctx);
    proof {
        assert(ctx.session.data@ == codec::spec_decode(wire));
        codec::lemma_decode_encode(entries, wire);
    }
}

/// Access to the session attached to the per-request state.
pub trait RequestSession: Sized {
    /// The session held in the state.
    spec fn spec_session(&self) -> Session;

    /// The state with its session replaced and everything else kept.
    spec fn with_session(self, s: Session) -> Self;

    /// Read-only access: the dirty flag is untouched.
    fn session(&self) -> (r: &SessionMap)
        ensures
            *r == self.spec_session().data,
    ;

    /// Mutable access: marks the session dirty by the mere call, whether
    /// or not the caller changes an entry.
    fn session_mut(&mut self) -> (r: &mut SessionMap)
        ensures
            *r == old(self).spec_session().data,
            *final(self) == old(self).with_session(
                (Session { data: *final(r), dirty: true }),
            ),
    ;
}

impl RequestSession for RequestContext {
    open spec fn spec_session(&self) -> Session {
        self.session
    }

    open spec fn with_session(self, s: Session) -> Self {
        RequestContext { jar: self.jar, session: s }
    }

    fn session(&self) -> (r: &SessionMap) {
        &self.session.data
    }

    fn session_mut(&mut self) -> (r: &mut SessionMap) {
        self.session.dirty = true;
        &mut self.session.data
    }
}

/// Dirty tracking, counted out on the delta: a clean pass-through leaves
/// the delta's size alone (nothing is owed to the response), while the
/// dirty path's single insertion grows an empty delta to exactly one
/// entry, the session cookie's own.
pub proof fn lemma_dirty_tracking(d: Map<Seq<char>, Seq<char>>, name: Seq<char>, line: Seq<char>)
    requires
        d.dom().finite(),
    ensures
        d =~= Map::<Seq<char>, Seq<char>>::empty() ==> d.dom().len() == 0,
        d =~= Map::<Seq<char>, Seq<char>>::empty() ==> d.insert(name, line).dom().len() == 1,
        !d.dom().contains(name) ==> d.insert(name, line).dom().len() == d.dom().len() + 1,
        d.dom().contains(name) ==> d.insert(name, line).dom().len() == d.dom().len(),
{
    axiom_set_insert_len(d.dom(), name);
    assert(d.insert(name, line).dom() =~= d.dom().insert(name));
    if d.dom().contains(name) {
        assert(d.dom().insert(name) =~= d.dom());
    }
    if d =~= Map::<Seq<char>, Seq<char>>::empty() {
        assert(d.dom() =~= Set::<Seq<char>>::empty());
        assert(d.dom().len() == 0);
    }
}

} // verus!
