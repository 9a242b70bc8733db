//! The outer cookie middleware and the per-request state it builds: a
//! cookie store filled from the request's `Cookie` headers on the way in,
//! and one rendered `Set-Cookie` line per delta entry on the way out.
use vstd::prelude::*;
use cookie::CookieJar;
use crate::jar::{jar_add_original, jar_delta, jar_delta_strings, jar_map, jar_new, no_cookies, renders_delta};
use crate::parse::{parse_header, pairs_view, spec_parse_header};
use crate::session::Session;

verus! {

/// Pairs folded into a cookie map, later pairs overriding earlier ones.
pub open spec fn insert_pairs(
    m: Map<Seq<char>, Seq<char>>,
    ps: Seq<(Seq<char>, Seq<char>)>,
) -> Map<Seq<char>, Seq<char>>
    decreases ps.len(),
{
    if ps.len() == 0 {
        m
    } else {
        insert_pairs(m.insert(ps[0].0, ps[0].1), ps.drop_first())
    }
}

/// The cookie map after parsing each header in turn, starting from `m`.
pub open spec fn headers_map_from(
    m: Map<Seq<char>, Seq<char>>,
    hs: Seq<Seq<char>>,
) -> Map<Seq<char>, Seq<char>>
    decreases hs.len(),
{
    if hs.len() == 0 {
        m
    } else {
        headers_map_from(insert_pairs(m, spec_parse_header(hs[0])), hs.drop_first())
    }
}

/// The cookie map a request's `Cookie` headers produce: every header
/// split into pairs, inserted in order, later occurrences of a name
/// winning.
pub open spec fn headers_cookie_map(hs: Seq<Seq<char>>) -> Map<Seq<char>, Seq<char>> {
    headers_map_from(no_cookies(), hs)
}

proof fn lemma_insert_pairs_snoc(m: Map<Seq<char>, Seq<char>>, ps: Seq<(Seq<char>, Seq<char>)>)
    requires
        ps.len() > 0,
    ensures
        insert_pairs(m, ps) == insert_pairs(m, ps.drop_last()).insert(ps.last().0, ps.last().1),
    decreases ps.len(),
{
    if ps.len() == 1 {
        assert(ps.drop_last() =~= Seq::<(Seq<char>, Seq<char>)>::empty());
        assert(ps.drop_first() =~= Seq::<(Seq<char>, Seq<char>)>::empty());
        assert(ps[0] == ps.last());
        assert(insert_pairs(m, ps) == insert_pairs(m.insert(ps[0].0, ps[0].1), ps.drop_first()));
    } else {
        lemma_insert_pairs_snoc(m.insert(ps[0].0, ps[0].1), ps.drop_first());
        assert(ps.drop_first().drop_last() =~= ps.drop_last().drop_first());
        assert(ps.drop_first().last() == ps.last());
        assert(ps.drop_last()[0] == ps[0]);
        assert(insert_pairs(m, ps) == insert_pairs(m.insert(ps[0].0, ps[0].1), ps.drop_first()));
        assert(insert_pairs(m, ps.drop_last()) == insert_pairs(
            m.insert(ps[0].0, ps[0].1),
            ps.drop_last().drop_first(),
        ));
    }
}

proof fn lemma_headers_map_snoc(m: Map<Seq<char>, Seq<char>>, hs: Seq<Seq<char>>)
    requires
        hs.len() > 0,
    ensures
        headers_map_from(m, hs) == insert_pairs(
            headers_map_from(m, hs.drop_last()),
            spec_parse_header(hs.last()),
        ),
    decreases hs.len(),
{
    if hs.len() == 1 {
        assert(hs.drop_last() =~= Seq::<Seq<char>>::empty());
        assert(hs.drop_first() =~= Seq::<Seq<char>>::empty());
        assert(hs[0] == hs.last());
        assert(headers_map_from(m, hs) == headers_map_from(
            insert_pairs(m, spec_parse_header(hs[0])),
            hs.drop_first(),
        ));
    } else {
        lemma_headers_map_snoc(insert_pairs(m, spec_parse_header(hs[0])), hs.drop_first());
        assert(hs.drop_first().drop_last() =~= hs.drop_last().drop_first());
        assert(hs.drop_first().last() == hs.last());
        assert(hs.drop_last()[0] == hs[0]);
        assert(headers_map_from(m, hs) == headers_map_from(
            insert_pairs(m, spec_parse_header(hs[0])),
            hs.drop_first(),
        ));
        assert(headers_map_from(m, hs.drop_last()) == headers_map_from(
            insert_pairs(m, spec_parse_header(hs[0])),
            hs.drop_last().drop_first(),
        ));
    }
}

/// All per-request state, owned for the request's lifetime: the cookie
/// store, and the session loaded from it.
pub struct RequestContext {
    pub jar: CookieJar,
    pub session: Session,
}

/// Access to the cookie store attached to the per-request state.
pub trait RequestCookies: Sized {
    /// The store held in the state.
    spec fn spec_jar(&self) -> CookieJar;

    /// The state with its store replaced and everything else kept.
    spec fn with_jar(self, jar: CookieJar) -> Self;

    /// Read-only access to the request's cookie store.
    fn cookies(&self) -> (r: &CookieJar)
        ensures
            *r == self.spec_jar(),
    ;

    /// Mutable access to the request's cookie store.
    fn cookies_mut(&mut self) -> (r: &mut CookieJar)
        ensures
            *r == old(self).spec_jar(),
            *final(self) == old(self).with_jar(*final(r)),
    ;
}

impl RequestCookies for RequestContext {
    open spec fn spec_jar(&self) -> CookieJar {
        self.jar
    }

    open spec fn with_jar(self, jar: CookieJar) -> Self {
        RequestContext { jar, session: self.session }
    }

    fn cookies(&self) -> (r: &CookieJar) {
        &self.jar
    }

    fn cookies_mut(&mut self) -> (r: &mut CookieJar) {
        &mut self.jar
    }
}

/// The outer middleware: fills a fresh cookie store from the request's
/// `Cookie` headers before the handler runs, and renders the store's
/// delta into `Set-Cookie` header lines after it.
pub struct Middleware {}

impl Middleware {
    pub fn new() -> (r: Middleware) {
        Middleware {}
    }

    /// Builds the per-request state: every header value is parsed and its
    /// pairs recorded as the request's original cookies, later pairs
    /// overriding earlier ones; the delta starts empty, and the session
    /// starts empty and clean.
    pub fn before(&self, headers: &Vec<String>) -> (ctx: RequestContext)
        ensures
            jar_map(ctx.jar) == headers_cookie_map(headers@.map_values(|h: String| h@)),
            jar_delta(ctx.jar) == no_cookies(),
            ctx.session.data@ == Seq::<(Seq<char>, Seq<char>)>::empty(),
            ctx.session.data.wf(),
            ctx.session.dirty == false,
    {
        let ghost hs = headers@.map_values(|h: String| h@);
        let mut jar = jar_new();
        let mut i: usize = 0;
        proof {
            assert(hs.take(0) =~= Seq::<Seq<char>>::empty());
        }
        while i < headers.len()
            invariant
                i <= headers@.len(),
                hs == headers@.map_values(|h: String| h@),
                jar_delta(jar) == no_cookies(),
                jar_map(jar) == headers_cookie_map(hs.take(i as int)),
            decreases headers@.len() - i,
        {
            let ghost before_hdr = hs.take(i as int);
            let pairs = parse_header(headers[i].as_str());
            let ghost ps = pairs_view(pairs@);
            let mut j: usize = 0;
            proof {
                assert(ps.take(0) =~= Seq::<(Seq<char>, Seq<char>)>::empty());
            }
            while j < pairs.len()
                invariant
                    j <= pairs@.len(),
                    ps == pairs_view(pairs@),
                    jar_delta(jar) == no_cookies(),
                    jar_map(jar) == insert_pairs(headers_cookie_map(before_hdr), ps.take(j as int)),
                decreases pairs@.len() - j,
            {
                let p = pairs[j].0.clone();
                let q = pairs[j].1.clone();
                proof {
                    assert(ps[j as int] == (pairs@[j as int].0@, pairs@[j as int].1@));
                }
                jar_add_original(&mut jar, p, q);
                proof {
                    let now = ps.take(j as int + 1);
                    assert(now.drop_last() =~= ps.take(j as int));
                    assert(now.last() == ps[j as int]);
                    lemma_insert_pairs_snoc(headers_cookie_map(before_hdr), now);
                }
                j = j + 1;
            }
            proof {
                assert(ps.take(pairs@.len() as int) =~= ps);
                let now = hs.take(i as int + 1);
                assert(now.drop_last() =~= before_hdr);
                assert(now.last() == hs[i as int]);
                assert(hs[i as int] == headers@[i as int]@);
                lemma_headers_map_snoc(no_cookies(), now);
            }
            i = i + 1;
        }
        proof {
            assert(hs.take(headers@.len() as int) =~= hs);
        }
        let session = Session::new_empty();
        RequestContext { jar, session }
    }

    /// One rendered `Set-Cookie` line per entry of the store's delta, in
    /// an unspecified order; a store with an empty delta yields none.
    pub fn after(&self, ctx: &RequestContext) -> (r: Vec<String>)
        ensures
            renders_delta(jar_delta(ctx.jar), r@),
            r@.len() == jar_delta(ctx.jar).dom().len(),
    {
        jar_delta_strings(&ctx.jar)
    }
}

} // verus!
