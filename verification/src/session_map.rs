//! The session's string-to-string map.
//!
//! Entries are kept as an association list with distinct keys, so the
//! enumeration order is deterministic for a fixed map instance: existing
//! keys are updated in place and new keys are appended.
use vstd::prelude::*;
use vstd::pervasive::VecAdditionalExecFns;
use vstd::utf8::encode_utf8_decode_utf8;
use crate::parse::pairs_view;

verus! {

/// True when no key occurs twice.
pub open spec fn distinct_keys(s: Seq<(Seq<char>, Seq<char>)>) -> bool {
    forall|i: int, j: int| 0 <= i < j < s.len() ==> s[i].0 != s[j].0
}

/// The value of the first entry with key `k`, if any.
pub open spec fn spec_get(s: Seq<(Seq<char>, Seq<char>)>, k: Seq<char>) -> Option<Seq<char>>
    decreases s.len(),
{
    if s.len() == 0 {
        None
    } else if s[0].0 == k {
        Some(s[0].1)
    } else {
        spec_get(s.drop_first(), k)
    }
}

/// Replaces the first entry with key `k`, or appends a new one.
pub open spec fn spec_upsert(s: Seq<(Seq<char>, Seq<char>)>, k: Seq<char>, v: Seq<char>) -> Seq<
    (Seq<char>, Seq<char>),
>
    decreases s.len(),
{
    if s.len() == 0 {
        seq![(k, v)]
    } else if s[0].0 == k {
        seq![(k, v)] + s.drop_first()
    } else {
        seq![s[0]] + spec_upsert(s.drop_first(), k, v)
    }
}

pub proof fn lemma_get_found(s: Seq<(Seq<char>, Seq<char>)>, k: Seq<char>, i: int)
    requires
        0 <= i < s.len(),
        s[i].0 == k,
        forall|j: int| 0 <= j < i ==> s[j].0 != k,
    ensures
        spec_get(s, k) == Some(s[i].1),
    decreases s.len(),
{
    if i > 0 {
        assert forall|j: int| 0 <= j < i - 1 implies s.drop_first()[j].0 != k by {
            assert(s.drop_first()[j] == s[j + 1]);
        }
        assert(s.drop_first()[i - 1] == s[i]);
        lemma_get_found(s.drop_first(), k, i - 1);
    }
}

pub proof fn lemma_get_absent(s: Seq<(Seq<char>, Seq<char>)>, k: Seq<char>)
    requires
        forall|j: int| 0 <= j < s.len() ==> s[j].0 != k,
    ensures
        spec_get(s, k) is None,
    decreases s.len(),
{
    if s.len() > 0 {
        assert forall|j: int| 0 <= j < s.drop_first().len() implies s.drop_first()[j].0 != k by {
            assert(s.drop_first()[j] == s[j + 1]);
        }
        lemma_get_absent(s.drop_first(), k);
    }
}

pub proof fn lemma_upsert_found(s: Seq<(Seq<char>, Seq<char>)>, k: Seq<char>, v: Seq<char>, i: int)
    requires
        0 <= i < s.len(),
        s[i].0 == k,
        forall|j: int| 0 <= j < i ==> s[j].0 != k,
    ensures
        spec_upsert(s, k, v) == s.update(i, (k, v)),
    decreases s.len(),
{
    if i == 0 {
        assert(seq![(k, v)] + s.drop_first() =~= s.update(0, (k, v)));
    } else {
        assert forall|j: int| 0 <= j < i - 1 implies s.drop_first()[j].0 != k by {
            assert(s.drop_first()[j] == s[j + 1]);
        }
        assert(s.drop_first()[i - 1] == s[i]);
        lemma_upsert_found(s.drop_first(), k, v, i - 1);
        assert(seq![s[0]] + s.drop_first().update(i - 1, (k, v)) =~= s.update(i, (k, v)));
    }
}

pub proof fn lemma_upsert_absent(s: Seq<(Seq<char>, Seq<char>)>, k: Seq<char>, v: Seq<char>)
    requires
        forall|j: int| 0 <= j < s.len() ==> s[j].0 != k,
    ensures
        spec_upsert(s, k, v) == s.push((k, v)),
    decreases s.len(),
{
    if s.len() == 0 {
        assert(seq![(k, v)] =~= s.push((k, v)));
    } else {
        assert forall|j: int| 0 <= j < s.drop_first().len() implies s.drop_first()[j].0 != k by {
            assert(s.drop_first()[j] == s[j + 1]);
        }
        lemma_upsert_absent(s.drop_first(), k, v);
        assert(seq![s[0]] + s.drop_first().push((k, v)) =~= s.push((k, v)));
    }
}

/// True exactly when the two string slices hold the same text.
fn str_eq(a: &str, b: &str) -> (r: bool)
    ensures
        r == (a@ == b@),
{
    let av = a.as_bytes_vec();
    let bv = b.as_bytes_vec();
    proof {
        encode_utf8_decode_utf8(a@);
        encode_utf8_decode_utf8(b@);
    }
    if av.len() != bv.len() {
        return false;
    }
    let mut i: usize = 0;
    while i < av.len()
        invariant
            i <= av.len(),
            av.len() == bv.len(),
            av@ == vstd::utf8::encode_utf8(a@),
            bv@ == vstd::utf8::encode_utf8(b@),
            forall|j: int| 0 <= j < i ==> av@[j] == bv@[j],
        decreases av.len() - i,
    {
        if av[i] != bv[i] {
            return false;
        }
        i = i + 1;
    }
    proof {
        assert(av@ =~= bv@);
    }
    true
}

/// A string-to-string map with a deterministic enumeration order.
pub struct SessionMap {
    entries: Vec<(String, String)>,
}

impl View for SessionMap {
    type V = Seq<(Seq<char>, Seq<char>)>;

    closed spec fn view(&self) -> Seq<(Seq<char>, Seq<char>)> {
        pairs_view(self.entries@)
    }
}

impl SessionMap {
    /// No key occurs twice.
    pub open spec fn wf(&self) -> bool {
        distinct_keys(self@)
    }

    pub fn new() -> (r: SessionMap)
        ensures
            r@ == Seq::<(Seq<char>, Seq<char>)>::empty(),
            r.wf(),
    {
        let r = SessionMap { entries: Vec::new() };
        proof {
            assert(r@ =~= Seq::<(Seq<char>, Seq<char>)>::empty());
        }
        r
    }

    pub fn len(&self) -> (n: usize)
        ensures
            n == self@.len(),
    {
        self.entries.len()
    }

    pub fn is_empty(&self) -> (b: bool)
        ensures
            b == (self@.len() == 0),
    {
        self.entries.len() == 0
    }

    /// The entry at position `i` in enumeration order.
    pub fn pair_at(&self, i: usize) -> (p: (String, String))
        requires
            i < self@.len(),
        ensures
            (p.0@, p.1@) == self@[i as int],
    {
        let e = &self.entries[i];
        (e.0.clone(), e.1.clone())
    }

    /// The value stored under `k`, if any.
    pub fn get(&self, k: &str) -> (r: Option<String>)
        ensures
            match r {
                Some(v) => spec_get(self@, k@) == Some(v@),
                None => spec_get(self@, k@) is None,
            },
    {
        let mut i: usize = 0;
        while i < self.entries.len()
            invariant
                i <= self.entries.len(),
                self@ == pairs_view(self.entries@),
                forall|j: int| 0 <= j < i ==> self@[j].0 != k@,
            decreases self.entries.len() - i,
        {
            if str_eq(self.entries[i].0.as_str(), k) {
                proof {
                    lemma_get_found(self@, k@, i as int);
                }
                return Some(self.entries[i].1.clone());
            }
            i = i + 1;
        }
        proof {
            lemma_get_absent(self@, k@);
        }
        None
    }

    /// Stores `v` under `k`, replacing the first entry with that key in
    /// place or appending a new one, and returns the value previously
    /// stored under `k`.
    pub fn insert(&mut self, k: String, v: String) -> (prev: Option<String>)
        ensures
            final(self)@ == spec_upsert(old(self)@, k@, v@),
            old(self).wf() ==> final(self).wf(),
            match prev {
                Some(x) => spec_get(old(self)@, k@) == Some(x@),
                None => spec_get(old(self)@, k@) is None,
            },
    {
        let ghost orig = self@;
        let mut i: usize = 0;
        while i < self.entries.len()
            invariant
                i <= self.entries.len(),
                self@ == orig,
                orig == old(self)@,
                self@ == pairs_view(self.entries@),
                forall|j: int| 0 <= j < i ==> self@[j].0 != k@,
            decreases self.entries.len() - i,
        {
            proof {
                assert(self@[i as int] == (self.entries@[i as int].0@, self.entries@[i as int].1@));
            }
            if str_eq(self.entries[i].0.as_str(), k.as_str()) {
                let prev = self.entries[i].1.clone();
                let ghost kv = k@;
                let ghost vv = v@;
                self.entries.set(i, (k, v));
                proof {
                    lemma_get_found(orig, kv, i as int);
                    lemma_upsert_found(orig, kv, vv, i as int);
                    assert(self@ =~= orig.update(i as int, (kv, vv)));
                    if distinct_keys(orig) {
                        assert forall|a: int, b: int|
                            0 <= a < b < self@.len() implies self@[a].0 != self@[b].0 by {
                            if a != i && b != i {
                                assert(self@[a] == orig[a] && self@[b] == orig[b]);
                            }
                        }
                    }
                }
                return Some(prev);
            }
            i = i + 1;
        }
        proof {
            lemma_get_absent(orig, k@);
            lemma_upsert_absent(orig, k@, v@);
        }
        let ghost kv = k@;
        let ghost vv = v@;
        self.entries.push((k, v));
        proof {
            assert(self@ =~= orig.push((kv, vv)));
            if distinct_keys(orig) {
                assert forall|a: int, b: int|
                    0 <= a < b < self@.len() implies self@[a].0 != self@[b].0 by {
                    if b < self@.len() - 1 {
                        assert(self@[a] == orig[a] && self@[b] == orig[b]);
                    } else {
                        assert(self@[b] == (kv, vv));
                        assert(self@[a] == orig[a]);
                    }
                }
            }
        }
        None
    }
}

} // verus!
