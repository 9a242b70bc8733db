//! Parsing of raw `Cookie:` header text into name/value pairs.
//!
//! A header value is split on `;`; each segment is split at its first `=`
//! into a name and a value, both trimmed of surrounding whitespace. A
//! segment without `=` yields no pair and is dropped silently.
use vstd::prelude::*;

verus! {

/// Characters stripped from both ends of a cookie name or value.
pub open spec fn is_cookie_space(c: char) -> bool {
    c == ' ' || c == '\t' || c == '\n' || c == '\r'
}

fn is_space(c: char) -> (b: bool)
    ensures
        b == is_cookie_space(c),
{
    c == ' ' || c == '\t' || c == '\n' || c == '\r'
}

/// Index of the first occurrence of `x` in `s`, or `s.len()` when `x` is
/// absent.
pub open spec fn first_idx<A>(s: Seq<A>, x: A) -> int
    decreases s.len(),
{
    if s.len() == 0 {
        0
    } else if s[0] == x {
        0
    } else {
        1 + first_idx(s.drop_first(), x)
    }
}

pub proof fn lemma_first_idx<A>(s: Seq<A>, x: A)
    ensures
        0 <= first_idx(s, x) <= s.len(),
        first_idx(s, x) < s.len() ==> s[first_idx(s, x)] == x,
        forall|j: int| 0 <= j < first_idx(s, x) ==> s[j] != x,
    decreases s.len(),
{
    if s.len() == 0 {
    } else if s[0] == x {
    } else {
        lemma_first_idx(s.drop_first(), x);
        assert forall|j: int| 0 <= j < first_idx(s, x) implies s[j] != x by {
            if j > 0 {
                assert(s[j] == s.drop_first()[j - 1]);
            }
        }
    }
}

/// `first_idx` is the unique index with nothing equal to `x` before it and
/// `x` at it (or the length, when `x` does not occur).
pub proof fn lemma_first_idx_is<A>(s: Seq<A>, x: A, i: int)
    requires
        0 <= i <= s.len(),
        forall|j: int| 0 <= j < i ==> s[j] != x,
        i < s.len() ==> s[i] == x,
    ensures
        first_idx(s, x) == i,
{
    lemma_first_idx(s, x);
    let f = first_idx(s, x);
    if f < i {
        assert(s[f] != x);
    } else if i < f {
        assert(s[i] != x);
    }
}

/// `s` without leading or trailing whitespace.
pub open spec fn spec_trim(s: Seq<char>) -> Seq<char>
    decreases s.len(),
{
    if s.len() > 0 && is_cookie_space(s[0]) {
        spec_trim(s.drop_first())
    } else if s.len() > 0 && is_cookie_space(s.last()) {
        spec_trim(s.drop_last())
    } else {
        s
    }
}

proof fn lemma_trim_all_space(s: Seq<char>)
    requires
        forall|j: int| 0 <= j < s.len() ==> is_cookie_space(s[j]),
    ensures
        spec_trim(s) == Seq::<char>::empty(),
    decreases s.len(),
{
    if s.len() == 0 {
        assert(s =~= Seq::<char>::empty());
    } else {
        assert forall|j: int| 0 <= j < s.drop_first().len() implies is_cookie_space(
            s.drop_first()[j],
        ) by {
            assert(s.drop_first()[j] == s[j + 1]);
        }
        lemma_trim_all_space(s.drop_first());
    }
}

/// When everything before `lo` and everything from `hi` on is whitespace,
/// and the ends of `[lo, hi)` are not, trimming keeps exactly `[lo, hi)`.
proof fn lemma_trim_range(s: Seq<char>, lo: int, hi: int)
    requires
        0 <= lo <= hi <= s.len(),
        forall|j: int| 0 <= j < lo ==> is_cookie_space(s[j]),
        forall|j: int| hi <= j < s.len() ==> is_cookie_space(s[j]),
        lo < hi ==> !is_cookie_space(s[lo]) && !is_cookie_space(s[hi - 1]),
    ensures
        spec_trim(s) == s.subrange(lo, hi),
    decreases s.len(),
{
    if lo == hi {
        lemma_trim_all_space(s);
        assert(s.subrange(lo, hi) =~= Seq::<char>::empty());
    } else if is_cookie_space(s[0]) {
        let t = s.drop_first();
        assert forall|j: int| 0 <= j < lo - 1 implies is_cookie_space(t[j]) by {
            assert(t[j] == s[j + 1]);
        }
        assert forall|j: int| hi - 1 <= j < t.len() implies is_cookie_space(t[j]) by {
            assert(t[j] == s[j + 1]);
        }
        lemma_trim_range(t, lo - 1, hi - 1);
        assert(t.subrange(lo - 1, hi - 1) =~= s.subrange(lo, hi));
    } else if is_cookie_space(s.last()) {
        let t = s.drop_last();
        lemma_trim_range(t, lo, hi);
        assert(t.subrange(lo, hi) =~= s.subrange(lo, hi));
    } else {
        assert(lo == 0);
        assert(hi == s.len());
        assert(s.subrange(0, s.len() as int) =~= s);
    }
}

/// Splits one `name=value` cookie segment at its first `=`; both sides are
/// trimmed of surrounding whitespace. A segment without `=` is no pair.
pub open spec fn spec_parse_pair(s: Seq<char>) -> Option<(Seq<char>, Seq<char>)> {
    let i = first_idx(s, '=');
    if i < s.len() {
        Some((spec_trim(s.subrange(0, i)), spec_trim(s.subrange(i + 1, s.len() as int))))
    } else {
        None
    }
}

/// First index `i >= from` with `s@[i] == c`, or the length of `s` when `c`
/// does not occur at or after `from`.
fn find_char(s: &str, c: char, from: usize) -> (i: usize)
    requires
        from <= s@.len(),
    ensures
        from <= i <= s@.len(),
        forall|j: int| from <= j < i ==> s@[j] != c,
        i < s@.len() ==> s@[i as int] == c,
{
    let n = s.unicode_len();
    let mut i = from;
    while i < n && s.get_char(i) != c
        invariant
            from <= i <= n,
            n == s@.len(),
            forall|j: int| from <= j < i ==> s@[j] != c,
        decreases n - i,
    {
        i = i + 1;
    }
    i
}

/// A copy of `s` with surrounding whitespace removed.
fn trim_str(s: &str) -> (r: String)
    ensures
        r@ == spec_trim(s@),
{
    let n = s.unicode_len();
    let mut lo: usize = 0;
    while lo < n && is_space(s.get_char(lo))
        invariant
            0 <= lo <= n,
            n == s@.len(),
            forall|j: int| 0 <= j < lo ==> is_cookie_space(s@[j]),
        decreases n - lo,
    {
        lo = lo + 1;
    }
    let mut hi: usize = n;
    while hi > lo && is_space(s.get_char(hi - 1))
        invariant
            lo <= hi <= n,
            n == s@.len(),
            forall|j: int| hi <= j < n ==> is_cookie_space(s@[j]),
        decreases hi,
    {
        hi = hi - 1;
    }
    let r = String::from_str(s.substring_char(lo, hi));
    proof {
        lemma_trim_range(s@, lo as int, hi as int);
    }
    r
}

/// The pair sequence a parse option contributes: one pair, or none.
pub open spec fn pair_seq(o: Option<(Seq<char>, Seq<char>)>) -> Seq<(Seq<char>, Seq<char>)> {
    match o {
        Some(p) => seq![p],
        None => Seq::empty(),
    }
}

/// All pairs of one raw `Cookie:` header value: the text is split on `;`
/// and each segment is parsed as `spec_parse_pair`, keeping order and
/// dropping segments without `=`.
pub open spec fn spec_parse_header(s: Seq<char>) -> Seq<(Seq<char>, Seq<char>)>
    decreases s.len(),
    via spec_parse_header_decreases
{
    let i = first_idx(s, ';');
    if i < s.len() {
        pair_seq(spec_parse_pair(s.subrange(0, i))) + spec_parse_header(
            s.subrange(i + 1, s.len() as int),
        )
    } else {
        pair_seq(spec_parse_pair(s))
    }
}

#[via_fn]
proof fn spec_parse_header_decreases(s: Seq<char>) {
    lemma_first_idx(s, ';');
}

/// The views of a vector of string pairs.
pub open spec fn pairs_view(v: Seq<(String, String)>) -> Seq<(Seq<char>, Seq<char>)> {
    v.map_values(|p: (String, String)| (p.0@, p.1@))
}

/// Splits `key_value` at its first `=` into a trimmed name and a trimmed
/// value; yields `None` when there is no `=`.
pub fn parse_pair(key_value: &str) -> (r: Option<(String, String)>)
    ensures
        match r {
            Some(p) => spec_parse_pair(key_value@) == Some((p.0@, p.1@)),
            None => spec_parse_pair(key_value@) is None,
        },
{
    let n = key_value.unicode_len();
    let i = find_char(key_value, '=', 0);
    proof {
        lemma_first_idx_is(key_value@, '=', i as int);
    }
    if i == n {
        None
    } else {
        let name = trim_str(key_value.substring_char(0, i));
        let value = trim_str(key_value.substring_char(i + 1, n));
        Some((name, value))
    }
}

/// All pairs of one raw `Cookie:` header value, in order.
pub fn parse_header(header: &str) -> (r: Vec<(String, String)>)
    ensures
        pairs_view(r@) == spec_parse_header(header@),
{
    let n = header.unicode_len();
    let mut r: Vec<(String, String)> = Vec::new();
    let mut pos: usize = 0;
    proof {
        assert(header@.subrange(0, n as int) =~= header@);
        assert(pairs_view(r@) =~= Seq::empty());
    }
    loop
        invariant_except_break
            pos <= n,
            n == header@.len(),
            pairs_view(r@) + spec_parse_header(header@.subrange(pos as int, n as int))
                == spec_parse_header(header@),
        ensures
            pairs_view(r@) == spec_parse_header(header@),
        decreases n - pos,
    {
        let ghost prev = pairs_view(r@);
        let ghost rem = header@.subrange(pos as int, n as int);
        let j = find_char(header, ';', pos);
        proof {
            assert forall|k: int| 0 <= k < j - pos implies rem[k] != ';' by {
                assert(rem[k] == header@[pos + k]);
            }
            lemma_first_idx_is(rem, ';', j - pos);
        }
        let seg = header.substring_char(pos, j);
        proof {
            assert(seg@ =~= rem.subrange(0, j - pos));
        }
        match parse_pair(seg) {
            Some(p) => {
                let ghost pv = (p.0@, p.1@);
                r.push(p);
                proof {
                    assert(pairs_view(r@) =~= prev + seq![pv]);
                }
            },
            None => {},
        }
        if j == n {
            break ;
        }
        proof {
            assert(rem.subrange(j - pos + 1, rem.len() as int) =~= header@.subrange(
                j + 1,
                n as int,
            ));
        }
        pos = j + 1;
    }
    r
}

/// Parsing is deterministic: one header text determines one pair sequence,
/// so parsing the same text twice yields identical results.
pub proof fn lemma_parse_header_deterministic(
    h: Seq<char>,
    r1: Seq<(Seq<char>, Seq<char>)>,
    r2: Seq<(Seq<char>, Seq<char>)>,
)
    requires
        r1 == spec_parse_header(h),
        r2 == spec_parse_header(h),
    ensures
        r1 == r2,
{
}

} // verus!
