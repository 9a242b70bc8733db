//! The session codec: a pure encoding between the session map and a single
//! cookie-safe text value.
//!
//! Each key/value pair is joined with the reserved byte `0xFF` (which never
//! occurs in UTF-8 text), pairs are separated by another `0xFF`, the buffer
//! is padded with `0xFF` to a multiple of three bytes, and the result is
//! base64-encoded, which then needs no `=` padding. Decoding is total: any
//! input yields a map, possibly empty.
use vstd::prelude::*;
use vstd::slice::{slice_subrange, slice_to_vec};
use vstd::utf8::*;
use crate::parse::{first_idx, lemma_first_idx_is};
use crate::session_map::{SessionMap, distinct_keys, spec_upsert, lemma_upsert_absent};

verus! {

/// Wire bytes of one key/value pair: key, reserved byte, value.
pub open spec fn pair_block(k: Seq<char>, v: Seq<char>) -> Seq<u8> {
    encode_utf8(k) + seq![0xFFu8] + encode_utf8(v)
}

/// Wire bytes of all pairs, separated by the reserved byte.
pub open spec fn payload(s: Seq<(Seq<char>, Seq<char>)>) -> Seq<u8>
    decreases s.len(),
{
    if s.len() == 0 {
        Seq::empty()
    } else if s.len() == 1 {
        pair_block(s[0].0, s[0].1)
    } else {
        pair_block(s[0].0, s[0].1) + seq![0xFFu8] + payload(s.drop_first())
    }
}

/// How many reserved pad bytes bring `n` bytes to a multiple of three, so
/// that base64 emits no `=` characters.
pub open spec fn pad_len(n: int) -> int {
    if n % 3 == 0 {
        0
    } else {
        3 - n % 3
    }
}

/// The payload padded with reserved bytes.
pub open spec fn padded(b: Seq<u8>) -> Seq<u8> {
    b + Seq::new(pad_len(b.len() as int) as nat, |i: int| 0xFFu8)
}

/// What `base64::encode` returns for the given bytes.
pub uninterp spec fn b64_of(b: Seq<u8>) -> Seq<char>;

/// What `base64::decode` returns for the given text.
pub uninterp spec fn b64_dec(s: Seq<char>) -> Option<Seq<u8>>;

/// Relies on base64::encode (standard alphabet, padded): the result is a
/// function of the bytes alone, base64::decode inverts it, and an input
/// length that is a multiple of three needs no `=` padding characters.
#[verifier::external_body]
fn b64_encode(b: &Vec<u8>) -> (r: String)
    ensures
        r@ == b64_of(b@),
        b64_dec(r@) == Some(b@),
        b@.len() % 3 == 0 ==> forall|i: int| 0 <= i < r@.len() ==> r@[i] != '=',
{
    base64::encode(&b[..])
}

/// Relies on base64::decode: returns the decoded bytes exactly when the
/// input is valid base64, and an error otherwise.
#[verifier::external_body]
fn b64_decode(s: &str) -> (r: Option<Vec<u8>>)
    ensures
        match r {
            Some(v) => b64_dec(s@) == Some(v@),
            None => b64_dec(s@) is None,
        },
{
    base64::decode(s).ok()
}

/// Relies on String::from_utf8, which succeeds exactly on valid UTF-8 and
/// decodes it.
#[verifier::external_body]
fn bytes_to_string(b: Vec<u8>) -> (r: Option<String>)
    ensures
        match r {
            Some(s) => valid_utf8(b@) && s@ == decode_utf8(b@),
            None => !valid_utf8(b@),
        },
{
    String::from_utf8(b).ok()
}

/// The encoded wire text of a session map.
pub open spec fn spec_encode(s: Seq<(Seq<char>, Seq<char>)>) -> Seq<char> {
    b64_of(padded(payload(s)))
}

/// Splits `b` on the reserved byte; `n` separators yield `n + 1` segments.
pub open spec fn split_ff(b: Seq<u8>) -> Seq<Seq<u8>>
    decreases b.len(),
    via split_ff_decreases
{
    let i = first_idx(b, 0xFFu8);
    if i < b.len() {
        seq![b.subrange(0, i)] + split_ff(b.subrange(i + 1, b.len() as int))
    } else {
        seq![b]
    }
}

#[via_fn]
proof fn split_ff_decreases(b: Seq<u8>) {
    crate::parse::lemma_first_idx(b, 0xFFu8);
}

/// Key/value pairs read from the segments, two at a time: an empty key
/// segment or a missing value segment ends the data, and a segment that is
/// not UTF-8 drops its pair silently.
pub open spec fn pairs_of(segs: Seq<Seq<u8>>) -> Seq<(Seq<char>, Seq<char>)>
    decreases segs.len(),
{
    if segs.len() < 2 || segs[0].len() == 0 {
        Seq::empty()
    } else {
        let rest = pairs_of(segs.skip(2));
        if valid_utf8(segs[0]) && valid_utf8(segs[1]) {
            seq![(decode_utf8(segs[0]), decode_utf8(segs[1]))] + rest
        } else {
            rest
        }
    }
}

/// Last-write-wins insertion of each pair, in order.
pub open spec fn fold_upsert(
    acc: Seq<(Seq<char>, Seq<char>)>,
    ps: Seq<(Seq<char>, Seq<char>)>,
) -> Seq<(Seq<char>, Seq<char>)>
    decreases ps.len(),
{
    if ps.len() == 0 {
        acc
    } else {
        fold_upsert(spec_upsert(acc, ps[0].0, ps[0].1), ps.drop_first())
    }
}

/// The map decoded from wire text; text that is not base64 counts as no
/// bytes at all.
pub open spec fn spec_decode(s: Seq<char>) -> Seq<(Seq<char>, Seq<char>)> {
    let bytes = match b64_dec(s) {
        Some(b) => b,
        None => Seq::empty(),
    };
    fold_upsert(Seq::empty(), pairs_of(split_ff(bytes)))
}

/// Appending one pair extends the payload by a separator and its block.
proof fn lemma_payload_snoc(s: Seq<(Seq<char>, Seq<char>)>)
    requires
        s.len() > 0,
    ensures
        s.len() == 1 ==> payload(s) == pair_block(s[0].0, s[0].1),
        s.len() > 1 ==> payload(s) == payload(s.drop_last()) + seq![0xFFu8] + pair_block(
            s.last().0,
            s.last().1,
        ),
    decreases s.len(),
{
    if s.len() > 1 {
        lemma_payload_snoc(s.drop_first());
        assert(s.drop_first().drop_last() =~= s.drop_last().drop_first());
        assert(s.drop_first().last() == s.last());
        if s.len() == 2 {
            assert(s.drop_last() =~= seq![s[0]]);
            assert(payload(s.drop_last()) == pair_block(s[0].0, s[0].1));
            assert(payload(s) == pair_block(s[0].0, s[0].1) + seq![0xFFu8] + pair_block(
                s.last().0,
                s.last().1,
            ));
        } else {
            assert(payload(s) == pair_block(s[0].0, s[0].1) + seq![0xFFu8] + (payload(
                s.drop_last().drop_first(),
            ) + seq![0xFFu8] + pair_block(s.last().0, s.last().1)));
            assert(payload(s.drop_last()) == pair_block(s.drop_last()[0].0, s.drop_last()[0].1)
                + seq![0xFFu8] + payload(s.drop_last().drop_first()));
            assert(s.drop_last()[0] == s[0]);
            assert(payload(s) =~= payload(s.drop_last()) + seq![0xFFu8] + pair_block(
                s.last().0,
                s.last().1,
            ));
        }
    }
}

/// Encodes the session map as base64 text that never ends in `=`.
pub fn encode(h: &SessionMap) -> (r: String)
    ensures
        r@ == spec_encode(h@),
        b64_dec(r@) == Some(padded(payload(h@))),
        forall|i: int| 0 <= i < r@.len() ==> r@[i] != '=',
{
    let n = h.len();
    let mut buf: Vec<u8> = Vec::new();
    let mut idx: usize = 0;
    proof {
        assert(h@.take(0) =~= Seq::<(Seq<char>, Seq<char>)>::empty());
        assert(buf@ =~= payload(h@.take(0)));
    }
    while idx < n
        invariant
            idx <= n,
            n == h@.len(),
            buf@ == payload(h@.take(idx as int)),
        decreases n - idx,
    {
        let ghost before = h@.take(idx as int);
        let p = h.pair_at(idx);
        if idx != 0 {
            buf.push(0xFF);
        }
        let mut kb = p.0.as_str().as_bytes_vec();
        buf.append(&mut kb);
        buf.push(0xFF);
        let mut vb = p.1.as_str().as_bytes_vec();
        buf.append(&mut vb);
        proof {
            let now = h@.take(idx as int + 1);
            assert(now.drop_last() =~= before);
            assert(now.last() == h@[idx as int]);
            lemma_payload_snoc(now);
            if idx == 0 {
                assert(now =~= seq![h@[0]]);
                assert(buf@ =~= pair_block(h@[0].0, h@[0].1));
            } else {
                assert(buf@ =~= payload(before) + seq![0xFFu8] + pair_block(
                    h@[idx as int].0,
                    h@[idx as int].1,
                ));
            }
        }
        idx = idx + 1;
    }
    proof {
        assert(h@.take(n as int) =~= h@);
    }
    let ghost plen = payload(h@).len() as int;
    while buf.len() % 3 != 0
        invariant
            payload(h@).len() <= buf@.len() <= payload(h@).len() + pad_len(plen),
            plen == payload(h@).len() as int,
            buf@ == payload(h@) + Seq::new((buf@.len() - plen) as nat, |i: int| 0xFFu8),
        decreases plen + pad_len(plen) - buf@.len(),
    {
        proof {
            assert(buf@.len() < plen + pad_len(plen));
        }
        buf.push(0xFF);
        proof {
            assert(buf@ =~= payload(h@) + Seq::new((buf@.len() - plen) as nat, |i: int| 0xFFu8));
        }
    }
    proof {
        assert(buf@.len() == plen + pad_len(plen));
        assert(buf@ =~= padded(payload(h@)));
    }
    b64_encode(&buf)
}

/// First index `i >= from` with the reserved byte at it, or the length of
/// `b` when there is none at or after `from`.
fn find_ff(b: &Vec<u8>, from: usize) -> (i: usize)
    requires
        from <= b@.len(),
    ensures
        from <= i <= b@.len(),
        forall|j: int| from <= j < i ==> b@[j] != 0xFF,
        i < b@.len() ==> b@[i as int] == 0xFF,
    decreases b@.len() - from,
{
    let mut i = from;
    while i < b.len() && b[i] != 0xFF
        invariant
            from <= i <= b@.len(),
            forall|j: int| from <= j < i ==> b@[j] != 0xFF,
        decreases b@.len() - i,
    {
        i = i + 1;
    }
    i
}

/// A run without the reserved byte makes one whole segment.
proof fn lemma_split_whole(b: Seq<u8>)
    requires
        forall|j: int| 0 <= j < b.len() ==> b[j] != 0xFF,
    ensures
        split_ff(b) == seq![b],
{
    lemma_first_idx_is(b, 0xFFu8, b.len() as int);
}

/// Splitting peels the first segment off at the first reserved byte.
proof fn lemma_split_peel(b: Seq<u8>, i: int)
    requires
        0 <= i < b.len(),
        b[i] == 0xFF,
        forall|j: int| 0 <= j < i ==> b[j] != 0xFF,
    ensures
        split_ff(b) == seq![b.subrange(0, i)] + split_ff(b.subrange(i + 1, b.len() as int)),
{
    lemma_first_idx_is(b, 0xFFu8, i);
}

/// Decodes wire text into a session map; never fails, whatever the input.
pub fn decode(value: &str) -> (r: SessionMap)
    ensures
        r@ == spec_decode(value@),
        r.wf(),
{
    let bytes: Vec<u8> = match b64_decode(value) {
        Some(b) => b,
        None => Vec::new(),
    };
    proof {
        match b64_dec(value@) {
            Some(b) => assert(bytes@ == b),
            None => assert(bytes@ =~= Seq::<u8>::empty()),
        }
    }
    let ghost goal = spec_decode(value@);
    let mut m = SessionMap::new();
    let n = bytes.len();
    let mut pos: usize = 0;
    proof {
        assert(bytes@.subrange(0, n as int) =~= bytes@);
    }
    loop
        invariant_except_break
            pos <= n,
            n == bytes@.len(),
            m.wf(),
            goal == spec_decode(value@),
            fold_upsert(m@, pairs_of(split_ff(bytes@.subrange(pos as int, n as int)))) == goal,
        ensures
            m@ == goal,
            m.wf(),
        decreases n - pos,
    {
        let ghost rem = bytes@.subrange(pos as int, n as int);
        let e1 = find_ff(&bytes, pos);
        proof {
            assert forall|j: int| 0 <= j < e1 - pos implies rem[j] != 0xFF by {
                assert(rem[j] == bytes@[pos + j]);
            }
        }
        if e1 == n {
            // no separator left: no value segment can follow, data ends
            proof {
                lemma_split_whole(rem);
                assert(pairs_of(split_ff(rem)) == Seq::<(Seq<char>, Seq<char>)>::empty());
            }
            break ;
        }
        proof {
            assert(rem[e1 - pos] == bytes@[e1 as int]);
            lemma_split_peel(rem, e1 - pos);
            assert(rem.subrange(0, e1 - pos) =~= bytes@.subrange(pos as int, e1 as int));
            assert(rem.subrange(e1 - pos + 1, rem.len() as int) =~= bytes@.subrange(
                e1 + 1,
                n as int,
            ));
        }
        if e1 == pos {
            // an empty key segment marks the end of the data
            proof {
                let segs = split_ff(rem);
                assert(segs[0] =~= Seq::<u8>::empty());
                assert(pairs_of(segs) == Seq::<(Seq<char>, Seq<char>)>::empty());
            }
            break ;
        }
        let e2 = find_ff(&bytes, e1 + 1);
        let ghost rem2 = bytes@.subrange(e1 + 1, n as int);
        proof {
            assert forall|j: int| 0 <= j < e2 - (e1 + 1) implies rem2[j] != 0xFF by {
                assert(rem2[j] == bytes@[e1 + 1 + j]);
            }
            if e2 < n {
                assert(rem2[e2 - (e1 + 1)] == bytes@[e2 as int]);
                lemma_split_peel(rem2, e2 - (e1 + 1));
                assert(rem2.subrange(0, e2 - (e1 + 1)) =~= bytes@.subrange(e1 + 1, e2 as int));
                assert(rem2.subrange(e2 - (e1 + 1) + 1, rem2.len() as int) =~= bytes@.subrange(
                    e2 + 1,
                    n as int,
                ));
            } else {
                lemma_split_whole(rem2);
            }
        }
        let kb = slice_to_vec(slice_subrange(bytes.as_slice(), pos, e1));
        let vb = slice_to_vec(slice_subrange(bytes.as_slice(), e1 + 1, e2));
        let ghost kseg = bytes@.subrange(pos as int, e1 as int);
        let ghost vseg = bytes@.subrange(e1 + 1, e2 as int);
        let ghost segs = split_ff(rem);
        proof {
            assert(segs == seq![kseg] + split_ff(rem2));
            if e2 < n {
                assert(split_ff(rem2) == seq![vseg] + split_ff(bytes@.subrange(e2 + 1, n as int)));
                assert(segs.skip(2) =~= split_ff(bytes@.subrange(e2 + 1, n as int)));
            } else {
                assert(vseg =~= rem2);
                assert(split_ff(rem2) == seq![vseg]);
                assert(segs.skip(2) =~= Seq::<Seq<u8>>::empty());
                assert(pairs_of(segs.skip(2)) == Seq::<(Seq<char>, Seq<char>)>::empty());
            }
            assert(segs[0] == kseg);
            assert(segs[1] == vseg);
            assert(segs.len() >= 2);
            assert(kseg.len() > 0);
        }
        match (bytes_to_string(kb), bytes_to_string(vb)) {
            (Some(k), Some(v)) => {
                let ghost mprev = m@;
                let _ = m.insert(k, v);
                proof {
                    assert(pairs_of(segs) == seq![(decode_utf8(kseg), decode_utf8(vseg))]
                        + pairs_of(segs.skip(2)));
                    let ps = pairs_of(segs);
                    assert(ps.drop_first() =~= pairs_of(segs.skip(2)));
                    assert(fold_upsert(mprev, ps) == fold_upsert(
                        spec_upsert(mprev, decode_utf8(kseg), decode_utf8(vseg)),
                        pairs_of(segs.skip(2)),
                    ));
                }
            },
            _ => {
                proof {
                    assert(!(valid_utf8(kseg) && valid_utf8(vseg)));
                    assert(pairs_of(segs) == pairs_of(segs.skip(2)));
                }
            },
        }
        if e2 == n {
            proof {
                assert(fold_upsert(m@, pairs_of(segs.skip(2))) == goal);
            }
            break ;
        }
        pos = e2 + 1;
    }
    m
}

/// No byte of a UTF-8 encoding is the reserved byte `0xFF`.
proof fn lemma_scalar_no_ff(u: u32)
    ensures
        forall|j: int| 0 <= j < encode_scalar(u).len() ==> encode_scalar(u)[j] != 0xFF,
{
    assert((u & 0x7F) as u8 != 0xFF) by (bit_vector);
    assert(0xC0 | ((u >> 6) & 0x1F) as u8 != 0xFF) by (bit_vector);
    assert(0xE0 | ((u >> 12) & 0x0F) as u8 != 0xFF) by (bit_vector);
    assert(0xF0 | ((u >> 18) & 0x7) as u8 != 0xFF) by (bit_vector);
    assert(0x80 | (u & 0x3F) as u8 != 0xFF) by (bit_vector);
    assert(0x80 | ((u >> 6) & 0x3F) as u8 != 0xFF) by (bit_vector);
    assert(0x80 | ((u >> 12) & 0x3F) as u8 != 0xFF) by (bit_vector);
}

proof fn lemma_utf8_no_ff(cs: Seq<char>)
    ensures
        forall|j: int| 0 <= j < encode_utf8(cs).len() ==> encode_utf8(cs)[j] != 0xFF,
    decreases cs.len(),
{
    if cs.len() > 0 {
        lemma_scalar_no_ff(cs[0] as u32);
        lemma_utf8_no_ff(cs.drop_first());
        let hb = encode_scalar(cs[0] as u32);
        let rb = encode_utf8(cs.drop_first());
        assert(encode_utf8(cs) == hb + rb);
        assert forall|j: int| 0 <= j < encode_utf8(cs).len() implies encode_utf8(cs)[j] != 0xFF by {
            if j < hb.len() {
                assert(encode_utf8(cs)[j] == hb[j]);
            } else {
                assert(encode_utf8(cs)[j] == rb[j - hb.len()]);
            }
        }
    }
}

/// The UTF-8 encoding of a non-empty text is non-empty.
proof fn lemma_utf8_nonempty(cs: Seq<char>)
    requires
        cs.len() > 0,
    ensures
        encode_utf8(cs).len() > 0,
{
    assert(encode_scalar(cs[0] as u32).len() >= 1);
}

/// Splitting peels a separator-free prefix off at the separator after it.
proof fn lemma_split_concat(a: Seq<u8>, rest: Seq<u8>)
    requires
        forall|j: int| 0 <= j < a.len() ==> a[j] != 0xFF,
    ensures
        split_ff(a + seq![0xFFu8] + rest) == seq![a] + split_ff(rest),
{
    let b = a + seq![0xFFu8] + rest;
    assert forall|j: int| 0 <= j < a.len() implies b[j] != 0xFF by {
        assert(b[j] == a[j]);
    }
    assert(b[a.len() as int] == 0xFF);
    lemma_split_peel(b, a.len() as int);
    assert(b.subrange(0, a.len() as int) =~= a);
    assert(b.subrange(a.len() as int + 1, b.len() as int) =~= rest);
}

/// A run of padding alone decodes to nothing.
proof fn lemma_pad_only(m: nat)
    ensures
        pairs_of(split_ff(Seq::new(m, |i: int| 0xFFu8))) == Seq::<(Seq<char>, Seq<char>)>::empty(),
{
    let run = Seq::new(m, |i: int| 0xFFu8);
    if m == 0 {
        lemma_split_whole(run);
    } else {
        let rest = Seq::new((m - 1) as nat, |i: int| 0xFFu8);
        assert(run =~= Seq::<u8>::empty() + seq![0xFFu8] + rest);
        lemma_split_concat(Seq::empty(), rest);
        let segs = seq![Seq::<u8>::empty()] + split_ff(rest);
        assert(split_ff(run) == segs);
        assert(segs[0].len() == 0);
    }
}

/// Two segments holding the encodings of a pair with a non-empty key
/// contribute exactly that pair, whatever follows them.
proof fn lemma_segs_pair(k0: Seq<char>, v0: Seq<char>, tail: Seq<Seq<u8>>)
    requires
        k0.len() > 0,
    ensures
        pairs_of(seq![encode_utf8(k0)] + (seq![encode_utf8(v0)] + tail)) == seq![(k0, v0)]
            + pairs_of(tail),
{
    let kb = encode_utf8(k0);
    let vb = encode_utf8(v0);
    lemma_utf8_nonempty(k0);
    encode_utf8_valid_utf8(k0);
    encode_utf8_valid_utf8(v0);
    encode_utf8_decode_utf8(k0);
    encode_utf8_decode_utf8(v0);
    let segs = seq![kb] + (seq![vb] + tail);
    assert(segs.len() == 2 + tail.len());
    assert(segs[0] == kb);
    assert(segs[1] == vb);
    assert(segs.skip(2) =~= tail);
    assert(pairs_of(segs) == seq![(decode_utf8(kb), decode_utf8(vb))] + pairs_of(segs.skip(2)));
    assert(decode_utf8(kb) == k0);
    assert(decode_utf8(vb) == v0);
}

/// The wire bytes of a map with non-empty keys, followed by any amount of
/// padding, decode segment by segment back into exactly its pairs.
proof fn lemma_wire_pairs(s: Seq<(Seq<char>, Seq<char>)>, m: nat)
    requires
        forall|i: int| 0 <= i < s.len() ==> s[i].0.len() > 0,
    ensures
        pairs_of(split_ff(payload(s) + Seq::new(m, |i: int| 0xFFu8))) == s,
    decreases s.len(),
{
    let run = Seq::new(m, |i: int| 0xFFu8);
    if s.len() == 0 {
        assert(payload(s) + run =~= run);
        lemma_pad_only(m);
        assert(s =~= Seq::<(Seq<char>, Seq<char>)>::empty());
    } else {
        let k0 = s[0].0;
        let v0 = s[0].1;
        let kb = encode_utf8(k0);
        let vb = encode_utf8(v0);
        lemma_utf8_no_ff(k0);
        lemma_utf8_no_ff(v0);
        if s.len() == 1 {
            if m == 0 {
                assert(payload(s) + run =~= kb + seq![0xFFu8] + vb);
                lemma_split_concat(kb, vb);
                lemma_split_whole(vb);
                let tail = Seq::<Seq<u8>>::empty();
                let segs = seq![kb] + (seq![vb] + tail);
                assert(seq![vb] + tail =~= seq![vb]);
                assert(split_ff(payload(s) + run) == segs);
                lemma_segs_pair(k0, v0, tail);
                assert(pairs_of(tail) == Seq::<(Seq<char>, Seq<char>)>::empty());
                assert(seq![(k0, v0)] + pairs_of(tail) =~= s);
            } else {
                let rest = Seq::new((m - 1) as nat, |i: int| 0xFFu8);
                assert(payload(s) + run =~= kb + seq![0xFFu8] + (vb + seq![0xFFu8] + rest));
                lemma_split_concat(kb, vb + seq![0xFFu8] + rest);
                lemma_split_concat(vb, rest);
                lemma_pad_only((m - 1) as nat);
                let tail = split_ff(rest);
                let segs = seq![kb] + (seq![vb] + tail);
                assert(split_ff(payload(s) + run) == segs);
                lemma_segs_pair(k0, v0, tail);
                assert(seq![(k0, v0)] + pairs_of(tail) =~= s);
            }
        } else {
            let rest = payload(s.drop_first()) + run;
            assert(payload(s) + run =~= kb + seq![0xFFu8] + (vb + seq![0xFFu8] + rest));
            lemma_split_concat(kb, vb + seq![0xFFu8] + rest);
            lemma_split_concat(vb, rest);
            assert forall|i: int| 0 <= i < s.drop_first().len() implies s.drop_first()[i].0.len()
                > 0 by {
                assert(s.drop_first()[i] == s[i + 1]);
            }
            lemma_wire_pairs(s.drop_first(), m);
            let tail = split_ff(rest);
            let segs = seq![kb] + (seq![vb] + tail);
            assert(split_ff(payload(s) + run) == segs);
            lemma_segs_pair(k0, v0, tail);
            assert(seq![(k0, v0)] + s.drop_first() =~= s);
        }
    }
}

/// Folding fresh, distinct pairs into an association list appends them.
proof fn lemma_fold_append(acc: Seq<(Seq<char>, Seq<char>)>, ps: Seq<(Seq<char>, Seq<char>)>)
    requires
        distinct_keys(acc + ps),
    ensures
        fold_upsert(acc, ps) == acc + ps,
    decreases ps.len(),
{
    if ps.len() == 0 {
        assert(acc + ps =~= acc);
    } else {
        let whole = acc + ps;
        assert forall|j: int| 0 <= j < acc.len() implies acc[j].0 != ps[0].0 by {
            assert(whole[j] == acc[j]);
            assert(whole[acc.len() as int] == ps[0]);
        }
        lemma_upsert_absent(acc, ps[0].0, ps[0].1);
        let acc2 = acc.push(ps[0]);
        assert(acc2 =~= acc + seq![ps[0]]);
        assert(acc2 + ps.drop_first() =~= acc + ps);
        lemma_fold_append(acc2, ps.drop_first());
    }
}

/// Round trip at the byte level: the padded wire bytes of any map with
/// distinct, non-empty keys decode back to exactly that map. Values may
/// hold any text, keys any non-empty text: the reserved byte never occurs
/// in UTF-8, so no entry can collide with the wire framing.
pub proof fn lemma_wire_round_trip(s: Seq<(Seq<char>, Seq<char>)>)
    requires
        distinct_keys(s),
        forall|i: int| 0 <= i < s.len() ==> s[i].0.len() > 0,
    ensures
        fold_upsert(Seq::empty(), pairs_of(split_ff(padded(payload(s))))) == s,
{
    let b = payload(s);
    assert(padded(b) == b + Seq::new(pad_len(b.len() as int) as nat, |i: int| 0xFFu8));
    lemma_wire_pairs(s, pad_len(b.len() as int) as nat);
    assert(Seq::<(Seq<char>, Seq<char>)>::empty() + s =~= s);
    lemma_fold_append(Seq::empty(), s);
}

/// Decoding inverts encoding: for a map with distinct, non-empty keys,
/// the text `e` that `encode` returns (whose contract supplies the two
/// base64 facts assumed here) decodes to the map itself.
pub proof fn lemma_decode_encode(s: Seq<(Seq<char>, Seq<char>)>, e: Seq<char>)
    requires
        distinct_keys(s),
        forall|i: int| 0 <= i < s.len() ==> s[i].0.len() > 0,
        e == spec_encode(s),
        b64_dec(e) == Some(padded(payload(s))),
    ensures
        spec_decode(e) == s,
{
    lemma_wire_round_trip(s);
}

/// The round trip, run: encoding a map with non-empty keys and decoding
/// the text again returns the very same map, entry for entry.
pub fn encode_then_decode(h: &SessionMap) -> (r: SessionMap)
    requires
        h.wf(),
        forall|i: int| 0 <= i < h@.len() ==> h@[i].0.len() > 0,
    ensures
        r@ == h@,
{
    let e = encode(h);
    let r = decode(e.as_str());
    proof {
        lemma_decode_encode(h@, e@);
    }
    r
}

} // verus!
