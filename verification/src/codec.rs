//! Composite-key codec: a deterministic, order-preserving byte encoding of
//! (preimage, version) pairs, so that lexicographic comparison of encoded
//! keys agrees with ordering by preimage bytes first, then by version
//! numerically. Each preimage byte is emitted as a two-byte group `1, b`, a
//! single `0` byte terminates the preimage, and the version follows as a
//! fixed-width big-endian integer; decoding is the exact inverse.

use vstd::prelude::*;

verus! {

/// Strict lexicographic order on byte sequences.
pub open spec fn lex_lt(a: Seq<u8>, b: Seq<u8>) -> bool
    decreases a.len(),
{
    if b.len() == 0 {
        false
    } else if a.len() == 0 {
        true
    } else if a[0] < b[0] {
        true
    } else if a[0] > b[0] {
        false
    } else {
        lex_lt(a.drop_first(), b.drop_first())
    }
}

/// Strict order on composite keys: preimage bytes first, then version.
pub open spec fn key_lt(p1: Seq<u8>, v1: u64, p2: Seq<u8>, v2: u64) -> bool {
    lex_lt(p1, p2) || (p1 == p2 && v1 < v2)
}

/// Non-strict order on composite keys.
pub open spec fn key_le(p1: Seq<u8>, v1: u64, p2: Seq<u8>, v2: u64) -> bool {
    key_lt(p1, v1, p2, v2) || (p1 == p2 && v1 == v2)
}

/// The two-byte group that encodes one preimage byte.
pub open spec fn esc_byte(b: u8) -> Seq<u8> {
    seq![1u8, b]
}

/// The encoding of a whole preimage: its bytes' groups in order.
pub open spec fn esc(p: Seq<u8>) -> Seq<u8>
    decreases p.len(),
{
    if p.len() == 0 {
        Seq::empty()
    } else {
        esc_byte(p[0]) + esc(p.drop_first())
    }
}

/// The fixed-width big-endian encoding of a version.
pub open spec fn be_bytes(v: u64) -> Seq<u8> {
    seq![
        ((v >> 56) & 0xff) as u8,
        ((v >> 48) & 0xff) as u8,
        ((v >> 40) & 0xff) as u8,
        ((v >> 32) & 0xff) as u8,
        ((v >> 24) & 0xff) as u8,
        ((v >> 16) & 0xff) as u8,
        ((v >> 8) & 0xff) as u8,
        (v & 0xff) as u8,
    ]
}

/// The version a big-endian byte sequence denotes.
pub open spec fn be_val(s: Seq<u8>) -> u64
    recommends
        s.len() == 8,
{
    (((s[0] as u64) << 56) | ((s[1] as u64) << 48) | ((s[2] as u64) << 40) | ((s[3] as u64) << 32)
        | ((s[4] as u64) << 24) | ((s[5] as u64) << 16) | ((s[6] as u64) << 8) | (s[7] as u64)) as u64
}

/// The full composite-key encoding: preimage groups, terminator, version.
pub open spec fn spec_encode_key(p: Seq<u8>, v: u64) -> Seq<u8> {
    esc(p) + seq![0u8] + be_bytes(v)
}

/// The exact inverse of `spec_encode_key`, or `None` for byte strings that
/// no composite key encodes to.
pub open spec fn spec_decode_key(b: Seq<u8>) -> Option<(Seq<u8>, u64)>
    decreases b.len(),
{
    if b.len() == 0 {
        None
    } else if b[0] == 0 {
        if b.len() == 9 {
            Some((Seq::empty(), be_val(b.subrange(1, 9))))
        } else {
            None
        }
    } else if b[0] == 1 {
        if b.len() < 2 {
            None
        } else {
            match spec_decode_key(b.subrange(2, b.len() as int)) {
                Some(pv) => Some((seq![b[1]] + pv.0, pv.1)),
                None => None,
            }
        }
    } else {
        None
    }
}

/// Encodes a (preimage, version) composite key.
pub fn encode_key(preimage: &Vec<u8>, version: u64) -> (r: Vec<u8>)
    ensures
        r@ == spec_encode_key(preimage@, version),
{
    let mut out: Vec<u8> = Vec::new();
    let mut i: usize = 0;
    while i < preimage.len()
        invariant
            i <= preimage@.len(),
            out@ == esc(preimage@.subrange(0, i as int)),
        decreases preimage@.len() - i,
    {
        out.push(1);
        out.push(preimage[i]);
        proof {
            let pre = preimage@;
            let s1 = pre.subrange(0, i as int);
            let x = pre[i as int];
            lemma_esc_app(s1, seq![x]);
            assert(pre.subrange(0, i + 1) =~= s1 + seq![x]);
            assert(seq![x].drop_first() =~= Seq::<u8>::empty());
            assert(esc(seq![x]) == esc_byte(x) + esc(seq![x].drop_first()));
            assert(esc_byte(x) + Seq::<u8>::empty() =~= esc_byte(x));
            assert(out@ =~= esc(s1) + esc_byte(x));
            assert(out@ =~= esc(pre.subrange(0, i + 1)));
        }
        i += 1;
    }
    proof {
        assert(preimage@.subrange(0, preimage@.len() as int) =~= preimage@);
    }
    out.push(0);
    out.push(((version >> 56) & 0xff) as u8);
    out.push(((version >> 48) & 0xff) as u8);
    out.push(((version >> 40) & 0xff) as u8);
    out.push(((version >> 32) & 0xff) as u8);
    out.push(((version >> 24) & 0xff) as u8);
    out.push(((version >> 16) & 0xff) as u8);
    out.push(((version >> 8) & 0xff) as u8);
    out.push((version & 0xff) as u8);
    proof {
        assert(out@ =~= spec_encode_key(preimage@, version));
    }
    out
}

/// Decodes a composite key, returning `None` for byte strings that no
/// composite key encodes to.
pub fn decode_key(bytes: &Vec<u8>) -> (r: Option<(Vec<u8>, u64)>)
    ensures
        match r {
            Some(pv) => spec_decode_key(bytes@) == Some((pv.0@, pv.1)),
            None => spec_decode_key(bytes@) is None,
        },
{
    let n = bytes.len();
    let mut out: Vec<u8> = Vec::new();
    let mut i: usize = 0;
    proof {
        assert(bytes@.subrange(0, n as int) =~= bytes@);
        match spec_decode_key(bytes@) {
            Some(pv) => {
                assert(Seq::<u8>::empty() + pv.0 =~= pv.0);
            },
            None => {},
        }
    }
    loop
        invariant
            i <= n,
            n == bytes@.len(),
            spec_decode_key(bytes@) == match spec_decode_key(bytes@.subrange(i as int, n as int)) {
                Some(pv) => Some::<(Seq<u8>, u64)>((out@ + pv.0, pv.1)),
                None => None::<(Seq<u8>, u64)>,
            },
        decreases n - i,
    {
        let ghost rest = bytes@.subrange(i as int, n as int);
        if i >= n {
            return None;
        }
        let b = bytes[i];
        if b == 0 {
            if n - i != 9 {
                return None;
            }
            let v: u64 = ((bytes[i + 1] as u64) << 56) | ((bytes[i + 2] as u64) << 48)
                | ((bytes[i + 3] as u64) << 40) | ((bytes[i + 4] as u64) << 32)
                | ((bytes[i + 5] as u64) << 24) | ((bytes[i + 6] as u64) << 16)
                | ((bytes[i + 7] as u64) << 8) | (bytes[i + 8] as u64);
            proof {
                assert(rest.subrange(1, 9) =~= bytes@.subrange(i + 1, i + 9));
                assert(be_val(rest.subrange(1, 9)) == v);
                assert(out@ + Seq::<u8>::empty() =~= out@);
            }
            return Some((out, v));
        } else if b == 1 {
            if i + 1 >= n {
                proof {
                    assert(spec_decode_key(rest) is None);
                }
                return None;
            }
            let x = bytes[i + 1];
            let ghost out0 = out@;
            out.push(x);
            proof {
                assert(rest.subrange(2, rest.len() as int)
                    =~= bytes@.subrange(i + 2, n as int));
                assert(out@ =~= out0 + seq![x]);
                match spec_decode_key(bytes@.subrange(i + 2, n as int)) {
                    Some(pv) => {
                        assert(out0 + (seq![x] + pv.0) =~= (out0 + seq![x]) + pv.0);
                    },
                    None => {},
                }
            }
            i += 2;
        } else {
            return None;
        }
    }
}

/// Byte-wise equality of two byte vectors.
pub fn bytes_eq(a: &Vec<u8>, b: &Vec<u8>) -> (r: bool)
    ensures
        r == (a@ == b@),
{
    if a.len() != b.len() {
        return false;
    }
    let mut i: usize = 0;
    while i < a.len()
        invariant
            i <= a@.len(),
            a@.len() == b@.len(),
            forall|j: int| 0 <= j < i ==> a@[j] == b@[j],
        decreases a@.len() - i,
    {
        if a[i] != b[i] {
            return false;
        }
        i += 1;
    }
    proof {
        assert(a@ =~= b@);
    }
    true
}

/// Compares two byte strings lexicographically.
pub fn lex_lt_exec(a: &Vec<u8>, b: &Vec<u8>) -> (r: bool)
    ensures
        r == lex_lt(a@, b@),
{
    let n = if a.len() < b.len() {
        a.len()
    } else {
        b.len()
    };
    let mut i: usize = 0;
    proof {
        assert(a@.subrange(0, a@.len() as int) =~= a@);
        assert(b@.subrange(0, b@.len() as int) =~= b@);
    }
    while i < n
        invariant
            i <= n,
            n == if a@.len() < b@.len() {
                a@.len()
            } else {
                b@.len()
            },
            lex_lt(a@, b@) == lex_lt(
                a@.subrange(i as int, a@.len() as int),
                b@.subrange(i as int, b@.len() as int),
            ),
        decreases n - i,
    {
        let ghost ra = a@.subrange(i as int, a@.len() as int);
        let ghost rb = b@.subrange(i as int, b@.len() as int);
        if a[i] < b[i] {
            return true;
        }
        if a[i] > b[i] {
            return false;
        }
        proof {
            assert(ra.drop_first() =~= a@.subrange(i + 1, a@.len() as int));
            assert(rb.drop_first() =~= b@.subrange(i + 1, b@.len() as int));
        }
        i += 1;
    }
    proof {
        let ra = a@.subrange(i as int, a@.len() as int);
        let rb = b@.subrange(i as int, b@.len() as int);
        if a@.len() < b@.len() {
            assert(ra.len() == 0 && rb.len() > 0);
        } else {
            assert(rb.len() == 0);
        }
    }
    a.len() < b.len()
}

/// Compares two composite keys: preimage bytes first, then version.
pub fn key_lt_exec(p1: &Vec<u8>, v1: u64, p2: &Vec<u8>, v2: u64) -> (r: bool)
    ensures
        r == key_lt(p1@, v1, p2@, v2),
{
    if lex_lt_exec(p1, p2) {
        true
    } else if bytes_eq(p1, p2) {
        v1 < v2
    } else {
        false
    }
}

/// `esc` distributes over concatenation of preimages.
pub proof fn lemma_esc_app(a: Seq<u8>, b: Seq<u8>)
    ensures
        esc(a + b) == esc(a) + esc(b),
    decreases a.len(),
{
    if a.len() == 0 {
        assert(a + b =~= b);
        assert(esc(a) + esc(b) =~= esc(b));
    } else {
        assert((a + b).drop_first() =~= a.drop_first() + b);
        lemma_esc_app(a.drop_first(), b);
        assert(esc(a + b) =~= esc(a) + esc(b));
    }
}

/// Decoding is the exact inverse of encoding.
pub proof fn lemma_key_round_trip(p: Seq<u8>, v: u64)
    ensures
        spec_decode_key(spec_encode_key(p, v)) == Some((p, v)),
    decreases p.len(),
{
    let e = spec_encode_key(p, v);
    if p.len() == 0 {
        assert(e =~= seq![0u8] + be_bytes(v));
        assert(e.len() == 9);
        assert(e.subrange(1, 9) =~= be_bytes(v));
        lemma_be_round_trip(v);
    } else {
        let tail = p.drop_first();
        lemma_key_round_trip(tail, v);
        assert(e[0] == 1);
        assert(e.len() >= 2);
        assert(e.subrange(2, e.len() as int) =~= spec_encode_key(tail, v));
        assert(e[1] == p[0]);
        assert(seq![p[0]] + tail =~= p);
    }
}

/// A shared prefix does not affect lexicographic comparison.
pub proof fn lemma_lex_common_prefix(c: Seq<u8>, a: Seq<u8>, b: Seq<u8>)
    ensures
        lex_lt(c + a, c + b) == lex_lt(a, b),
    decreases c.len(),
{
    if c.len() == 0 {
        assert(c + a =~= a);
        assert(c + b =~= b);
    } else {
        assert((c + a)[0] == c[0]);
        assert((c + b)[0] == c[0]);
        assert((c + a).drop_first() =~= c.drop_first() + a);
        assert((c + b).drop_first() =~= c.drop_first() + b);
        lemma_lex_common_prefix(c.drop_first(), a, b);
    }
}

/// Of `a < b`, `a == b` and `b < a`, exactly one holds lexicographically.
pub proof fn lemma_lex_trichotomy(a: Seq<u8>, b: Seq<u8>)
    ensures
        lex_lt(a, b) || lex_lt(b, a) || a == b,
        lex_lt(a, b) ==> !lex_lt(b, a) && a != b,
        lex_lt(b, a) ==> !lex_lt(a, b) && a != b,
    decreases a.len() + b.len(),
{
    if a.len() == 0 && b.len() == 0 {
        assert(a =~= b);
    } else if a.len() == 0 || b.len() == 0 {
    } else if a[0] == b[0] {
        lemma_lex_trichotomy(a.drop_first(), b.drop_first());
        if !lex_lt(a, b) && !lex_lt(b, a) {
            assert(a.drop_first() == b.drop_first());
            assert forall|i: int| 0 <= i < a.len() implies a[i] == b[i] by {
                if i > 0 {
                    assert(a[i] == a.drop_first()[i - 1]);
                    assert(b[i] == b.drop_first()[i - 1]);
                }
            }
            assert(a =~= b);
        }
    }
}

/// Lexicographic order is transitive.
pub proof fn lemma_lex_trans(a: Seq<u8>, b: Seq<u8>, c: Seq<u8>)
    requires
        lex_lt(a, b),
        lex_lt(b, c),
    ensures
        lex_lt(a, c),
    decreases a.len() + b.len() + c.len(),
{
    if a.len() == 0 {
    } else if a[0] == b[0] && b[0] == c[0] {
        lemma_lex_trans(a.drop_first(), b.drop_first(), c.drop_first());
    }
}

/// Composite-key order is transitive.
pub proof fn lemma_key_trans(p1: Seq<u8>, v1: u64, p2: Seq<u8>, v2: u64, p3: Seq<u8>, v3: u64)
    requires
        key_lt(p1, v1, p2, v2),
        key_lt(p2, v2, p3, v3),
    ensures
        key_lt(p1, v1, p3, v3),
{
    if lex_lt(p1, p2) && lex_lt(p2, p3) {
        lemma_lex_trans(p1, p2, p3);
    }
}

/// Non-strict composite-key order is transitive, and strictness on either
/// side carries over.
pub proof fn lemma_key_le_trans(p1: Seq<u8>, v1: u64, p2: Seq<u8>, v2: u64, p3: Seq<u8>, v3: u64)
    requires
        key_le(p1, v1, p2, v2),
        key_le(p2, v2, p3, v3),
    ensures
        key_le(p1, v1, p3, v3),
        key_lt(p1, v1, p2, v2) && key_lt(p2, v2, p3, v3) ==> key_lt(p1, v1, p3, v3),
{
    if key_lt(p1, v1, p2, v2) && key_lt(p2, v2, p3, v3) {
        lemma_key_trans(p1, v1, p2, v2, p3, v3);
    }
}

/// Composite-key order is irreflexive and asymmetric.
pub proof fn lemma_key_asym(p1: Seq<u8>, v1: u64, p2: Seq<u8>, v2: u64)
    ensures
        key_lt(p1, v1, p2, v2) ==> !key_lt(p2, v2, p1, v1),
        key_lt(p1, v1, p2, v2) || key_lt(p2, v2, p1, v1) || (p1 == p2 && v1 == v2),
{
    lemma_lex_trichotomy(p1, p2);
}

/// `lex_lt(a, b)` holds when the two agree below index `k` and differ there.
proof fn lemma_lex_lt_from_diff(a: Seq<u8>, b: Seq<u8>, k: int)
    requires
        0 <= k < a.len(),
        k < b.len(),
        forall|j: int| 0 <= j < k ==> a[j] == b[j],
        a[k] < b[k],
    ensures
        lex_lt(a, b),
    decreases k,
{
    if k > 0 {
        lemma_lex_lt_from_diff(a.drop_first(), b.drop_first(), k - 1);
    }
}

/// Big-endian encoding preserves numeric order of versions.
pub proof fn lemma_be_order(v1: u64, v2: u64)
    requires
        v1 < v2,
    ensures
        lex_lt(be_bytes(v1), be_bytes(v2)),
{
    let s1 = be_bytes(v1);
    let s2 = be_bytes(v2);
    let a0: u8 = ((v1 >> 56) & 0xff) as u8;
    let a1: u8 = ((v1 >> 48) & 0xff) as u8;
    let a2: u8 = ((v1 >> 40) & 0xff) as u8;
    let a3: u8 = ((v1 >> 32) & 0xff) as u8;
    let a4: u8 = ((v1 >> 24) & 0xff) as u8;
    let a5: u8 = ((v1 >> 16) & 0xff) as u8;
    let a6: u8 = ((v1 >> 8) & 0xff) as u8;
    let a7: u8 = (v1 & 0xff) as u8;
    let c0: u8 = ((v2 >> 56) & 0xff) as u8;
    let c1: u8 = ((v2 >> 48) & 0xff) as u8;
    let c2: u8 = ((v2 >> 40) & 0xff) as u8;
    let c3: u8 = ((v2 >> 32) & 0xff) as u8;
    let c4: u8 = ((v2 >> 24) & 0xff) as u8;
    let c5: u8 = ((v2 >> 16) & 0xff) as u8;
    let c6: u8 = ((v2 >> 8) & 0xff) as u8;
    let c7: u8 = (v2 & 0xff) as u8;
    assert(a0 < c0
        || (a0 == c0 && a1 < c1)
        || (a0 == c0 && a1 == c1 && a2 < c2)
        || (a0 == c0 && a1 == c1 && a2 == c2 && a3 < c3)
        || (a0 == c0 && a1 == c1 && a2 == c2 && a3 == c3 && a4 < c4)
        || (a0 == c0 && a1 == c1 && a2 == c2 && a3 == c3 && a4 == c4 && a5 < c5)
        || (a0 == c0 && a1 == c1 && a2 == c2 && a3 == c3 && a4 == c4 && a5 == c5 && a6 < c6)
        || (a0 == c0 && a1 == c1 && a2 == c2 && a3 == c3 && a4 == c4 && a5 == c5 && a6 == c6
            && a7 < c7)) by (bit_vector)
        requires
            v1 < v2,
            a0 == ((v1 >> 56) & 0xff) as u8,
            a1 == ((v1 >> 48) & 0xff) as u8,
            a2 == ((v1 >> 40) & 0xff) as u8,
            a3 == ((v1 >> 32) & 0xff) as u8,
            a4 == ((v1 >> 24) & 0xff) as u8,
            a5 == ((v1 >> 16) & 0xff) as u8,
            a6 == ((v1 >> 8) & 0xff) as u8,
            a7 == (v1 & 0xff) as u8,
            c0 == ((v2 >> 56) & 0xff) as u8,
            c1 == ((v2 >> 48) & 0xff) as u8,
            c2 == ((v2 >> 40) & 0xff) as u8,
            c3 == ((v2 >> 32) & 0xff) as u8,
            c4 == ((v2 >> 24) & 0xff) as u8,
            c5 == ((v2 >> 16) & 0xff) as u8,
            c6 == ((v2 >> 8) & 0xff) as u8,
            c7 == (v2 & 0xff) as u8,
    ;
    if s1[0] < s2[0] {
        lemma_lex_lt_from_diff(s1, s2, 0);
    } else if s1[1] < s2[1] {
        lemma_lex_lt_from_diff(s1, s2, 1);
    } else if s1[2] < s2[2] {
        lemma_lex_lt_from_diff(s1, s2, 2);
    } else if s1[3] < s2[3] {
        lemma_lex_lt_from_diff(s1, s2, 3);
    } else if s1[4] < s2[4] {
        lemma_lex_lt_from_diff(s1, s2, 4);
    } else if s1[5] < s2[5] {
        lemma_lex_lt_from_diff(s1, s2, 5);
    } else if s1[6] < s2[6] {
        lemma_lex_lt_from_diff(s1, s2, 6);
    } else {
        lemma_lex_lt_from_diff(s1, s2, 7);
    }
}

/// Order preservation, one direction: composite-key order implies
/// lexicographic order of the encodings.
proof fn lemma_encode_lt(p1: Seq<u8>, v1: u64, p2: Seq<u8>, v2: u64)
    requires
        key_lt(p1, v1, p2, v2),
    ensures
        lex_lt(spec_encode_key(p1, v1), spec_encode_key(p2, v2)),
    decreases p1.len(),
{
    let e1 = spec_encode_key(p1, v1);
    let e2 = spec_encode_key(p2, v2);
    if p1 == p2 {
        lemma_lex_trichotomy(p1, p2);
        lemma_be_order(v1, v2);
        assert(e1 =~= (esc(p1) + seq![0u8]) + be_bytes(v1));
        assert(e2 =~= (esc(p1) + seq![0u8]) + be_bytes(v2));
        lemma_lex_common_prefix(esc(p1) + seq![0u8], be_bytes(v1), be_bytes(v2));
    } else {
        if p1.len() == 0 {
            assert(e1[0] == 0);
            assert(esc(p2) == esc_byte(p2[0]) + esc(p2.drop_first()));
            assert(e2[0] == 1);
            assert(lex_lt(e1, e2));
        } else {
            let a = p1[0];
            let b = p2[0];
            if a == b {
                assert(key_lt(p1.drop_first(), v1, p2.drop_first(), v2));
                lemma_encode_lt(p1.drop_first(), v1, p2.drop_first(), v2);
                assert(e1 =~= esc_byte(a) + spec_encode_key(p1.drop_first(), v1));
                assert(e2 =~= esc_byte(a) + spec_encode_key(p2.drop_first(), v2));
                lemma_lex_common_prefix(
                    esc_byte(a),
                    spec_encode_key(p1.drop_first(), v1),
                    spec_encode_key(p2.drop_first(), v2),
                );
            } else {
                assert(a < b);
                assert(e1 =~= esc_byte(a) + spec_encode_key(p1.drop_first(), v1));
                assert(e2 =~= esc_byte(b) + spec_encode_key(p2.drop_first(), v2));
                assert(e1[0] == 1 && e2[0] == 1);
                assert(e1[1] == a && e2[1] == b);
                lemma_lex_lt_from_diff(e1, e2, 1);
            }
        }
    }
}

/// The codec is order-preserving: lexicographic comparison of two encoded
/// composite keys agrees exactly with ordering by preimage first, then by
/// version numerically.
pub proof fn lemma_encode_order_preserving(p1: Seq<u8>, v1: u64, p2: Seq<u8>, v2: u64)
    ensures
        lex_lt(spec_encode_key(p1, v1), spec_encode_key(p2, v2)) == key_lt(p1, v1, p2, v2),
{
    let e1 = spec_encode_key(p1, v1);
    let e2 = spec_encode_key(p2, v2);
    lemma_key_asym(p1, v1, p2, v2);
    lemma_lex_trichotomy(e1, e2);
    if key_lt(p1, v1, p2, v2) {
        lemma_encode_lt(p1, v1, p2, v2);
    } else if key_lt(p2, v2, p1, v1) {
        lemma_encode_lt(p2, v2, p1, v1);
    }
}

/// Re-encoding the version a big-endian byte string denotes yields the
/// same bytes.
pub proof fn lemma_be_bytes_of_val(s: Seq<u8>)
    requires
        s.len() == 8,
    ensures
        be_bytes(be_val(s)) == s,
{
    let a0 = s[0];
    let a1 = s[1];
    let a2 = s[2];
    let a3 = s[3];
    let a4 = s[4];
    let a5 = s[5];
    let a6 = s[6];
    let a7 = s[7];
    let v = be_val(s);
    assert(((v >> 56) & 0xff) as u8 == a0 && ((v >> 48) & 0xff) as u8 == a1 && ((v >> 40) & 0xff) as u8
        == a2 && ((v >> 32) & 0xff) as u8 == a3 && ((v >> 24) & 0xff) as u8 == a4 && ((v >> 16)
        & 0xff) as u8 == a5 && ((v >> 8) & 0xff) as u8 == a6 && (v & 0xff) as u8 == a7)
        by (bit_vector)
        requires
            v == (((a0 as u64) << 56) | ((a1 as u64) << 48) | ((a2 as u64) << 40) | ((a3 as u64)
                << 32) | ((a4 as u64) << 24) | ((a5 as u64) << 16) | ((a6 as u64) << 8) | (
            a7 as u64)) as u64,
    ;
    assert(be_bytes(v) =~= s);
}

/// Decoding is injective onto encodings: a byte string that decodes is the
/// encoding of what it decodes to, so the codec is a bijection between
/// composite keys and decodable byte strings.
pub proof fn lemma_decode_inverse(b: Seq<u8>, p: Seq<u8>, v: u64)
    requires
        spec_decode_key(b) == Some((p, v)),
    ensures
        b == spec_encode_key(p, v),
    decreases b.len(),
{
    if b[0] == 0 {
        lemma_be_bytes_of_val(b.subrange(1, 9));
        assert(b =~= seq![0u8] + b.subrange(1, 9));
        assert(spec_encode_key(p, v) =~= seq![0u8] + be_bytes(v));
    } else {
        let rest = b.subrange(2, b.len() as int);
        match spec_decode_key(rest) {
            Some(pv) => {
                lemma_decode_inverse(rest, pv.0, pv.1);
                assert(p == seq![b[1]] + pv.0);
                assert(p[0] == b[1]);
                assert(p.drop_first() =~= pv.0);
                assert(spec_encode_key(p, v) =~= esc_byte(p[0]) + spec_encode_key(
                    p.drop_first(),
                    v,
                ));
                assert(b =~= seq![1u8, b[1]] + rest);
            },
            None => {
                assert(false);
            },
        }
    }
}

/// Reading back a big-endian encoding yields the encoded version.
pub proof fn lemma_be_round_trip(v: u64)
    ensures
        be_val(be_bytes(v)) == v,
{
    assert((((((v >> 56) & 0xff) as u8) as u64) << 56
        | ((((v >> 48) & 0xff) as u8) as u64) << 48
        | ((((v >> 40) & 0xff) as u8) as u64) << 40
        | ((((v >> 32) & 0xff) as u8) as u64) << 32
        | ((((v >> 24) & 0xff) as u8) as u64) << 24
        | ((((v >> 16) & 0xff) as u8) as u64) << 16
        | ((((v >> 8) & 0xff) as u8) as u64) << 8
        | (((v & 0xff) as u8) as u64)) == v) by (bit_vector);
}

} // verus!
