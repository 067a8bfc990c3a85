//! Canonical byte codec primitives.
//!
//! Every registry entity is encoded with the big-endian, length-prefixed
//! primitives below. The encoding of a value is a pure function of the value,
//! so independent replicas derive byte-identical encodings of the same
//! logical record.

use vstd::prelude::*;

verus! {

/// Canonical encoding of a `u16`: two bytes, big-endian.
pub open spec fn enc_u16(v: u16) -> Seq<u8> {
    seq![((v >> 8) & 0xff) as u8, (v & 0xff) as u8]
}

/// Canonical encoding of a `u32`: four bytes, big-endian.
pub open spec fn enc_u32(v: u32) -> Seq<u8> {
    seq![
        ((v >> 24) & 0xff) as u8,
        ((v >> 16) & 0xff) as u8,
        ((v >> 8) & 0xff) as u8,
        (v & 0xff) as u8,
    ]
}

/// Canonical encoding of a `u64`: eight bytes, big-endian.
pub open spec fn enc_u64(v: u64) -> Seq<u8> {
    seq![
        ((v >> 56) & 0xff) as u8,
        ((v >> 48) & 0xff) as u8,
        ((v >> 40) & 0xff) as u8,
        ((v >> 32) & 0xff) as u8,
        ((v >> 24) & 0xff) as u8,
        ((v >> 16) & 0xff) as u8,
        ((v >> 8) & 0xff) as u8,
        (v & 0xff) as u8,
    ]
}

/// Canonical encoding of an `i64`: its two's-complement bits, big-endian.
pub open spec fn enc_i64(v: i64) -> Seq<u8> {
    enc_u64(v as u64)
}

/// Canonical encoding of a variable-length byte string: a `u32` length
/// prefix followed by the bytes themselves.
pub open spec fn enc_bytes(s: Seq<u8>) -> Seq<u8> {
    enc_u32(s.len() as u32) + s
}

/// Canonical encoding of a single byte.
pub open spec fn enc_u8(v: u8) -> Seq<u8> {
    seq![v]
}

/// Reads the byte at `i`.
pub fn parse_u8(b: &Vec<u8>, i: usize) -> (r: Option<(u8, usize)>)
    requires
        i <= b@.len(),
    ensures
        r is Some <==> i + 1 <= b@.len(),
        r matches Some((v, j)) ==> j == i + 1 && enc_u8(v) == b@.subrange(i as int, i + 1),
        forall|v: u8|
            i + 1 <= b@.len() && b@.subrange(i as int, i + 1) == #[trigger] enc_u8(v) ==> r
                == Some((v, (i + 1) as usize)),
{
    if b.len() - i < 1 {
        return None;
    }
    let v = b[i];
    proof {
        assert(enc_u8(v) =~= b@.subrange(i as int, i + 1));
        assert forall|w: u8| b@.subrange(i as int, i + 1) == #[trigger] enc_u8(w) implies w
            == v by {
            assert(enc_u8(w)[0] == w);
        }
    }
    Some((v, i + 1))
}

pub proof fn lemma_enc_u16_inj(a: u16, b: u16)
    requires
        enc_u16(a) == enc_u16(b),
    ensures
        a == b,
{
    assert(enc_u16(a)[0] == enc_u16(b)[0]);
    assert(enc_u16(a)[1] == enc_u16(b)[1]);
    assert((((a >> 8) & 0xff) as u8 == ((b >> 8) & 0xff) as u8 && (a & 0xff) as u8 == (b
        & 0xff) as u8) ==> a == b) by (bit_vector);
}

pub proof fn lemma_enc_u32_inj(a: u32, b: u32)
    requires
        enc_u32(a) == enc_u32(b),
    ensures
        a == b,
{
    assert(enc_u32(a)[0] == enc_u32(b)[0]);
    assert(enc_u32(a)[1] == enc_u32(b)[1]);
    assert(enc_u32(a)[2] == enc_u32(b)[2]);
    assert(enc_u32(a)[3] == enc_u32(b)[3]);
    assert((((a >> 24) & 0xff) as u8 == ((b >> 24) & 0xff) as u8 && ((a >> 16) & 0xff) as u8 == ((b
        >> 16) & 0xff) as u8 && ((a >> 8) & 0xff) as u8 == ((b >> 8) & 0xff) as u8 && (a
        & 0xff) as u8 == (b & 0xff) as u8) ==> a == b) by (bit_vector);
}

pub proof fn lemma_enc_u64_inj(a: u64, b: u64)
    requires
        enc_u64(a) == enc_u64(b),
    ensures
        a == b,
{
    assert(enc_u64(a)[0] == enc_u64(b)[0]);
    assert(enc_u64(a)[1] == enc_u64(b)[1]);
    assert(enc_u64(a)[2] == enc_u64(b)[2]);
    assert(enc_u64(a)[3] == enc_u64(b)[3]);
    assert(enc_u64(a)[4] == enc_u64(b)[4]);
    assert(enc_u64(a)[5] == enc_u64(b)[5]);
    assert(enc_u64(a)[6] == enc_u64(b)[6]);
    assert(enc_u64(a)[7] == enc_u64(b)[7]);
    assert((((a >> 56) & 0xff) as u8 == ((b >> 56) & 0xff) as u8 && ((a >> 48) & 0xff) as u8 == ((b
        >> 48) & 0xff) as u8 && ((a >> 40) & 0xff) as u8 == ((b >> 40) & 0xff) as u8 && ((a >> 32)
        & 0xff) as u8 == ((b >> 32) & 0xff) as u8 && ((a >> 24) & 0xff) as u8 == ((b >> 24)
        & 0xff) as u8 && ((a >> 16) & 0xff) as u8 == ((b >> 16) & 0xff) as u8 && ((a >> 8)
        & 0xff) as u8 == ((b >> 8) & 0xff) as u8 && (a & 0xff) as u8 == (b & 0xff) as u8) ==> a
        == b) by (bit_vector);
}

pub proof fn lemma_enc_i64_inj(a: i64, b: i64)
    requires
        enc_i64(a) == enc_i64(b),
    ensures
        a == b,
{
    lemma_enc_u64_inj(a as u64, b as u64);
    assert((a as u64) == (b as u64) ==> a == b) by (bit_vector);
}

/// Appends the single byte `v` to `out`.
pub fn put_u8(out: &mut Vec<u8>, v: u8)
    ensures
        final(out)@ == old(out)@ + enc_u8(v),
{
    out.push(v);
    proof {
        assert(out@ =~= old(out)@ + enc_u8(v));
    }
}

/// Appends the canonical encoding of `v` to `out`.
pub fn put_u16(out: &mut Vec<u8>, v: u16)
    ensures
        final(out)@ == old(out)@ + enc_u16(v),
{
    out.push(((v >> 8) & 0xff) as u8);
    out.push((v & 0xff) as u8);
    proof {
        assert(out@ =~= old(out)@ + enc_u16(v));
    }
}

/// Appends the canonical encoding of `v` to `out`.
pub fn put_u32(out: &mut Vec<u8>, v: u32)
    ensures
        final(out)@ == old(out)@ + enc_u32(v),
{
    out.push(((v >> 24) & 0xff) as u8);
    out.push(((v >> 16) & 0xff) as u8);
    out.push(((v >> 8) & 0xff) as u8);
    out.push((v & 0xff) as u8);
    proof {
        assert(out@ =~= old(out)@ + enc_u32(v));
    }
}

/// Appends the canonical encoding of `v` to `out`.
pub fn put_u64(out: &mut Vec<u8>, v: u64)
    ensures
        final(out)@ == old(out)@ + enc_u64(v),
{
    out.push(((v >> 56) & 0xff) as u8);
    out.push(((v >> 48) & 0xff) as u8);
    out.push(((v >> 40) & 0xff) as u8);
    out.push(((v >> 32) & 0xff) as u8);
    out.push(((v >> 24) & 0xff) as u8);
    out.push(((v >> 16) & 0xff) as u8);
    out.push(((v >> 8) & 0xff) as u8);
    out.push((v & 0xff) as u8);
    proof {
        assert(out@ =~= old(out)@ + enc_u64(v));
    }
}

/// Appends the canonical encoding of `v` to `out`.
pub fn put_i64(out: &mut Vec<u8>, v: i64)
    ensures
        final(out)@ == old(out)@ + enc_i64(v),
{
    put_u64(out, #[verifier::truncate] (v as u64));
}

/// Appends the canonical length-prefixed encoding of `s` to `out`.
pub fn put_bytes(out: &mut Vec<u8>, s: &Vec<u8>)
    requires
        s@.len() <= u32::MAX,
    ensures
        final(out)@ == old(out)@ + enc_bytes(s@),
{
    put_u32(out, s.len() as u32);
    let ghost mid = out@;
    let n: usize = s.len();
    let mut i: usize = 0;
    while i < n
        invariant
            n == s@.len(),
            0 <= i <= n,
            out@ == mid + s@.subrange(0, i as int),
        decreases n - i,
    {
        out.push(s[i]);
        proof {
            assert(out@ =~= mid + s@.subrange(0, i + 1 as int));
        }
        i += 1;
    }
    proof {
        assert(s@.subrange(0, n as int) =~= s@);
        assert(out@ =~= old(out)@ + enc_bytes(s@));
    }
}

/// Appends the raw bytes of `s` (no length prefix) to `out`; used for
/// fields whose length is fixed by a well-formedness invariant.
pub fn put_raw(out: &mut Vec<u8>, s: &Vec<u8>)
    ensures
        final(out)@ == old(out)@ + s@,
{
    let n: usize = s.len();
    let mut i: usize = 0;
    while i < n
        invariant
            n == s@.len(),
            0 <= i <= n,
            out@ == old(out)@ + s@.subrange(0, i as int),
        decreases n - i,
    {
        out.push(s[i]);
        proof {
            assert(out@ =~= old(out)@ + s@.subrange(0, i + 1 as int));
        }
        i += 1;
    }
    proof {
        assert(s@.subrange(0, n as int) =~= s@);
    }
}

/// Reads the two bytes at `i` as a big-endian `u16`.
pub fn parse_u16(b: &Vec<u8>, i: usize) -> (r: Option<(u16, usize)>)
    requires
        i <= b@.len(),
    ensures
        r is Some <==> i + 2 <= b@.len(),
        r matches Some((v, j)) ==> j == i + 2 && enc_u16(v) == b@.subrange(i as int, i + 2),
        forall|v: u16|
            i + 2 <= b@.len() && b@.subrange(i as int, i + 2) == #[trigger] enc_u16(v) ==> r
                == Some((v, (i + 2) as usize)),
{
    if b.len() - i < 2 {
        return None;
    }
    let b0 = b[i];
    let b1 = b[i + 1];
    let w: u16 = ((b0 as u16) << 8) | (b1 as u16);
    proof {
        assert((((((b0 as u16) << 8) | (b1 as u16)) >> 8) & 0xff) as u8 == b0 && ((((b0 as u16)
            << 8) | (b1 as u16)) & 0xff) as u8 == b1) by (bit_vector);
        assert(enc_u16(w) =~= b@.subrange(i as int, i + 2));
        assert forall|v: u16| b@.subrange(i as int, i + 2) == #[trigger] enc_u16(v) implies v
            == w by {
            lemma_enc_u16_inj(v, w);
        }
    }
    Some((w, i + 2))
}

/// Reads the four bytes at `i` as a big-endian `u32`.
pub fn parse_u32(b: &Vec<u8>, i: usize) -> (r: Option<(u32, usize)>)
    requires
        i <= b@.len(),
    ensures
        r is Some <==> i + 4 <= b@.len(),
        r matches Some((v, j)) ==> j == i + 4 && enc_u32(v) == b@.subrange(i as int, i + 4),
        forall|v: u32|
            i + 4 <= b@.len() && b@.subrange(i as int, i + 4) == #[trigger] enc_u32(v) ==> r
                == Some((v, (i + 4) as usize)),
{
    if b.len() - i < 4 {
        return None;
    }
    let b0 = b[i];
    let b1 = b[i + 1];
    let b2 = b[i + 2];
    let b3 = b[i + 3];
    let w: u32 = ((b0 as u32) << 24) | ((b1 as u32) << 16) | ((b2 as u32) << 8) | (b3 as u32);
    proof {
        assert(((((b0 as u32) << 24) | ((b1 as u32) << 16) | ((b2 as u32) << 8) | (b3 as u32)) >> 24
            & 0xff) as u8 == b0 && ((((b0 as u32) << 24) | ((b1 as u32) << 16) | ((b2 as u32) << 8)
            | (b3 as u32)) >> 16 & 0xff) as u8 == b1 && ((((b0 as u32) << 24) | ((b1 as u32) << 16)
            | ((b2 as u32) << 8) | (b3 as u32)) >> 8 & 0xff) as u8 == b2 && ((((b0 as u32) << 24)
            | ((b1 as u32) << 16) | ((b2 as u32) << 8) | (b3 as u32)) & 0xff) as u8
            == b3) by (bit_vector);
        assert(enc_u32(w) =~= b@.subrange(i as int, i + 4));
        assert forall|v: u32| b@.subrange(i as int, i + 4) == #[trigger] enc_u32(v) implies v
            == w by {
            lemma_enc_u32_inj(v, w);
        }
    }
    Some((w, i + 4))
}

/// Reads the eight bytes at `i` as a big-endian `u64`.
pub fn parse_u64(b: &Vec<u8>, i: usize) -> (r: Option<(u64, usize)>)
    requires
        i <= b@.len(),
    ensures
        r is Some <==> i + 8 <= b@.len(),
        r matches Some((v, j)) ==> j == i + 8 && enc_u64(v) == b@.subrange(i as int, i + 8),
        forall|v: u64|
            i + 8 <= b@.len() && b@.subrange(i as int, i + 8) == #[trigger] enc_u64(v) ==> r
                == Some((v, (i + 8) as usize)),
{
    if b.len() - i < 8 {
        return None;
    }
    let b0 = b[i];
    let b1 = b[i + 1];
    let b2 = b[i + 2];
    let b3 = b[i + 3];
    let b4 = b[i + 4];
    let b5 = b[i + 5];
    let b6 = b[i + 6];
    let b7 = b[i + 7];
    let w: u64 = ((b0 as u64) << 56) | ((b1 as u64) << 48) | ((b2 as u64) << 40) | ((b3 as u64)
        << 32) | ((b4 as u64) << 24) | ((b5 as u64) << 16) | ((b6 as u64) << 8) | (b7 as u64);
    proof {
        let x: u64 = w;
        assert(((x >> 56) & 0xff) as u8 == b0 && ((x >> 48) & 0xff) as u8 == b1 && ((x >> 40)
            & 0xff) as u8 == b2 && ((x >> 32) & 0xff) as u8 == b3 && ((x >> 24) & 0xff) as u8 == b4
            && ((x >> 16) & 0xff) as u8 == b5 && ((x >> 8) & 0xff) as u8 == b6 && (x
            & 0xff) as u8 == b7) by (bit_vector)
            requires
                x == ((b0 as u64) << 56) | ((b1 as u64) << 48) | ((b2 as u64) << 40) | ((b3 as u64)
                    << 32) | ((b4 as u64) << 24) | ((b5 as u64) << 16) | ((b6 as u64) << 8) | (
                b7 as u64),
        ;
        assert(enc_u64(w) =~= b@.subrange(i as int, i + 8));
        assert forall|v: u64| b@.subrange(i as int, i + 8) == #[trigger] enc_u64(v) implies v
            == w by {
            lemma_enc_u64_inj(v, w);
        }
    }
    Some((w, i + 8))
}

/// Reads the eight bytes at `i` as a big-endian two's-complement `i64`.
pub fn parse_i64(b: &Vec<u8>, i: usize) -> (r: Option<(i64, usize)>)
    requires
        i <= b@.len(),
    ensures
        r is Some <==> i + 8 <= b@.len(),
        r matches Some((v, j)) ==> j == i + 8 && enc_i64(v) == b@.subrange(i as int, i + 8),
        forall|v: i64|
            i + 8 <= b@.len() && b@.subrange(i as int, i + 8) == #[trigger] enc_i64(v) ==> r
                == Some((v, (i + 8) as usize)),
{
    match parse_u64(b, i) {
        None => None,
        Some((w, j)) => {
            let v: i64 = #[verifier::truncate] (w as i64);
            proof {
                let x: u64 = w;
                assert(((x as i64) as u64) == x) by (bit_vector);
                assert forall|q: i64|
                    b@.subrange(i as int, i + 8) == #[trigger] enc_i64(q) implies q == v by {
                    lemma_enc_i64_inj(q, v);
                }
            }
            Some((v, j))
        },
    }
}

/// Reads `n` raw bytes at `i`.
pub fn parse_raw(b: &Vec<u8>, i: usize, n: usize) -> (r: Option<(Vec<u8>, usize)>)
    requires
        i <= b@.len(),
    ensures
        r is Some <==> i + n <= b@.len(),
        r matches Some((v, j)) ==> j == i + n && v@ == b@.subrange(i as int, i + n),
{
    if b.len() - i < n {
        return None;
    }
    let mut v: Vec<u8> = Vec::new();
    let mut k: usize = 0;
    while k < n
        invariant
            i + n <= b@.len(),
            b@.len() <= usize::MAX,
            0 <= k <= n,
            v@ == b@.subrange(i as int, i + k),
        decreases n - k,
    {
        v.push(b[i + k]);
        proof {
            assert(v@ =~= b@.subrange(i as int, i + k + 1 as int));
        }
        k += 1;
    }
    Some((v, i + n))
}

/// Reads a `u32` length prefix at `i`, then that many bytes.
pub fn parse_bytes(b: &Vec<u8>, i: usize) -> (r: Option<(Vec<u8>, usize)>)
    requires
        i <= b@.len(),
    ensures
        r matches Some((v, j)) ==> i <= j <= b@.len() && v@.len() <= u32::MAX && enc_bytes(v@)
            == b@.subrange(i as int, j as int) && j == i + 4 + v@.len(),
        forall|s: Seq<u8>|
            s.len() <= u32::MAX && i + 4 + s.len() <= b@.len() && b@.subrange(
                i as int,
                i + 4 + s.len(),
            ) == #[trigger] enc_bytes(s) ==> r is Some && (r matches Some((v, j)) ==> v@ == s && j
                == i + 4 + s.len()),
{
    let (n, j0) = match parse_u32(b, i) {
        None => {
            proof {
                assert forall|s: Seq<u8>|
                    s.len() <= u32::MAX && i + 4 + s.len() <= b@.len() && b@.subrange(
                        i as int,
                        i + 4 + s.len(),
                    ) == #[trigger] enc_bytes(s) implies false by {
                    assert(i + 4 <= b@.len());
                }
            }
            return None;
        },
        Some(p) => p,
    };
    // The declared length must fit in the remaining input.
    if n as usize > b.len() - j0 {
        proof {
            assert forall|s: Seq<u8>|
                s.len() <= u32::MAX && i + 4 + s.len() <= b@.len() && b@.subrange(
                    i as int,
                    i + 4 + s.len(),
                ) == #[trigger] enc_bytes(s) implies false by {
                lemma_prefix_of_concat(enc_u32(s.len() as u32), s, b@, i as int);
                assert(b@.subrange(i as int, i + 4) == enc_u32(s.len() as u32));
                lemma_enc_u32_inj(n, s.len() as u32);
            }
        }
        return None;
    }
    let m = n as usize;
    match parse_raw(b, j0, m) {
        None => {
            proof {
                assert(false);
            }
            None
        },
        Some((v, j)) => {
            proof {
                assert(enc_bytes(v@) =~= b@.subrange(i as int, j as int)) by {
                    assert(v@.len() == n);
                    assert(enc_u32(n) == b@.subrange(i as int, i + 4));
                    assert(enc_bytes(v@) == enc_u32(n) + v@);
                    assert((enc_u32(n) + v@) =~= b@.subrange(i as int, j as int));
                }
                assert forall|s: Seq<u8>|
                    s.len() <= u32::MAX && i + 4 + s.len() <= b@.len() && b@.subrange(
                        i as int,
                        i + 4 + s.len(),
                    ) == #[trigger] enc_bytes(s) implies v@ == s && j == i + 4 + s.len() by {
                    lemma_prefix_of_concat(enc_u32(s.len() as u32), s, b@, i as int);
                    assert(b@.subrange(i as int, i + 4) == enc_u32(s.len() as u32));
                    lemma_enc_u32_inj(n, s.len() as u32);
                    assert(s.len() == n);
                    assert(s =~= b@.subrange(i + 4, i + 4 + s.len()));
                    assert(v@ =~= s);
                }
            }
            Some((v, j))
        },
    }
}

/// If `whole.subrange(at, at + a.len() + b.len()) == a + b`, the two halves
/// stand at `at` and `at + a.len()`.
pub proof fn lemma_prefix_of_concat(a: Seq<u8>, b: Seq<u8>, whole: Seq<u8>, at: int)
    requires
        0 <= at,
        at + a.len() + b.len() <= whole.len(),
        whole.subrange(at, at + a.len() + b.len()) == a + b,
    ensures
        whole.subrange(at, at + a.len()) == a,
        whole.subrange(at + a.len(), at + a.len() + b.len()) == b,
{
    assert(whole.subrange(at, at + a.len()) =~= a) by {
        assert forall|k: int| 0 <= k < a.len() implies whole[at + k] == a[k] by {
            assert((a + b)[k] == a[k]);
            assert(whole.subrange(at, at + a.len() + b.len())[k] == whole[at + k]);
        }
    }
    assert(whole.subrange(at + a.len(), at + a.len() + b.len()) =~= b) by {
        assert forall|k: int| 0 <= k < b.len() implies whole[at + a.len() + k] == b[k] by {
            assert((a + b)[a.len() + k] == b[k]);
            assert(whole.subrange(at, at + a.len() + b.len())[a.len() + k] == whole[at + a.len()
                + k]);
        }
    }
}

} // verus!
