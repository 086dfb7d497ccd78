//! Fixed-width big-endian integers and length-prefixed frames.
use vstd::prelude::*;

verus! {

/// Width in bytes of every integer header on the wire.
pub const HEADER_LEN: usize = 8;

/// The unsigned number that a big-endian byte sequence denotes.
pub open spec fn be_value(s: Seq<u8>) -> nat
    decreases s.len(),
{
    if s.len() == 0 {
        0
    } else {
        be_value(s.drop_last()) * 256 + s.last() as nat
    }
}

/// The `k` low-order bytes of `n`, most significant first.
pub open spec fn be_bytes(n: nat, k: nat) -> Seq<u8>
    decreases k,
{
    if k == 0 {
        Seq::empty()
    } else {
        be_bytes(n / 256, (k - 1) as nat).push((n % 256) as u8)
    }
}

/// `256` raised to the power `k`.
pub open spec fn pow256(k: nat) -> nat
    decreases k,
{
    if k == 0 {
        1
    } else {
        256 * pow256((k - 1) as nat)
    }
}

/// The eight-byte header that carries `n`.
pub open spec fn u64_header(n: u64) -> Seq<u8> {
    be_bytes(n as nat, 8)
}

pub proof fn lemma_be_bytes_len(n: nat, k: nat)
    ensures
        be_bytes(n, k).len() == k,
    decreases k,
{
    if k > 0 {
        lemma_be_bytes_len(n / 256, (k - 1) as nat);
    }
}

pub proof fn lemma_pow256_positive(k: nat)
    ensures
        pow256(k) > 0,
    decreases k,
{
    if k > 0 {
        lemma_pow256_positive((k - 1) as nat);
    }
}

/// Reading back `k` encoded bytes gives the number modulo `256^k`.
pub proof fn lemma_be_value_of_bytes(n: nat, k: nat)
    ensures
        be_value(be_bytes(n, k)) == n % pow256(k),
    decreases k,
{
    if k > 0 {
        let p = pow256((k - 1) as nat);
        lemma_pow256_positive((k - 1) as nat);
        lemma_be_value_of_bytes(n / 256, (k - 1) as nat);
        let s = be_bytes(n, k);
        assert(s.drop_last() == be_bytes(n / 256, (k - 1) as nat));
        vstd::arithmetic::div_mod::lemma_mod_breakdown(n as int, 256, p as int);
        assert(pow256(k) == 256 * p);
    }
}

/// Encoding the number a byte sequence denotes gives the sequence back.
pub proof fn lemma_be_bytes_of_value(s: Seq<u8>)
    ensures
        be_bytes(be_value(s), s.len()) == s,
    decreases s.len(),
{
    if s.len() > 0 {
        let v = be_value(s.drop_last());
        lemma_be_bytes_of_value(s.drop_last());
        let n = be_value(s);
        assert(n / 256 == v && n % 256 == s.last()) by {
            vstd::arithmetic::div_mod::lemma_fundamental_div_mod_converse(
                n as int,
                256,
                v as int,
                s.last() as int,
            );
        }
        assert(be_bytes(n, s.len()) =~= s);
    }
}

pub proof fn lemma_pow256_8()
    ensures
        pow256(8) == 0x1_0000_0000_0000_0000,
{
    reveal_with_fuel(pow256, 9);
}

/// The header of `n` has eight bytes and denotes `n`.
pub proof fn lemma_u64_header(n: u64)
    ensures
        u64_header(n).len() == 8,
        be_value(u64_header(n)) == n,
{
    lemma_be_bytes_len(n as nat, 8);
    lemma_be_value_of_bytes(n as nat, 8);
    lemma_pow256_8();
}

/// Eight bytes are the header of the number they denote.
pub proof fn lemma_header_of_value(s: Seq<u8>)
    requires
        s.len() == 8,
    ensures
        be_value(s) < 0x1_0000_0000_0000_0000,
        u64_header(be_value(s) as u64) == s,
{
    lemma_be_bytes_of_value(s);
    lemma_be_value_of_bytes(be_value(s), 8);
    lemma_pow256_8();
}

/// Byte `j` of the `k`-byte encoding of `n`.
pub proof fn lemma_be_bytes_index(n: nat, k: nat, j: int)
    requires
        0 <= j < k,
    ensures
        be_bytes(n, k)[j] == ((n / pow256((k - 1 - j) as nat)) % 256) as u8,
    decreases k,
{
    lemma_be_bytes_len(n, k);
    if j < k - 1 {
        let m = (k - 2 - j) as nat;
        lemma_be_bytes_len(n / 256, (k - 1) as nat);
        lemma_be_bytes_index(n / 256, (k - 1) as nat, j);
        lemma_pow256_positive(m);
        vstd::arithmetic::div_mod::lemma_div_denominator(n as int, 256, pow256(m) as int);
        assert(pow256((k - 1 - j) as nat) == 256 * pow256(m));
        assert(be_bytes(n, k)[j] == be_bytes(n / 256, (k - 1) as nat)[j]);
    } else {
        assert(pow256(0) == 1);
        assert(n / 1 == n);
    }
}

/// A big-endian number is below `256` to the power of its length.
pub proof fn lemma_be_value_bound(s: Seq<u8>)
    ensures
        be_value(s) < pow256(s.len()),
    decreases s.len(),
{
    if s.len() > 0 {
        lemma_be_value_bound(s.drop_last());
    }
}

/// The big-endian header of `n`.
pub fn encode_u64_be(n: u64) -> (r: [u8; 8])
    ensures
        r@ == u64_header(n),
        be_value(r@) == n,
{
    let mut r = [0u8; 8];
    let mut v: u64 = n;
    let mut i: usize = 8;
    assert(pow256((8 - i) as nat) == 1);
    assert(n as nat / 1 == n as nat);
    while i > 0
        invariant
            i <= 8,
            r@.len() == 8,
            v as nat == n as nat / pow256((8 - i) as nat),
            forall|j: int|
                i <= j < 8 ==> r@[j] == ((n as nat / pow256((7 - j) as nat)) % 256) as u8,
        decreases i,
    {
        proof {
            lemma_pow256_positive((8 - i) as nat);
            vstd::arithmetic::div_mod::lemma_div_denominator(
                n as int,
                pow256((8 - i) as nat) as int,
                256,
            );
            assert(pow256((9 - i) as nat) == 256 * pow256((8 - i) as nat));
        }
        i = i - 1;
        r[i] = (v % 256) as u8;
        v = v / 256;
    }
    proof {
        lemma_be_bytes_len(n as nat, 8);
        assert forall|j: int| 0 <= j < 8 implies r@[j] == u64_header(n)[j] by {
            lemma_be_bytes_index(n as nat, 8, j);
        }
    }
    assert(r@ =~= u64_header(n));
    proof {
        lemma_u64_header(n);
    }
    r
}

/// The number that the eight bytes of `buf` starting at `pos` denote.
pub fn read_u64_at(buf: &[u8], pos: usize) -> (r: u64)
    requires
        pos + 8 <= buf@.len(),
    ensures
        r as nat == be_value(buf@.subrange(pos as int, pos + 8)),
        u64_header(r) == buf@.subrange(pos as int, pos + 8),
{
    let ghost h = buf@.subrange(pos as int, pos + 8);
    let len = buf.len();
    let mut acc: u64 = 0;
    let mut i: usize = 0;
    while i < 8
        invariant
            i <= 8,
            pos + 8 <= buf@.len(),
            len == buf@.len(),
            h == buf@.subrange(pos as int, pos + 8),
            acc as nat == be_value(h.subrange(0, i as int)),
        decreases 8 - i,
    {
        proof {
            let next = h.subrange(0, i + 1);
            assert(next.drop_last() =~= h.subrange(0, i as int));
            assert(next.last() == buf@[pos + i]);
            lemma_be_value_bound(next);
            reveal_with_fuel(pow256, 9);
        }
        acc = acc * 256 + buf[pos + i] as u64;
        i = i + 1;
    }
    proof {
        assert(h.subrange(0, 8) =~= h);
        lemma_header_of_value(h);
    }
    acc
}

/// The number that eight big-endian bytes denote.
pub fn decode_u64_be(b: &[u8; 8]) -> (r: u64)
    ensures
        r as nat == be_value(b@),
        u64_header(r) == b@,
{
    let s = b.as_slice();
    assert(s@.subrange(0, 8) =~= b@);
    read_u64_at(s, 0)
}

/// Appends the bytes of `src` to `dst`.
pub fn append_bytes(dst: &mut Vec<u8>, src: &[u8])
    ensures
        final(dst)@ == old(dst)@ + src@,
{
    let mut i: usize = 0;
    while i < src.len()
        invariant
            i <= src@.len(),
            dst@ == old(dst)@ + src@.subrange(0, i as int),
        decreases src@.len() - i,
    {
        dst.push(src[i]);
        i = i + 1;
        assert(dst@ =~= old(dst)@ + src@.subrange(0, i as int));
    }
    assert(src@.subrange(0, src@.len() as int) =~= src@);
}

/// The wire form of one frame: the payload's length as an eight-byte
/// header, then the payload.
pub open spec fn frame_bytes(payload: Seq<u8>) -> Seq<u8> {
    u64_header(payload.len() as u64) + payload
}

/// The frame at the start of `s`, as its payload and the number of bytes it
/// spans; `None` when `s` ends before the frame does.
pub open spec fn parse_frame(s: Seq<u8>) -> Option<(Seq<u8>, nat)> {
    if s.len() < 8 {
        None
    } else {
        let n = be_value(s.subrange(0, 8));
        if s.len() < 8 + n {
            None
        } else {
            Some((s.subrange(8, 8 + n as int), 8 + n))
        }
    }
}

/// The frame that carries `payload`.
pub fn encode_frame(payload: &[u8]) -> (r: Vec<u8>)
    ensures
        r@ == frame_bytes(payload@),
{
    let header = encode_u64_be(payload.len() as u64);
    let mut r: Vec<u8> = Vec::new();
    append_bytes(&mut r, header.as_slice());
    append_bytes(&mut r, payload);
    r
}

/// Reads the frame at the start of `buf`: its payload and the number of bytes
/// it spans, or `None` when `buf` holds only part of a frame.
pub fn decode_frame(buf: &[u8]) -> (r: Option<(Vec<u8>, usize)>)
    ensures
        match r {
            Some((p, used)) => parse_frame(buf@) == Some((p@, used as nat)),
            None => parse_frame(buf@) is None,
        },
{
    if buf.len() < HEADER_LEN {
        return None;
    }
    let n = read_u64_at(buf, 0);
    if n > (buf.len() - 8) as u64 {
        return None;
    }
    let end = 8 + n as usize;
    let mut p: Vec<u8> = Vec::new();
    append_bytes(&mut p, vstd::slice::slice_subrange(buf, 8, end));
    Some((p, end))
}

/// A frame decodes to the payload it was built from, whatever follows it on
/// the wire, and spans its header and payload exactly.
pub proof fn lemma_frame_round_trip(payload: Seq<u8>, rest: Seq<u8>)
    requires
        payload.len() <= u64::MAX,
    ensures
        parse_frame(frame_bytes(payload) + rest) == Some((payload, 8 + payload.len())),
{
    let w = frame_bytes(payload) + rest;
    lemma_u64_header(payload.len() as u64);
    assert(w.subrange(0, 8) =~= u64_header(payload.len() as u64));
    assert(w.subrange(8, 8 + payload.len() as int) =~= payload);
}

} // verus!
