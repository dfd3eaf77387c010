//! Variable-length integer codec and pairwise prefix-share (delta) codec.
//!
//! A `u64` is stored in 1 to 9 bytes.  The number of leading one bits in the
//! first byte gives the count of continuation bytes; the remaining bits of the
//! first byte are the least significant payload bits, and the continuation
//! bytes follow in little-endian order.
//!
//! Sorted pathnames are stored as delta records: each record drops `discard`
//! bytes from the tail of the previous pathname and appends a suffix.

use vstd::prelude::*;

verus! {

/// Number of continuation bytes used to encode `v`.
pub open spec fn vlq_extra(v: u64) -> nat {
    if v < 0x80 {
        0
    } else if v < 0x4000 {
        1
    } else if v < 0x20_0000 {
        2
    } else if v < 0x1000_0000 {
        3
    } else if v < 0x8_0000_0000 {
        4
    } else if v < 0x400_0000_0000 {
        5
    } else if v < 0x2_0000_0000_0000 {
        6
    } else if v < 0x100_0000_0000_0000 {
        7
    } else {
        8
    }
}

/// First-byte marker for a count of `e` continuation bytes: `e` leading ones
/// followed by a zero bit (all ones when `e == 8`).
pub open spec fn vlq_marker(e: nat) -> u8 {
    if e == 0 {
        0x00
    } else if e == 1 {
        0x80
    } else if e == 2 {
        0xc0
    } else if e == 3 {
        0xe0
    } else if e == 4 {
        0xf0
    } else if e == 5 {
        0xf8
    } else if e == 6 {
        0xfc
    } else if e == 7 {
        0xfe
    } else {
        0xff
    }
}

/// Capacity of the payload bits held in the first byte: `2^(7 - e)`.
pub open spec fn vlq_split(e: nat) -> u64 {
    if e == 0 {
        128
    } else if e == 1 {
        64
    } else if e == 2 {
        32
    } else if e == 3 {
        16
    } else if e == 4 {
        8
    } else if e == 5 {
        4
    } else if e == 6 {
        2
    } else {
        1
    }
}

/// The `n` least significant bytes of `v`, least significant first.
pub open spec fn le_bytes(v: nat, n: nat) -> Seq<u8>
    decreases n,
{
    if n == 0 {
        seq![]
    } else {
        seq![(v % 256) as u8] + le_bytes(v / 256, (n - 1) as nat)
    }
}

/// The value of a little-endian byte sequence.
pub open spec fn le_val(s: Seq<u8>) -> nat
    decreases s.len(),
{
    if s.len() == 0 {
        0
    } else {
        (s[0] + 256 * le_val(s.drop_first())) as nat
    }
}

pub open spec fn pow256(n: nat) -> nat
    decreases n,
{
    if n == 0 {
        1
    } else {
        256 * pow256((n - 1) as nat)
    }
}

/// The byte encoding of `v`.
pub open spec fn vlq_encode(v: u64) -> Seq<u8> {
    let e = vlq_extra(v);
    let d = vlq_split(e);
    seq![(vlq_marker(e) + v % d) as u8] + le_bytes((v / d) as nat, e)
}

/// Continuation-byte count announced by a first byte.
pub open spec fn vlq_first_extra(b: u8) -> nat {
    if b < 0x80 {
        0
    } else if b < 0xc0 {
        1
    } else if b < 0xe0 {
        2
    } else if b < 0xf0 {
        3
    } else if b < 0xf8 {
        4
    } else if b < 0xfc {
        5
    } else if b < 0xfe {
        6
    } else if b == 0xfe {
        7
    } else {
        8
    }
}

/// Decode one value from the head of `s`: the value and the number of bytes
/// consumed, or `None` when `s` is too short.
pub open spec fn vlq_decode(s: Seq<u8>) -> Option<(u64, int)> {
    if s.len() == 0 {
        None
    } else {
        let b = s[0];
        let e = vlq_first_extra(b);
        if s.len() < 1 + e {
            None
        } else {
            let payload = (b - vlq_marker(e)) as nat;
            let w = le_val(s.subrange(1, 1 + e as int));
            Some((((payload + w * vlq_split(e)) % 0x1_0000_0000_0000_0000) as u64, 1 + e as int))
        }
    }
}

proof fn lemma_le_bytes_len(v: nat, n: nat)
    ensures
        le_bytes(v, n).len() == n,
    decreases n,
{
    if n > 0 {
        lemma_le_bytes_len(v / 256, (n - 1) as nat);
    }
}

proof fn lemma_le_val_le_bytes(v: nat, n: nat)
    requires
        v < pow256(n),
    ensures
        le_val(le_bytes(v, n)) == v,
    decreases n,
{
    if n > 0 {
        assert(v / 256 < pow256((n - 1) as nat)) by {
            assert(pow256(n) == 256 * pow256((n - 1) as nat));
        };
        lemma_le_val_le_bytes(v / 256, (n - 1) as nat);
        assert(le_bytes(v, n).drop_first() =~= le_bytes(v / 256, (n - 1) as nat));
    }
}

proof fn lemma_pow256_values()
    ensures
        pow256(0) == 1,
        pow256(1) == 0x100,
        pow256(2) == 0x1_0000,
        pow256(3) == 0x100_0000,
        pow256(4) == 0x1_0000_0000,
        pow256(5) == 0x100_0000_0000,
        pow256(6) == 0x1_0000_0000_0000,
        pow256(7) == 0x100_0000_0000_0000,
        pow256(8) == 0x1_0000_0000_0000_0000,
{
    assert(pow256(0) == 1);
    assert(pow256(1) == 0x100);
    assert(pow256(2) == 0x1_0000);
    assert(pow256(3) == 0x100_0000);
    assert(pow256(4) == 0x1_0000_0000);
    assert(pow256(5) == 0x100_0000_0000);
    assert(pow256(6) == 0x1_0000_0000_0000);
    assert(pow256(7) == 0x100_0000_0000_0000);
    assert(pow256(8) == 0x1_0000_0000_0000_0000);
}

/// Law: the decoder inverts the encoder, for every `u64` and whatever bytes
/// follow the encoding in the stream.
pub proof fn lemma_vlq_round_trip(v: u64, rest: Seq<u8>)
    ensures
        vlq_encode(v).len() == 1 + vlq_extra(v),
        vlq_decode(vlq_encode(v) + rest) == Some((v, vlq_encode(v).len() as int)),
{
    let e = vlq_extra(v);
    let d = vlq_split(e);
    let m = vlq_marker(e);
    lemma_le_bytes_len((v / d) as nat, e);
    let s = vlq_encode(v) + rest;
    let first = (m + v % d) as u8;
    assert(s[0] == first);
    assert(vlq_first_extra(first) == e);
    assert(s.len() >= 1 + e);
    assert(s.subrange(1, 1 + e as int) =~= le_bytes((v / d) as nat, e));
    lemma_pow256_values();
    assert(((v / d) as nat) < pow256(e));
    lemma_le_val_le_bytes((v / d) as nat, e);
    let payload = (first - m) as nat;
    assert(payload == v % d);
    assert(payload + (v / d) * d == v) by {
        vstd::arithmetic::div_mod::lemma_fundamental_div_mod(v as int, d as int);
    };
}

/// Append the encoding of `v` to `out`.
pub fn encode_vlq(v: u64, out: &mut Vec<u8>)
    ensures
        final(out)@ == old(out)@ + vlq_encode(v),
{
    let ghost pre = out@;
    let (e, m, d): (usize, u8, u64) = if v < 0x80 {
        (0, 0x00, 128)
    } else if v < 0x4000 {
        (1, 0x80, 64)
    } else if v < 0x20_0000 {
        (2, 0xc0, 32)
    } else if v < 0x1000_0000 {
        (3, 0xe0, 16)
    } else if v < 0x8_0000_0000 {
        (4, 0xf0, 8)
    } else if v < 0x400_0000_0000 {
        (5, 0xf8, 4)
    } else if v < 0x2_0000_0000_0000 {
        (6, 0xfc, 2)
    } else if v < 0x100_0000_0000_0000 {
        (7, 0xfe, 1)
    } else {
        (8, 0xff, 1)
    };
    let ghost senc = vlq_encode(v);
    proof {
        lemma_le_bytes_len((v / d) as nat, e as nat);
        assert(senc.len() == 1 + e);
    }
    out.push(m + (v % d) as u8);
    proof {
        assert(senc[0] == (vlq_marker(e as nat) + v % vlq_split(e as nat)) as u8);
        assert(out@ =~= pre + senc.take(1));
        assert(senc.skip(1) =~= le_bytes((v / d) as nat, e as nat));
    }
    let mut w: u64 = v / d;
    let mut i: usize = 0;
    while i < e
        invariant
            i <= e,
            senc == vlq_encode(v),
            senc.len() == 1 + e,
            out@ == pre + senc.take(1 + i as int),
            le_bytes(w as nat, (e - i) as nat) == senc.skip(1 + i as int),
        decreases e - i,
    {
        proof {
            lemma_le_bytes_len((w / 256) as nat, (e - i - 1) as nat);
            assert(le_bytes(w as nat, (e - i) as nat)[0] == (w as nat % 256) as u8);
            assert(senc.skip(1 + i as int)[0] == senc[1 + i as int]);
        }
        out.push((w % 256) as u8);
        proof {
            assert(out@ =~= pre + senc.take(2 + i as int));
            assert(le_bytes(w as nat, (e - i) as nat).drop_first() =~= le_bytes(
                w as nat / 256,
                (e - i - 1) as nat,
            ));
            assert(senc.skip(1 + i as int).drop_first() =~= senc.skip(2 + i as int));
            assert(le_bytes((w / 256) as nat, (e - i - 1) as nat) =~= senc.skip(2 + i as int));
        }
        w = w / 256;
        i = i + 1;
    }
    proof {
        assert(senc.take(1 + e as int) =~= senc);
    }
}

proof fn lemma_vlq_mul_bound(w: nat, e: nat)
    requires
        e <= 8,
        w < pow256(e),
    ensures
        w * vlq_split(e) < 0x1_0000_0000_0000_0000,
        e < 8 ==> w * vlq_split(e) + 256 <= 0x1_0000_0000_0000_0000,
{
    lemma_pow256_values();
    if e == 0 {
        assert(w * 128 <= 0 * 128);
    } else if e == 1 {
        assert(w * 64 <= 0xff * 64);
    } else if e == 2 {
        assert(w * 32 <= 0xffff * 32);
    } else if e == 3 {
        assert(w * 16 <= 0xff_ffff * 16);
    } else if e == 4 {
        assert(w * 8 <= 0xffff_ffff * 8);
    } else if e == 5 {
        assert(w * 4 <= 0xff_ffff_ffff * 4);
    } else if e == 6 {
        assert(w * 2 <= 0xffff_ffff_ffff * 2);
    } else if e == 7 {
        assert(w * 1 <= 0xff_ffff_ffff_ffff * 1);
    } else {
        assert(w * 1 <= 0xffff_ffff_ffff_ffff * 1);
    }
}

proof fn lemma_le_val_bound(s: Seq<u8>)
    ensures
        le_val(s) < pow256(s.len()),
    decreases s.len(),
{
    if s.len() > 0 {
        lemma_le_val_bound(s.drop_first());
    }
}

/// Decode one value from `data` starting at `pos`; return the value and the
/// position just past it, or `None` when the bytes run out.
pub fn decode_vlq(data: &[u8], pos: usize) -> (r: Option<(u64, usize)>)
    requires
        pos <= data@.len(),
    ensures
        match vlq_decode(data@.skip(pos as int)) {
            Some((v, n)) => r == Some((v, (pos + n) as usize)),
            None => r is None,
        },
{
    let len = data.len();
    if pos >= len {
        return None;
    }
    let ghost s = data@.skip(pos as int);
    let b = data[pos];
    assert(s[0] == b);
    let (e, m, d): (usize, u8, u64) = if b < 0x80 {
        (0, 0x00, 128)
    } else if b < 0xc0 {
        (1, 0x80, 64)
    } else if b < 0xe0 {
        (2, 0xc0, 32)
    } else if b < 0xf0 {
        (3, 0xe0, 16)
    } else if b < 0xf8 {
        (4, 0xf0, 8)
    } else if b < 0xfc {
        (5, 0xf8, 4)
    } else if b < 0xfe {
        (6, 0xfc, 2)
    } else if b == 0xfe {
        (7, 0xfe, 1)
    } else {
        (8, 0xff, 1)
    };
    assert(e == vlq_first_extra(b));
    if len - pos < 1 + e {
        return None;
    }
    let ghost cont = s.subrange(1, 1 + e as int);
    let mut w: u64 = 0;
    let mut i: usize = e;
    proof {
        assert(cont.skip(e as int) =~= Seq::<u8>::empty());
    }
    while i > 0
        invariant
            i <= e,
            e < 9,
            len == data@.len(),
            pos + 1 + e <= len,
            cont == data@.skip(pos as int).subrange(1, 1 + e as int),
            w as nat == le_val(cont.skip(i as int)),
            (w as nat) < pow256((e - i) as nat),
        decreases i,
    {
        proof {
            lemma_pow256_values();
            lemma_le_val_bound(cont.skip(i as int));
            assert(pow256((e - i) as nat) <= pow256(7));
        }
        i = i - 1;
        let byte = data[pos + 1 + i];
        assert(cont.skip(i as int)[0] == byte);
        assert(cont.skip(i as int).drop_first() =~= cont.skip(i as int + 1));
        w = w * 256 + (byte as u64);
        proof {
            assert(pow256(((e - i) as nat)) == 256 * pow256((e - i - 1) as nat));
        }
    }
    proof {
        assert(cont.skip(0) =~= cont);
        lemma_pow256_values();
    }
    let payload: u64 = (b - m) as u64;
    proof {
        assert(payload as nat == (b - vlq_marker(e as nat)) as nat);
        assert((w as nat) < pow256(e as nat));
        lemma_vlq_mul_bound(w as nat, e as nat);
        assert(d == vlq_split(e as nat));
        if e == 8 {
            assert(payload == 0);
        } else {
            assert(payload < 256);
        }
        assert(payload + w * d < 0x1_0000_0000_0000_0000);
    }
    let v: u64 = payload + w * d;
    assert(v as nat == ((b - vlq_marker(e as nat)) as nat + le_val(cont) * vlq_split(e as nat))
        % 0x1_0000_0000_0000_0000);
    Some((v, pos + 1 + e))
}

/// Length of the longest common prefix of two byte strings.
pub open spec fn common_prefix_len(a: Seq<u8>, b: Seq<u8>) -> nat
    decreases a.len(),
{
    if a.len() == 0 || b.len() == 0 || a[0] != b[0] {
        0
    } else {
        1 + common_prefix_len(a.drop_first(), b.drop_first())
    }
}

pub proof fn lemma_common_prefix_len(a: Seq<u8>, b: Seq<u8>)
    ensures
        common_prefix_len(a, b) <= a.len(),
        common_prefix_len(a, b) <= b.len(),
        a.take(common_prefix_len(a, b) as int) == b.take(common_prefix_len(a, b) as int),
    decreases a.len(),
{
    if a.len() == 0 || b.len() == 0 || a[0] != b[0] {
    } else {
        lemma_common_prefix_len(a.drop_first(), b.drop_first());
        let n = common_prefix_len(a, b) as int;
        assert(a.take(n) =~= seq![a[0]] + a.drop_first().take(n - 1));
        assert(b.take(n) =~= seq![b[0]] + b.drop_first().take(n - 1));
    }
}

proof fn lemma_common_prefix_len_is(a: Seq<u8>, b: Seq<u8>, i: nat)
    requires
        i <= a.len(),
        i <= b.len(),
        forall|j: int| 0 <= j < i ==> a[j] == b[j],
        i == a.len() || i == b.len() || a[i as int] != b[i as int],
    ensures
        common_prefix_len(a, b) == i,
    decreases i,
{
    if a.len() == 0 || b.len() == 0 || a[0] != b[0] {
        assert(i == 0);
    } else {
        assert(a[0] == b[0]);
        lemma_common_prefix_len_is(a.drop_first(), b.drop_first(), (i - 1) as nat);
    }
}

/// Split `curr` against `prev`: how many tail bytes of `prev` to drop, and
/// the suffix of `curr` to append after the shared prefix.
pub fn delta_encode(prev: &[u8], curr: &[u8]) -> (r: (usize, Vec<u8>))
    ensures
        r.0 == prev@.len() - common_prefix_len(prev@, curr@),
        r.1@ == curr@.skip(common_prefix_len(prev@, curr@) as int),
{
    let a_len = prev.len();
    let b_len = curr.len();
    let mut i: usize = 0;
    while i < a_len && i < b_len && prev[i] == curr[i]
        invariant
            i <= a_len,
            i <= b_len,
            a_len == prev@.len(),
            b_len == curr@.len(),
            forall|j: int| 0 <= j < i ==> prev@[j] == curr@[j],
        decreases a_len - i,
    {
        i = i + 1;
    }
    proof {
        lemma_common_prefix_len_is(prev@, curr@, i as nat);
    }
    let mut suffix: Vec<u8> = Vec::new();
    let mut j: usize = i;
    while j < b_len
        invariant
            i <= j <= b_len,
            b_len == curr@.len(),
            suffix@ =~= curr@.subrange(i as int, j as int),
        decreases b_len - j,
    {
        suffix.push(curr[j]);
        j = j + 1;
    }
    proof {
        assert(suffix@ =~= curr@.skip(i as int));
    }
    (a_len - i, suffix)
}

/// Rebuild the next pathname in place: drop `discard` bytes from the tail of
/// the rolling buffer, then append `delta`.
pub fn delta_decode(path: &mut Vec<u8>, discard: u64, delta: &[u8])
    requires
        discard <= old(path)@.len(),
    ensures
        final(path)@ == old(path)@.take(old(path)@.len() - discard as int) + delta@,
{
    let keep = path.len() - (discard as usize);
    path.truncate(keep);
    let mut j: usize = 0;
    while j < delta.len()
        invariant
            j <= delta@.len(),
            path@ =~= old(path)@.take(old(path)@.len() - discard as int) + delta@.take(j as int),
        decreases delta@.len() - j,
    {
        path.push(delta[j]);
        j = j + 1;
    }
    proof {
        assert(path@ =~= old(path)@.take(old(path)@.len() - discard as int) + delta@);
    }
}

/// Law: for any previous and current pathname, decoding the encoded delta
/// record rebuilds the current pathname exactly.
pub proof fn lemma_delta_round_trip(prev: Seq<u8>, curr: Seq<u8>)
    ensures
        ({
            let n = common_prefix_len(prev, curr) as int;
            prev.take(prev.len() - (prev.len() - n)) + curr.skip(n) == curr
        }),
{
    let n = common_prefix_len(prev, curr) as int;
    lemma_common_prefix_len(prev, curr);
    lemma_common_prefix_len(curr, prev);
    assert(prev.take(n) == curr.take(n)) by {
        lemma_common_prefix_len(prev, curr);
    };
    assert(curr.take(n) + curr.skip(n) =~= curr);
}

} // verus!
