//! Bit-level codec between raw byte streams and field-sized padded frames.
//!
//! A padded stream carries the source bytes as a little-endian bit stream in
//! which every 254 payload bits are followed by two zero bits, so that each
//! 256-bit (32-byte) frame is a valid field element.

use vstd::prelude::*;

verus! {

/// Payload bits carried by each padded frame.
pub const FR_UNPADDED_BITS: usize = 254;

/// Total bits of each padded frame.
pub const FR_PADDED_BITS: usize = 256;

/// Bit `j` of byte `b`, counting from the least significant bit.
pub open spec fn get_bit(b: u8, j: u8) -> bool {
    (b >> j) & 1 == 1
}

/// The little-endian bit stream of a byte sequence.
pub open spec fn bits_of(s: Seq<u8>) -> Seq<bool> {
    Seq::new(s.len() * 8, |k: int| get_bit(s[k / 8], (k % 8) as u8))
}

/// The low `n` bits of a byte, as a bit sequence.
pub open spec fn low_bits(b: u8, n: nat) -> Seq<bool> {
    Seq::new(n, |k: int| get_bit(b, k as u8))
}

/// The padded bit stream of a source bit stream: after every completed group
/// of 254 payload bits, two zero bits are inserted. No padding follows an
/// incomplete final group.
pub open spec fn pad_stream(src: Seq<bool>) -> Seq<bool>
    decreases src.len(),
{
    if src.len() == 0 {
        Seq::empty()
    } else {
        let prev = pad_stream(src.drop_last()).push(src.last());
        if src.len() % 254 == 0 {
            prev.push(false).push(false)
        } else {
            prev
        }
    }
}

/// Length of the padded stream for `n` source bits.
pub open spec fn pad_stream_len(n: nat) -> nat {
    n + 2 * (n / 254)
}

/// Number of frames needed to hold `n` payload bits.
pub open spec fn frame_count(n: nat) -> nat {
    (n + 253) / 254
}

/// The padded stream extended with zero bits to whole 256-bit frames.
pub open spec fn padded_full_bits(src: Seq<bool>) -> Seq<bool> {
    pad_stream(src) + Seq::new((frame_count(src.len()) * 256 - pad_stream_len(src.len())) as nat, |k: int| false)
}

proof fn lemma_pad_stream_len(src: Seq<bool>)
    ensures
        pad_stream(src).len() == pad_stream_len(src.len()),
    decreases src.len(),
{
    if src.len() > 0 {
        lemma_pad_stream_len(src.drop_last());
        let n = src.len();
        if n % 254 == 0 {
            assert((n - 1) / 254 == n / 254 - 1) by (nonlinear_arith)
                requires n > 0 && n % 254 == 0;
        } else {
            assert((n - 1) / 254 == n / 254) by (nonlinear_arith)
                requires n > 0 && n % 254 != 0;
        }
    }
}

/// Every padded-stream position `p` maps back to the source: with `f = p / 256`
/// and `r = p % 256`, positions with `r < 254` carry source bit `f * 254 + r`,
/// and the rest are the inserted zero bits.
proof fn lemma_pad_stream_index(src: Seq<bool>, p: int)
    requires
        0 <= p < pad_stream_len(src.len()),
    ensures
        pad_stream(src).len() == pad_stream_len(src.len()),
        p % 256 < 254 ==> (p / 256) * 254 + p % 256 < src.len()
            && pad_stream(src)[p] == src[(p / 256) * 254 + p % 256],
        p % 256 >= 254 ==> pad_stream(src)[p] == false,
    decreases src.len(),
{
    lemma_pad_stream_len(src);
    let n = src.len() as int;
    let prev = src.drop_last();
    lemma_pad_stream_len(prev);
    let lp = pad_stream_len(prev.len()) as int;
    if n % 254 == 0 {
        assert((n - 1) / 254 == n / 254 - 1) by (nonlinear_arith)
            requires n > 0 && n % 254 == 0;
        // lp == n - 1 + 2 * (n / 254) - 2, and total length is lp + 3.
        if p < lp {
            lemma_pad_stream_index(prev, p);
            if p % 256 < 254 {
                assert(prev[(p / 256) * 254 + p % 256] == src[(p / 256) * 254 + p % 256]);
            }
        } else if p == lp {
            // This position holds src.last(), i.e. source bit n - 1.
            let q = n / 254;
            assert(254 * q == n);
            assert(p == 256 * q - 3);
            assert(p / 256 == q - 1 && p % 256 == 253) by (nonlinear_arith)
                requires p == 256 * q - 3 && q >= 1;
            assert((p / 256) * 254 + p % 256 == n - 1);
            assert(pad_stream(src)[p] == src.last());
        } else {
            // One of the two inserted pad bits.
            let q = n / 254;
            assert(254 * q == n);
            assert(p == 256 * q - 2 || p == 256 * q - 1);
            assert(p % 256 >= 254) by (nonlinear_arith)
                requires (p == 256 * q - 2 || p == 256 * q - 1) && q >= 1;
            assert(pad_stream(src)[p] == false);
        }
    } else {
        assert((n - 1) / 254 == n / 254) by (nonlinear_arith)
            requires n > 0 && n % 254 != 0;
        if p < lp {
            lemma_pad_stream_index(prev, p);
            if p % 256 < 254 {
                assert(prev[(p / 256) * 254 + p % 256] == src[(p / 256) * 254 + p % 256]);
            }
        } else {
            assert(p == lp);
            let q = n / 254;
            let s = n % 254;
            assert(254 * q + s == n) by (nonlinear_arith)
                requires q == n / 254 && s == n % 254;
            assert(p == 254 * q + s - 1 + 2 * q);
            assert(p / 256 == q && p % 256 == s - 1) by (nonlinear_arith)
                requires p == 256 * q + s - 1 && 1 <= s < 254;
            assert((p / 256) * 254 + p % 256 == n - 1);
            assert(pad_stream(src)[p] == src.last());
        }
    }
}

proof fn lemma_zero_bit(j: u8)
    by (bit_vector)
    ensures
        !get_bit(0u8, j),
{
}

proof fn lemma_or_bit_set(acc: u8, j: u8, k: u8)
    by (bit_vector)
    requires
        j < 8,
        k < 8,
    ensures
        j == k ==> get_bit(acc | (1u8 << j), k),
        j != k ==> get_bit(acc | (1u8 << j), k) == get_bit(acc, k),
{
}

proof fn lemma_u8_eq_by_bits(a: u8, b: u8)
    by (bit_vector)
    requires
        get_bit(a, 0) == get_bit(b, 0),
        get_bit(a, 1) == get_bit(b, 1),
        get_bit(a, 2) == get_bit(b, 2),
        get_bit(a, 3) == get_bit(b, 3),
        get_bit(a, 4) == get_bit(b, 4),
        get_bit(a, 5) == get_bit(b, 5),
        get_bit(a, 6) == get_bit(b, 6),
        get_bit(a, 7) == get_bit(b, 7),
    ensures
        a == b,
{
}

/// The byte whose little-endian bits are `s` (at most 8 of them); missing
/// high bits are zero.
pub open spec fn byte_from(s: Seq<bool>) -> u8
    decreases s.len(),
{
    if s.len() == 0 {
        0u8
    } else {
        let rest = byte_from(s.drop_last());
        if s.last() {
            rest | (1u8 << ((s.len() - 1) as u8))
        } else {
            rest
        }
    }
}

pub proof fn lemma_byte_from_bits(s: Seq<bool>, k: u8)
    requires
        s.len() <= 8,
        k < 8,
    ensures
        get_bit(byte_from(s), k) == (k < s.len() && s[k as int]),
    decreases s.len(),
{
    if s.len() == 0 {
        lemma_zero_bit(k);
    } else {
        lemma_byte_from_bits(s.drop_last(), k);
        let j = (s.len() - 1) as u8;
        if s.last() {
            lemma_or_bit_set(byte_from(s.drop_last()), j, k);
        }
    }
}

/// The byte sequence packing a bit stream, low bits first; the final byte is
/// zero-extended when the stream ends mid-byte.
pub open spec fn bytes_from_bits(bits: Seq<bool>) -> Seq<u8> {
    Seq::new((bits.len() + 7) / 8, |i: int| byte_from(bits.subrange(8 * i, if 8 * i + 8 <= bits.len() { 8 * i + 8 } else { bits.len() as int })))
}

/// What `write_padded` returns for a given source.
pub open spec fn spec_write_padded(src: Seq<u8>) -> Seq<u8> {
    bytes_from_bits(padded_full_bits(bits_of(src)))
}

/// Number of payload bits carried by a padded stream of `m` bits.
pub open spec fn payload_len(m: nat) -> nat {
    254 * (m / 256) + if m % 256 <= 254 { m % 256 } else { 254 }
}

/// The payload bits of a padded stream: the low 254 bits of every 256-bit frame.
pub open spec fn unpad_bits(stream: Seq<bool>) -> Seq<bool> {
    Seq::new(payload_len(stream.len()), |i: int| stream[256 * (i / 254) + i % 254])
}

/// What `write_unpadded` returns: the payload of `src` repacked into bytes,
/// skipping `offset` output bytes and emitting at most `len` of them.
pub open spec fn spec_write_unpadded(src: Seq<u8>, offset: nat, len: nat) -> Seq<u8> {
    let pl = unpad_bits(bits_of(src));
    let avail = (pl.len() + 7) / 8;
    if offset >= avail {
        Seq::empty()
    } else {
        let count = if len <= avail - offset { len } else { (avail - offset) as nat };
        Seq::new(count, |i: int| byte_from(pl.subrange(8 * (offset + i), if 8 * (offset + i) + 8 <= pl.len() { 8 * (offset + i) + 8 } else { pl.len() as int })))
    }
}

proof fn lemma_pad_len_le_frames(n: nat)
    ensures
        pad_stream_len(n) <= frame_count(n) * 256,
        frame_count(n) * 256 % 8 == 0,
{
    let q = n / 254;
    let s = n % 254;
    assert(254 * q + s == n) by (nonlinear_arith)
        requires q == n / 254 && s == n % 254;
    assert(frame_count(n) == q + (s + 253) / 254) by (nonlinear_arith)
        requires q == n / 254 && s == n % 254 && s < 254;
    assert((q + (s + 253) / 254) * 256 == 256 * q + 256 * ((s + 253) / 254)) by (nonlinear_arith);
    assert(frame_count(n) * 256 % 8 == 0) by (nonlinear_arith);
}

/// Pointwise description of the frame-padded stream.
proof fn lemma_padded_full_index(src: Seq<bool>, p: int)
    requires
        0 <= p < frame_count(src.len()) * 256,
    ensures
        padded_full_bits(src).len() == frame_count(src.len()) * 256,
        padded_full_bits(src)[p] == (p % 256 < 254 && (p / 256) * 254 + p % 256 < src.len()
            && src[(p / 256) * 254 + p % 256]),
{
    lemma_pad_stream_len(src);
    lemma_pad_len_le_frames(src.len());
    let n = src.len() as int;
    if p < pad_stream_len(src.len()) {
        lemma_pad_stream_index(src, p);
    } else {
        // A zero bit of the final frame filler: show the source index, if any,
        // is out of range.
        if p % 256 < 254 {
            let f = p / 256;
            let r = p % 256;
            assert(256 * f + r == p) by (nonlinear_arith)
                requires f == p / 256 && r == p % 256;
            let q = n / 254;
            let s = n % 254;
            assert(254 * q + s == n && 0 <= s < 254) by (nonlinear_arith)
                requires q == n / 254 && s == n % 254;
            if f <= q {
                assert(254 * f + r >= n) by (nonlinear_arith)
                    requires
                        256 * f + r >= n + 2 * q && 254 * q + s == n && f <= q && 0 <= s,
                ;
            } else {
                assert(254 * f + r >= n) by (nonlinear_arith)
                    requires f >= q + 1 && 254 * q + s == n && s < 254 && r >= 0;
            }
        }
    }
}

/// Reads bit `q` of the little-endian bit stream of `s`.
fn read_bit(s: &[u8], q: usize) -> (r: bool)
    requires
        q < s@.len() * 8,
    ensures
        r == bits_of(s@)[q as int],
{
    let byte: u8 = s[q / 8];
    (byte >> ((q % 8) as u8)) & 1 == 1
}

/// Reads bit `q` of the little-endian bit stream of `s`, with a wide index
/// so that streams of more than half a billion bytes stay addressable.
fn read_bit64(s: &[u8], q: u64) -> (r: bool)
    requires
        (q as int) < s@.len() * 8,
    ensures
        r == bits_of(s@)[q as int],
{
    proof {
        vstd::arithmetic::div_mod::lemma_fundamental_div_mod(q as int, 8);
        vstd::arithmetic::div_mod::lemma_mod_bound(q as int, 8);
    }
    let byte: u8 = s[(q / 8) as usize];
    (byte >> ((q % 8) as u8)) & 1 == 1
}

/// Builds the byte whose bits are given by positions `start .. start + 8` of
/// the frame-padded stream of `src` (zero where the stream has ended).
fn padded_byte(src: &[u8], start: usize) -> (r: u8)
    requires
        src@.len() <= 0x0800_0000,
        start % 8 == 0,
        start < frame_count(src@.len() * 8) * 256,
    ensures
        r == byte_from(padded_full_bits(bits_of(src@)).subrange(start as int, start + 8)),
{
    let ghost pb = padded_full_bits(bits_of(src@));
    proof {
        lemma_pad_stream_len(bits_of(src@));
        lemma_pad_len_le_frames(bits_of(src@).len());
        lemma_frames_bound(src@.len() * 8);
        assert((src@.len() * 8) / 254 <= src@.len() * 8) by (nonlinear_arith);
        // start + 8 <= frames * 256 since both are multiples of 8.
        assert(start + 8 <= frame_count(src@.len() * 8) * 256) by (nonlinear_arith)
            requires
                start % 8 == 0,
                start < frame_count(src@.len() * 8) * 256,
                frame_count(src@.len() * 8) * 256 % 8 == 0,
        ;
    }
    let nbits: usize = src.len() * 8;
    let mut acc: u8 = 0;
    let mut j: usize = 0;
    proof {
        assert forall|k: u8| k < 8 implies !get_bit(0u8, k) by { lemma_zero_bit(k); }
    }
    while j < 8
        invariant
            j <= 8,
            src@.len() <= 0x0800_0000,
            nbits == src@.len() * 8,
            start % 8 == 0,
            start + 8 <= frame_count(src@.len() * 8) * 256,
            frame_count(src@.len() * 8) * 256 <= 0xC000_0300,
            pb == padded_full_bits(bits_of(src@)),
            pb.len() == frame_count(src@.len() * 8) * 256,
            forall|k: u8| k < j ==> get_bit(acc, k) == pb[start + k],
            forall|k: u8| j <= k < 8 ==> !get_bit(acc, k),
        decreases 8 - j,
    {
        let p: usize = start + j;
        let f: usize = p / 256;
        let r: usize = p % 256;
        proof {
            lemma_padded_full_index(bits_of(src@), p as int);
            vstd::arithmetic::div_mod::lemma_fundamental_div_mod(p as int, 256);
        }
        let bit: bool = if r < 254 {
            // q == f * 254 + r, written without the multiplication overflowing.
            let q: usize = p - 2 * f;
            if q < nbits {
                read_bit(src, q)
            } else {
                false
            }
        } else {
            false
        };
        let ghost old_acc = acc;
        if bit {
            acc = acc | (1u8 << (j as u8));
            proof {
                assert forall|k: u8| k < 8 implies get_bit(acc, k) == (if k == j { true } else { get_bit(old_acc, k) }) by {
                    lemma_or_bit_set(old_acc, j as u8, k);
                }
            }
        }
        proof {
            assert(get_bit(acc, j as u8) == pb[start + j]);
        }
        j = j + 1;
    }
    proof {
        let sub = pb.subrange(start as int, start + 8);
        assert forall|k: u8| k < 8 implies get_bit(byte_from(sub), k) == get_bit(acc, k) by {
            lemma_byte_from_bits(sub, k);
            assert(sub[k as int] == pb[start + k]);
        }
        lemma_u8_eq_by_bits(byte_from(sub), acc);
    }
    acc
}

proof fn lemma_frames_bound(n: nat)
    ensures
        frame_count(n) * 256 <= n + 2 * (n / 254) + 256,
{
    let q = n / 254;
    let s = n % 254;
    assert(254 * q + s == n && s < 254) by (nonlinear_arith)
        requires q == n / 254 && s == n % 254;
    assert(frame_count(n) == q + (s + 253) / 254) by (nonlinear_arith)
        requires q == n / 254 && s == n % 254 && s < 254;
    assert((s + 253) / 254 <= 1) by (nonlinear_arith)
        requires s < 254;
    assert((q + (s + 253) / 254) * 256 <= 256 * q + 256) by (nonlinear_arith)
        requires (s + 253) / 254 <= 1 && q >= 0;
}

/// Packs `source` into zero-filled 256-bit frames of 254 payload bits each
/// and returns the padded bytes; their count is a multiple of 32.
pub fn write_padded(source: &[u8]) -> (r: Vec<u8>)
    requires
        source@.len() <= 0x0800_0000,
    ensures
        r@ == spec_write_padded(source@),
        r@.len() == frame_count(source@.len() * 8) * 32,
{
    let ghost pb = padded_full_bits(bits_of(source@));
    proof {
        lemma_pad_stream_len(bits_of(source@));
        lemma_pad_len_le_frames(bits_of(source@).len());
        lemma_frames_bound(source@.len() * 8);
    }
    let nbits: usize = source.len() * 8;
    let frames: usize = (nbits + 253) / 254;
    proof {
        vstd::arithmetic::div_mod::lemma_fundamental_div_mod((nbits + 253) as int, 254);
        vstd::arithmetic::div_mod::lemma_mod_bound((nbits + 253) as int, 254);
        assert(254 * (((nbits + 253) as int) / 254) <= nbits + 253);
        assert(frames <= 0x0041_0000);
    }
    let out_len: usize = frames * 32;
    proof {
        assert(frames * 32 * 8 == frames * 256) by (nonlinear_arith);
    }
    let mut out: Vec<u8> = Vec::new();
    let mut i: usize = 0;
    while i < out_len
        invariant
            i <= out_len,
            source@.len() <= 0x0800_0000,
            nbits == source@.len() * 8,
            frames == frame_count(nbits as nat),
            out_len == frames * 32,
            frames <= 0x0041_0000,
            frames * 32 * 8 == frames * 256,
            pb == padded_full_bits(bits_of(source@)),
            pb.len() == frames * 256,
            out@.len() == i,
            forall|ii: int| 0 <= ii < i ==> out@[ii] == byte_from(pb.subrange(8 * ii, 8 * ii + 8)),
        decreases out_len - i,
    {
        proof {
            assert(8 * i + 8 <= frames * 256) by (nonlinear_arith)
                requires i < frames * 32 && frames * 32 * 8 == frames * 256;
        }
        let b: u8 = padded_byte(source, 8 * i);
        out.push(b);
        i = i + 1;
    }
    proof {
        let expected = spec_write_padded(source@);
        assert(expected.len() == (pb.len() + 7) / 8);
        assert((frames * 256 + 7) / 8 == frames * 32) by (nonlinear_arith);
        assert forall|ii: int| 0 <= ii < out_len implies expected[ii] == out@[ii] by {
            assert(8 * ii + 8 <= pb.len()) by (nonlinear_arith)
                requires ii < frames * 32 && pb.len() == frames * 256;
        }
        assert(out@ =~= expected);
    }
    out
}

proof fn lemma_div8(k: int, j: int)
    by (nonlinear_arith)
    requires
        0 <= j < 8,
        0 <= k,
    ensures
        (8 * k + j) / 8 == k,
        (8 * k + j) % 8 == j,
{
}

/// The bits of a byte taken back out of `byte_from` are the byte itself.
proof fn lemma_byte_from_byte_bits(b: u8, s: Seq<bool>)
    requires
        s.len() == 8,
        forall|k: u8| k < 8 ==> s[k as int] == get_bit(b, k),
    ensures
        byte_from(s) == b,
{
    assert forall|k: u8| k < 8 implies get_bit(byte_from(s), k) == get_bit(b, k) by {
        lemma_byte_from_bits(s, k);
    }
    lemma_u8_eq_by_bits(byte_from(s), b);
}

/// Packing a byte-aligned bit stream into bytes and reading it back bitwise
/// is the identity.
proof fn lemma_bits_of_bytes_from_bits(bits: Seq<bool>)
    requires
        bits.len() % 8 == 0,
    ensures
        bytes_from_bits(bits).len() * 8 == bits.len(),
        bits_of(bytes_from_bits(bits)) =~= bits,
{
    let bytes = bytes_from_bits(bits);
    assert(bytes.len() == bits.len() / 8) by (nonlinear_arith)
        requires bits.len() % 8 == 0 && bytes.len() == (bits.len() + 7) / 8;
    assert(bytes.len() * 8 == bits.len()) by (nonlinear_arith)
        requires bits.len() % 8 == 0 && bytes.len() == bits.len() / 8;
    assert forall|q: int| 0 <= q < bits.len() implies bits_of(bytes)[q] == bits[q] by {
        let k = q / 8;
        let j = q % 8;
        vstd::arithmetic::div_mod::lemma_fundamental_div_mod(q, 8);
        lemma_div8(k, j);
        assert(8 * k + 8 <= bits.len()) by (nonlinear_arith)
            requires 8 * k + j == q && q < bits.len() && bits.len() % 8 == 0 && 0 <= j < 8;
        let sub = bits.subrange(8 * k, 8 * k + 8);
        lemma_byte_from_bits(sub, j as u8);
        assert(bits_of(bytes)[q] == get_bit(bytes[k], j as u8));
    }
}

proof fn lemma_payload_index(m: nat, i: int)
    requires
        0 <= i < payload_len(m),
    ensures
        256 * (i / 254) + i % 254 < m,
        256 * (i / 254) + i % 254 == i + 2 * (i / 254),
{
    let f = i / 254;
    let t = i % 254;
    vstd::arithmetic::div_mod::lemma_fundamental_div_mod(i, 254);
    vstd::arithmetic::div_mod::lemma_mod_bound(i, 254);
    let mq = m / 256;
    let mr = m % 256;
    vstd::arithmetic::div_mod::lemma_fundamental_div_mod(m as int, 256);
    vstd::arithmetic::div_mod::lemma_mod_bound(m as int, 256);
    // payload_len(m) == 254 * mq + min(mr, 254), so f <= mq.
    assert(f <= mq) by (nonlinear_arith)
        requires
            254 * f + t == i && 0 <= t < 254 && i < 254 * mq + 254 && 0 <= mq,
    ;
    if f < mq {
        assert(256 * f + t < 256 * mq) by (nonlinear_arith)
            requires f < mq && t < 254;
    } else {
        assert(t < (if mr <= 254 { mr } else { 254 }));
    }
}

/// The payload of the frame padding of a stream is that stream followed by
/// zero filler.
#[verifier::rlimit(100)]
proof fn lemma_unpad_of_pad(src: Seq<bool>)
    ensures
        unpad_bits(padded_full_bits(src)).len() == 254 * frame_count(src.len()),
        src.len() <= 254 * frame_count(src.len()),
        forall|i: int| 0 <= i < src.len() ==> unpad_bits(padded_full_bits(src))[i] == src[i],
        forall|i: int| src.len() <= i < 254 * frame_count(src.len())
            ==> unpad_bits(padded_full_bits(src))[i] == false,
{
    let n = src.len();
    lemma_pad_stream_len(src);
    lemma_pad_len_le_frames(n);
    let pb = padded_full_bits(src);
    let m = pb.len();
    let frames = frame_count(n);
    assert(m == frames * 256);
    assert(m / 256 == frames && m % 256 == 0) by (nonlinear_arith)
        requires m == frames * 256 && frames >= 0;
    assert(payload_len(m as nat) == 254 * frames);
    assert(n <= 254 * frames) by (nonlinear_arith)
        requires frames == (n + 253) / 254;
    assert forall|i: int| 0 <= i < 254 * frames implies unpad_bits(pb)[i]
        == (i < n && src[i]) by {
        lemma_payload_index(m as nat, i);
        let pos = 256 * (i / 254) + i % 254;
        lemma_padded_full_index(src, pos);
        vstd::arithmetic::div_mod::lemma_fundamental_div_mod(i, 254);
        vstd::arithmetic::div_mod::lemma_mod_bound(i, 254);
        assert(pos / 256 == i / 254 && pos % 256 == i % 254) by (nonlinear_arith)
            requires pos == 256 * (i / 254) + i % 254 && 0 <= i % 254 < 254 && 0 <= i / 254;
        assert((pos / 256) * 254 + pos % 256 == i);
    }
}

/// Round trip: unpadding a padded stream returns any chosen range of the
/// original bytes.
#[verifier::rlimit(100)]
pub proof fn lemma_codec_round_trip(src: Seq<u8>, offset: nat, len: nat)
    requires
        offset + len <= src.len(),
    ensures
        spec_write_unpadded(spec_write_padded(src), offset, len) =~= src.subrange(
            offset as int,
            (offset + len) as int,
        ),
{
    let srcb = bits_of(src);
    let n = srcb.len();
    let frames = frame_count(n);
    lemma_pad_stream_len(srcb);
    lemma_pad_len_le_frames(n);
    let pb = padded_full_bits(srcb);
    assert(pb.len() == frames * 256);
    assert(pb.len() % 8 == 0) by (nonlinear_arith)
        requires pb.len() == frames * 256;
    lemma_bits_of_bytes_from_bits(pb);
    let padded = spec_write_padded(src);
    assert(bits_of(padded) =~= pb);
    lemma_unpad_of_pad(srcb);
    let pl = unpad_bits(pb);
    assert(pl.len() == 254 * frames);
    let avail = (pl.len() + 7) / 8;
    assert(8 * src.len() == n);
    assert(src.len() <= avail) by (nonlinear_arith)
        requires 8 * src.len() <= 254 * frames && avail == (254 * frames + 7) / 8;
    if len == 0 {
        if offset < avail {
            assert(spec_write_unpadded(padded, offset, len).len() == 0);
        }
    } else {
        assert(offset < avail);
        let count = if len <= avail - offset { len as int } else { avail - offset };
        assert(count == len);
        let result = spec_write_unpadded(padded, offset, len);
        assert(result.len() == len);
        assert forall|i: int| 0 <= i < len implies result[i] == src[offset + i] by {
            let base = 8 * (offset + i);
            assert(base + 8 <= n) by (nonlinear_arith)
                requires base == 8 * (offset + i) && offset + i < src.len() && n == 8 * src.len();
            let sub = pl.subrange(base, base + 8);
            assert forall|k: u8| k < 8 implies sub[k as int] == get_bit(src[offset + i], k) by {
                assert(pl[base + k] == srcb[base + k]);
                lemma_div8(offset + i, k as int);
                assert(srcb[base + k] == get_bit(src[offset + i], k));
            }
            lemma_byte_from_byte_bits(src[offset + i], sub);
        }
    }
}

/// Builds output byte `k` of the unpadded stream: payload bits
/// `8k .. 8k + 8`, zero once the payload has ended.
fn unpadded_byte(src: &[u8], k: usize) -> (r: u8)
    requires
        src@.len() <= 0x4000_0000,
        8 * k < payload_len(src@.len() * 8),
    ensures
        r == byte_from(unpad_bits(bits_of(src@)).subrange(8 * k as int,
            if 8 * k + 8 <= payload_len(src@.len() * 8) { 8 * k + 8 as int } else { payload_len(src@.len() * 8) as int })),
{
    let ghost pl = unpad_bits(bits_of(src@));
    let nbits: u64 = (src.len() as u64) * 8;
    let q256: u64 = nbits / 256;
    let r256: u64 = nbits % 256;
    proof {
        assert(nbits == src@.len() * 8);
        assert(254 * q256 <= nbits) by (nonlinear_arith)
            requires q256 == nbits / 256 && nbits >= 0;
    }
    let plen: u64 = 254 * q256 + if r256 <= 254 { r256 } else { 254 };
    assert(plen == payload_len(src@.len() * 8));
    let ghost hi = if 8 * (k as int) + 8 <= plen as int { 8 * (k as int) + 8 } else { plen as int };
    let mut acc: u8 = 0;
    let mut j: u64 = 0;
    proof {
        assert forall|kk: u8| kk < 8 implies !get_bit(0u8, kk) by { lemma_zero_bit(kk); }
    }
    while j < 8
        invariant
            j <= 8,
            src@.len() <= 0x4000_0000,
            nbits == src@.len() * 8,
            plen == payload_len(src@.len() * 8),
            8 * k < plen,
            plen <= nbits,
            pl == unpad_bits(bits_of(src@)),
            pl.len() == plen,
            hi == if 8 * (k as int) + 8 <= plen as int { 8 * (k as int) + 8 } else { plen as int },
            forall|kk: u8| kk < j ==> get_bit(acc, kk) == (8 * (k as int) + kk < plen && pl[8 * (k as int) + kk]),
            forall|kk: u8| j <= kk < 8 ==> !get_bit(acc, kk),
        decreases 8 - j,
    {
        let idx: u64 = 8 * (k as u64) + j;
        let bit: bool = if idx < plen {
            proof {
                lemma_payload_index(nbits as nat, idx as int);
            }
            let f: u64 = idx / 254;
            let pos: u64 = idx + 2 * f;
            proof {
                vstd::arithmetic::div_mod::lemma_fundamental_div_mod(idx as int, 254);
            }
            read_bit64(src, pos)
        } else {
            false
        };
        let ghost old_acc = acc;
        if bit {
            acc = acc | (1u8 << (j as u8));
            proof {
                assert forall|kk: u8| kk < 8 implies get_bit(acc, kk) == (if kk == j { true } else { get_bit(old_acc, kk) }) by {
                    lemma_or_bit_set(old_acc, j as u8, kk);
                }
            }
        }
        j = j + 1;
    }
    proof {
        let sub = pl.subrange(8 * (k as int), hi);
        assert forall|kk: u8| kk < 8 implies get_bit(byte_from(sub), kk) == get_bit(acc, kk) by {
            lemma_byte_from_bits(sub, kk);
        }
        lemma_u8_eq_by_bits(byte_from(sub), acc);
    }
    acc
}

/// The padded image of any `write_padded`-sized source fits within
/// `write_unpadded`'s own input bound, so the two compose on every valid
/// source.
pub proof fn lemma_padded_fits_unpadded_cap(n: nat)
    requires
        n <= 0x0800_0000,
    ensures
        frame_count(n * 8) * 32 <= 0x4000_0000,
{
    lemma_frames_bound(n * 8);
    let m = n * 8;
    let d = m / 254;
    vstd::arithmetic::div_mod::lemma_fundamental_div_mod(m as int, 254);
    vstd::arithmetic::div_mod::lemma_mod_bound(m as int, 254);
    assert(254 * d <= m);
    assert(d <= 4227330);
    assert(frame_count(m) * 256 <= 1082196740);
    assert(frame_count(m) * 256 == 8 * (frame_count(m) * 32)) by (nonlinear_arith);
}

/// Inverse of `write_padded`: extracts the low 254 bits of every 256-bit
/// frame of `source`, repacks them as bytes, skips the first `offset` output
/// bytes and returns at most `len` of them.
pub fn write_unpadded(source: &[u8], offset: usize, len: usize) -> (r: Vec<u8>)
    requires
        source@.len() <= 0x4000_0000,
    ensures
        r@ == spec_write_unpadded(source@, offset as nat, len as nat),
{
    let ghost pl = unpad_bits(bits_of(source@));
    let nbits: u64 = (source.len() as u64) * 8;
    let q256: u64 = nbits / 256;
    let r256: u64 = nbits % 256;
    proof {
        assert(nbits == source@.len() * 8);
        assert(254 * q256 <= nbits) by (nonlinear_arith)
            requires q256 == nbits / 256 && nbits >= 0;
    }
    let plen: u64 = 254 * q256 + if r256 <= 254 { r256 } else { 254 };
    assert(plen == payload_len(source@.len() * 8));
    let avail64: u64 = (plen + 7) / 8;
    proof {
        vstd::arithmetic::div_mod::lemma_fundamental_div_mod(plen as int + 7, 8);
        vstd::arithmetic::div_mod::lemma_mod_bound(plen as int + 7, 8);
        assert(avail64 <= source@.len());
    }
    let avail: usize = avail64 as usize;
    let mut out: Vec<u8> = Vec::new();
    if offset >= avail {
        assert(out@ =~= spec_write_unpadded(source@, offset as nat, len as nat));
        return out;
    }
    let count: usize = if len <= avail - offset { len } else { avail - offset };
    let mut i: usize = 0;
    while i < count
        invariant
            i <= count,
            source@.len() <= 0x4000_0000,
            nbits == source@.len() * 8,
            plen == payload_len(source@.len() * 8),
            plen <= nbits,
            avail == (plen as int + 7) / 8,
            offset < avail,
            count == if len <= avail - offset { len as int } else { avail - offset },
            pl == unpad_bits(bits_of(source@)),
            pl.len() == plen,
            out@.len() == i,
            forall|ii: int| 0 <= ii < i ==> out@[ii] == byte_from(pl.subrange(8 * (offset + ii),
                if 8 * (offset + ii) + 8 <= plen as int { 8 * (offset + ii) + 8 } else { plen as int })),
        decreases count - i,
    {
        proof {
            assert(8 * (offset + i) < plen) by (nonlinear_arith)
                requires offset + i < avail && avail == (plen as int + 7) / 8 && plen >= 0;
        }
        let b: u8 = unpadded_byte(source, offset + i);
        out.push(b);
        i = i + 1;
    }
    proof {
        let expected = spec_write_unpadded(source@, offset as nat, len as nat);
        assert(expected.len() == count);
        assert(out@ =~= expected);
    }
    out
}

proof fn lemma_bits_of_push(s: Seq<u8>, b: u8)
    ensures
        bits_of(s.push(b)) =~= bits_of(s) + low_bits(b, 8),
{
    assert forall|q: int| 0 <= q < bits_of(s.push(b)).len() implies bits_of(s.push(b))[q]
        == (bits_of(s) + low_bits(b, 8))[q] by {
        if q < s.len() * 8 {
            assert(q / 8 < s.len()) by (nonlinear_arith)
                requires 0 <= q < s.len() * 8;
            assert(s.push(b)[q / 8] == s[q / 8]);
        } else {
            lemma_div8(s.len() as int, q - s.len() * 8);
            assert(q == 8 * (s.len() as int) + (q - s.len() * 8));
            assert(q / 8 == s.len() && q % 8 == q - s.len() * 8);
            assert(s.push(b)[q / 8] == b);
        }
    }
}

/// A streaming writer that pads a little-endian bit stream on the fly:
/// after every 254 payload bits it inserts two zero bits, retains any
/// sub-byte residue between calls, and commits the final partial byte on
/// `finish`.
pub struct Fr32Writer {
    inner: Vec<u8>,
    prefix: u8,
    prefix_size: usize,
    bits_needed: usize,
    base: Ghost<Seq<u8>>,
    consumed: Ghost<Seq<u8>>,
}

impl Fr32Writer {
    /// The inner buffer still starts with what the sink held at creation.
    pub closed spec fn buffer_ok(self) -> bool {
        self.base@.is_prefix_of(self.inner@)
    }

    /// The bytes the sink held when the writer was created.
    pub closed spec fn initial(self) -> Seq<u8> {
        self.base@
    }

    /// Bytes emitted by this writer so far (beyond what `inner` already held).
    pub closed spec fn emitted(self) -> Seq<u8> {
        self.inner@.subrange(self.base@.len() as int, self.inner@.len() as int)
    }

    /// All bits produced so far: whole emitted bytes plus the pending residue.
    pub closed spec fn out_bits(self) -> Seq<bool> {
        bits_of(self.emitted()) + low_bits(self.prefix, self.prefix_size as nat)
    }

    /// The source bytes accepted so far.
    pub closed spec fn consumed_bytes(self) -> Seq<u8> {
        self.consumed@
    }

    /// Machine-level well-formedness with respect to a source bit stream.
    pub closed spec fn wf_bits(self, src: Seq<bool>) -> bool {
        &&& self.base@.is_prefix_of(self.inner@)
        &&& self.prefix_size < 8
        &&& forall|k: u8| self.prefix_size <= k < 8 ==> !get_bit(self.prefix, k)
        &&& self.bits_needed == 254 - src.len() % 254
        &&& self.out_bits() == pad_stream(src)
    }

    /// The writer state corresponds exactly to the source bytes accepted so far.
    pub closed spec fn wf(self) -> bool {
        self.wf_bits(bits_of(self.consumed@))
    }

    /// The writer after `finish`: the residue is committed and everything
    /// emitted is the byte-packed padded stream of all consumed bytes.
    pub closed spec fn finished(self) -> bool {
        &&& self.buffer_ok()
        &&& self.prefix_size == 0
        &&& self.prefix == 0
        &&& self.emitted() == bytes_from_bits(pad_stream(bits_of(self.consumed@)))
    }

    pub fn new(inner: Vec<u8>) -> (w: Fr32Writer)
        ensures
            w.wf(),
            w.buffer_ok(),
            w.consumed_bytes() == Seq::<u8>::empty(),
            w.initial() == inner@,
            w.emitted() == Seq::<u8>::empty(),
            w.spec_bits_needed() == 254,
            w.spec_prefix() == (0u8, 0nat),
    {
        let w = Fr32Writer {
            base: Ghost(inner@),
            inner,
            prefix: 0,
            prefix_size: 0,
            bits_needed: 254,
            consumed: Ghost(Seq::empty()),
        };
        proof {
            assert forall|k: u8| k < 8 implies !get_bit(0u8, k) by { lemma_zero_bit(k); }
            assert(w.emitted() =~= Seq::<u8>::empty());
            assert(bits_of(Seq::<u8>::empty()) =~= Seq::<bool>::empty());
            assert(low_bits(0u8, 0) =~= Seq::<bool>::empty());
            assert(w.out_bits() =~= pad_stream(bits_of(Seq::<u8>::empty())));
        }
        w
    }

    /// Appends one raw bit to the output stream, flushing a completed byte.
    fn emit_bit(&mut self, bit: bool)
        requires
            old(self).prefix_size < 8,
            forall|k: u8| old(self).prefix_size <= k < 8 ==> !get_bit(old(self).prefix, k),
            old(self).base@.is_prefix_of(old(self).inner@),
        ensures
            final(self).prefix_size < 8,
            forall|k: u8| final(self).prefix_size <= k < 8 ==> !get_bit(final(self).prefix, k),
            final(self).base@.is_prefix_of(final(self).inner@),
            final(self).base == old(self).base,
            final(self).consumed == old(self).consumed,
            final(self).bits_needed == old(self).bits_needed,
            final(self).out_bits() =~= old(self).out_bits().push(bit),
            old(self).inner@.is_prefix_of(final(self).inner@),
            final(self).inner@.len() <= old(self).inner@.len() + 1,
    {
        let ghost pre = *self;
        let j = self.prefix_size;
        if bit {
            self.prefix = self.prefix | (1u8 << (j as u8));
        }
        self.prefix_size = j + 1;
        proof {
            assert forall|k: u8| k < 8 implies get_bit(self.prefix, k)
                == (if k as int == j as int { bit } else { get_bit(pre.prefix, k) }) by {
                if bit {
                    lemma_or_bit_set(pre.prefix, j as u8, k);
                }
            }
            assert(low_bits(self.prefix, self.prefix_size as nat)
                =~= low_bits(pre.prefix, pre.prefix_size as nat).push(bit));
        }
        if self.prefix_size == 8 {
            let ghost mid = *self;
            let b = self.prefix;
            self.inner.push(b);
            self.prefix = 0;
            self.prefix_size = 0;
            proof {
                assert forall|k: u8| k < 8 implies !get_bit(0u8, k) by { lemma_zero_bit(k); }
                assert(self.emitted() =~= mid.emitted().push(b));
                lemma_bits_of_push(mid.emitted(), b);
                assert(low_bits(b, 8) =~= low_bits(mid.prefix, mid.prefix_size as nat));
                assert(low_bits(0u8, 0) =~= Seq::<bool>::empty());
                assert(self.out_bits() =~= mid.out_bits());
            }
        }
    }

    /// Appends one payload bit, inserting the two zero pad bits whenever a
    /// 254-bit group completes.
    fn push_payload_bit(&mut self, bit: bool, Ghost(src): Ghost<Seq<bool>>)
        requires
            old(self).wf_bits(src),
            src.len() < 0x4000_0000,
        ensures
            final(self).wf_bits(src.push(bit)),
            final(self).base == old(self).base,
            final(self).consumed == old(self).consumed,
            old(self).inner@.is_prefix_of(final(self).inner@),
            final(self).inner@.len() <= old(self).inner@.len() + 2,
    {
        proof {
            assert(src.len() % 254 < 254) by (nonlinear_arith);
        }
        self.emit_bit(bit);
        let n = self.bits_needed - 1;
        proof {
            assert(src.push(bit).drop_last() =~= src);
            if n == 0 {
                assert(src.len() % 254 == 253);
                assert((src.len() + 1) % 254 == 0) by (nonlinear_arith)
                    requires src.len() % 254 == 253;
            } else {
                assert((src.len() + 1) % 254 == src.len() % 254 + 1) by (nonlinear_arith)
                    requires src.len() % 254 < 253;
            }
        }
        if n == 0 {
            self.emit_bit(false);
            self.emit_bit(false);
            self.bits_needed = 254;
        } else {
            self.bits_needed = n;
        }
    }

    /// Feeds `buf` into the padded stream and returns how many whole output
    /// bytes this call emitted; up to 7 trailing bits stay pending until
    /// `finish` or further writes.
    pub fn write(&mut self, buf: &[u8]) -> (n: usize)
        requires
            old(self).wf(),
            old(self).consumed_bytes().len() + buf@.len() <= 0x0080_0000,
        ensures
            final(self).wf(),
            final(self).buffer_ok(),
            final(self).consumed_bytes() == old(self).consumed_bytes() + buf@,
            final(self).initial() == old(self).initial(),
            old(self).emitted().is_prefix_of(final(self).emitted()),
            n == final(self).emitted().len() - old(self).emitted().len(),
    {
        let start_len = self.inner.len();
        let mut i: usize = 0;
        let ghost base_consumed = self.consumed@;
        while i < buf.len()
            invariant
                i <= buf@.len(),
                base_consumed.len() + buf@.len() <= 0x0080_0000,
                self.consumed@ == base_consumed + buf@.subrange(0, i as int),
                self.wf(),
                self.base == old(self).base,
                old(self).inner@.is_prefix_of(self.inner@),
                start_len <= self.inner@.len(),
            decreases buf@.len() - i,
        {
            let b = buf[i];
            let mut j: usize = 0;
            let ghost cur = self.consumed@;
            while j < 8
                invariant
                    j <= 8,
                    b == buf@[i as int],
                    0 <= i < buf@.len(),
                    cur.len() <= 0x0080_0000,
                    self.wf_bits(bits_of(cur) + low_bits(b, j as nat)),
                    self.consumed@ == cur,
                    self.base == old(self).base,
                    old(self).inner@.is_prefix_of(self.inner@),
                    start_len <= self.inner@.len(),
                decreases 8 - j,
            {
                proof {
                    assert((bits_of(cur) + low_bits(b, j as nat)).push(get_bit(b, j as u8))
                        =~= bits_of(cur) + low_bits(b, (j + 1) as nat));
                }
                let bit = (b >> (j as u8)) & 1 == 1;
                self.push_payload_bit(bit, Ghost(bits_of(cur) + low_bits(b, j as nat)));
                j = j + 1;
            }
            proof {
                lemma_bits_of_push(cur, b);
                assert(bits_of(cur) + low_bits(b, 8) =~= bits_of(cur.push(b)));
                assert(cur.push(b) =~= base_consumed + buf@.subrange(0, i + 1));
            }
            self.consumed = Ghost(self.consumed@.push(b));
            i = i + 1;
        }
        proof {
            assert(buf@.subrange(0, buf@.len() as int) =~= buf@);
        }
        self.inner.len() - start_len
    }

    /// Commits the pending residue, zero-padded to a whole byte. Afterwards
    /// the inner buffer holds exactly the byte-packed padded stream of
    /// everything written.
    pub fn finish(&mut self) -> (n: usize)
        requires
            old(self).wf() || old(self).finished(),
        ensures
            n <= 1,
            final(self).finished(),
            final(self).buffer_ok(),
            final(self).consumed_bytes() == old(self).consumed_bytes(),
            final(self).initial() == old(self).initial(),
            old(self).emitted().is_prefix_of(final(self).emitted()),
            n == final(self).emitted().len() - old(self).emitted().len(),
            final(self).emitted() == bytes_from_bits(pad_stream(bits_of(old(self).consumed_bytes()))),
            old(self).finished() ==> n == 0 && *final(self) == *old(self),
    {
        let ghost pre = *self;
        let ghost stream = pad_stream(bits_of(self.consumed@));
        let n: usize;
        if self.prefix_size > 0 {
            let b = self.prefix;
            self.inner.push(b);
            self.prefix = 0;
            self.prefix_size = 0;
            n = 1;
        } else {
            n = 0;
        }
        proof {
            if !pre.wf() {
                // Already finished: nothing was pending and nothing changed.
                assert(*self == pre);
                assert(self.emitted() == bytes_from_bits(stream));
            } else {
            lemma_pad_stream_len(bits_of(pre.consumed@));
            let el = pre.emitted().len() as int;
            assert(stream.len() == 8 * el + pre.prefix_size);
            let packed = bytes_from_bits(stream);
            assert(packed.len() == (8 * el + pre.prefix_size + 7) / 8);
            if pre.prefix_size > 0 {
                assert(packed.len() == el + 1) by (nonlinear_arith)
                    requires
                        packed.len() == (8 * el + pre.prefix_size + 7) / 8
                            && 0 < pre.prefix_size < 8 && el >= 0,
                ;
            } else {
                assert(packed.len() == el) by (nonlinear_arith)
                    requires packed.len() == (8 * el + 7) / 8 && el >= 0;
            }
            assert forall|k: int| 0 <= k < packed.len() implies packed[k] == self.emitted()[k] by {
                let lo = 8 * k;
                let hi = if 8 * k + 8 <= stream.len() { 8 * k + 8 } else { stream.len() as int };
                let sub = stream.subrange(lo, hi);
                if k < el {
                    // A whole emitted byte: its bits sit at stream positions 8k..8k+8.
                    assert(hi == 8 * k + 8) by (nonlinear_arith)
                        requires k < el && stream.len() >= 8 * el && hi == (if 8 * k + 8 <= stream.len() { 8 * k + 8 } else { stream.len() as int });
                    assert forall|kk: u8| kk < 8 implies sub[kk as int] == get_bit(pre.emitted()[k], kk) by {
                        assert(stream[8 * k + kk] == pre.out_bits()[8 * k + kk]);
                        assert(8 * k + kk < 8 * el) by (nonlinear_arith)
                            requires k < el && kk < 8;
                        assert(bits_of(pre.emitted())[8 * k + kk] == get_bit(pre.emitted()[k], kk)) by {
                            lemma_div8(k, kk as int);
                        }
                    }
                    lemma_byte_from_byte_bits(pre.emitted()[k], sub);
                    assert(self.emitted()[k] == pre.emitted()[k]);
                } else {
                    // The final partial byte equals the pending prefix.
                    assert(pre.prefix_size > 0 && k == el);
                    assert(hi == stream.len());
                    assert(sub.len() == pre.prefix_size);
                    assert forall|kk: u8| kk < 8 implies get_bit(byte_from(sub), kk) == get_bit(pre.prefix, kk) by {
                        lemma_byte_from_bits(sub, kk);
                        if (kk as int) < pre.prefix_size {
                            assert(sub[kk as int] == pre.out_bits()[8 * el + kk]);
                            assert(pre.out_bits()[8 * el + kk] == low_bits(pre.prefix, pre.prefix_size as nat)[kk as int]);
                        }
                    }
                    lemma_u8_eq_by_bits(byte_from(sub), pre.prefix);
                    assert(self.emitted()[k] == pre.prefix);
                }
            }
            assert(self.emitted() =~= packed);
            if pre.prefix_size == 0 {
                // No residue was pending, so the residue byte was already zero.
                assert forall|k: u8| k < 8 implies get_bit(pre.prefix, k) == get_bit(0u8, k) by {
                    lemma_zero_bit(k);
                }
                lemma_u8_eq_by_bits(pre.prefix, 0);
            }
            }
        }
        n
    }

    /// Flushing has no buffered effect: the writer's sink is its own vector.
    pub fn flush(&mut self)
        ensures
            *final(self) == *old(self),
    {
    }

    /// Gives back the sink, with everything the writer emitted appended.
    pub fn into_inner(self) -> (v: Vec<u8>)
        requires
            self.buffer_ok(),
        ensures
            v@ == self.initial() + self.emitted(),
    {
        proof {
            assert(self.base@ + self.emitted() =~= self.inner@);
        }
        self.inner
    }
}

/// What `split_byte` returns: the low `pos` bits and the high `8 - pos` bits.
pub open spec fn spec_split_byte(byte: u8, pos: u8) -> (u8, u8) {
    if pos == 0 {
        (0u8, byte)
    } else {
        (byte & (0xffu8 >> ((8 - pos) as u8)), byte >> pos)
    }
}

/// Splits a byte at bit position `pos`: the low `pos` bits (the tail of the
/// current frame's payload) and the remaining high bits, least significant
/// first.
pub fn split_byte(byte: u8, pos: usize) -> (r: (u8, u8))
    requires
        pos < 8,
    ensures
        r == spec_split_byte(byte, pos as u8),
{
    if pos == 0 {
        return (0, byte);
    }
    let b = byte >> (pos as u8);
    let a = byte & (0xffu8 >> ((8 - pos) as u8));
    (a, b)
}

/// What `assemble_bytes` returns: `prefix`'s low `p` bits, then `bytes`, then
/// `suffix`, as one little-endian bit stream packed into 32 bytes.
pub open spec fn spec_assemble(prefix: u8, p: u8, bytes: Seq<u8>, suffix: u8) -> Seq<u8> {
    Seq::new(32, |i: int|
        if p == 0 {
            if i < bytes.len() {
                bytes[i]
            } else if i == bytes.len() {
                suffix
            } else {
                0u8
            }
        } else {
            if i == 0 {
                if bytes.len() == 0 {
                    prefix | (suffix << p)
                } else {
                    prefix | (bytes[0] << p)
                }
            } else if i < bytes.len() {
                (bytes[i - 1] >> ((8 - p) as u8)) | (bytes[i] << p)
            } else if i == bytes.len() {
                (bytes[i - 1] >> ((8 - p) as u8)) | (suffix << p)
            } else {
                0u8
            }
        })
}

/// Prepends `prefix`'s low `prefix_size` bits to `bytes`, appends `suffix`,
/// and returns the shifted 32-byte frame buffer.
pub fn assemble_bytes(prefix: u8, prefix_size: usize, bytes: &[u8], suffix: u8) -> (r: Vec<u8>)
    requires
        bytes@.len() <= 31,
        prefix_size < 8,
    ensures
        r@ == spec_assemble(prefix, prefix_size as u8, bytes@, suffix),
        r@.len() == 32,
{
    let ghost expected = spec_assemble(prefix, prefix_size as u8, bytes@, suffix);
    let p: u8 = prefix_size as u8;
    let mut out: Vec<u8> = Vec::new();
    let mut carry: u8 = prefix;
    let mut i: usize = 0;
    while i < bytes.len()
        invariant
            i <= bytes@.len() <= 31,
            p == prefix_size < 8,
            expected == spec_assemble(prefix, p, bytes@, suffix),
            out@.len() == i,
            forall|k: int| 0 <= k < i ==> out@[k] == expected[k],
            carry == if p == 0 { prefix } else if i == 0 { prefix } else { bytes@[i - 1] >> ((8 - p) as u8) },
            p == 0 ==> carry == prefix,
        decreases bytes@.len() - i,
    {
        let b = bytes[i];
        if p == 0 {
            out.push(b);
        } else {
            out.push(carry | (b << p));
            carry = b >> ((8 - p) as u8);
        }
        i = i + 1;
    }
    if p == 0 {
        out.push(suffix);
    } else {
        out.push(carry | (suffix << p));
    }
    while out.len() < 32
        invariant
            bytes@.len() + 1 <= out@.len() <= 32,
            expected == spec_assemble(prefix, p, bytes@, suffix),
            forall|k: int| 0 <= k < out@.len() ==> out@[k] == expected[k],
        decreases 32 - out@.len(),
    {
        out.push(0);
    }
    proof {
        assert(out@ =~= expected);
    }
    out
}

/// One step of frame assembly, as returned by `process_bytes`.
pub struct ProcessedChunk {
    /// Input bits left over past the frame boundary; the caller installs them
    /// as the next prefix.
    pub remainder: u8,
    /// How many bits of `remainder` are meaningful.
    pub remainder_size: usize,
    /// How many input bytes were consumed.
    pub bytes_consumed: usize,
    /// The assembled 32-byte output buffer; all 32 bytes are meaningful after
    /// a completed frame, the first `bytes_consumed` otherwise.
    pub out: Vec<u8>,
    /// Whether a whole frame was completed.
    pub complete: bool,
}

impl Fr32Writer {
    /// How many payload bits the current frame still needs.
    pub closed spec fn spec_bits_needed(self) -> nat {
        self.bits_needed as nat
    }

    /// The pending residue and its size.
    pub closed spec fn spec_prefix(self) -> (u8, nat) {
        (self.prefix, self.prefix_size as nat)
    }

    /// Tries to assemble the rest of the current frame from `bytes`.
    ///
    /// If enough bytes are given the whole frame is assembled (prefix, full
    /// bytes, payload tail, two zero pad bits) and the bits past the frame
    /// boundary come back as the remainder; otherwise everything given is
    /// consumed and shifted behind the prefix, and the step reports an
    /// incomplete frame.
    pub fn process_bytes(&mut self, bytes: &[u8]) -> (res: ProcessedChunk)
        requires
            old(self).spec_prefix().1 < 8,
            1 <= old(self).spec_bits_needed() <= 254,
        ensures
            ({
                let need = old(self).spec_bits_needed();
                let (pfx, psz) = old(self).spec_prefix();
                let ss = (need % 8) as u8;
                let full = (need / 8) as int;
                let enough = if ss > 0 { bytes@.len() >= full + 1 } else { bytes@.len() >= full };
                &&& res.complete == enough
                &&& final(self).spec_prefix() == old(self).spec_prefix()
                &&& final(self).consumed_bytes() == old(self).consumed_bytes()
                &&& final(self).initial() == old(self).initial()
                &&& final(self).emitted() == old(self).emitted()
                &&& (enough && ss > 0 ==> {
                    &&& res.remainder == spec_split_byte(bytes@[full], ss).1
                    &&& res.remainder_size == 8 - ss
                    &&& res.bytes_consumed == full + 1
                    &&& res.out@ == spec_assemble(pfx, psz as u8, bytes@.subrange(0, full),
                        spec_split_byte(bytes@[full], ss).0)
                    &&& final(self).spec_bits_needed() == 254 - (8 - ss)
                })
                &&& (enough && ss == 0 ==> {
                    &&& res.remainder == 0
                    &&& res.remainder_size == 0
                    &&& res.bytes_consumed == full
                    &&& res.out@ == spec_assemble(pfx, psz as u8, bytes@.subrange(0, full), 0)
                    &&& final(self).spec_bits_needed() == 254
                })
                &&& (!enough ==> {
                    &&& res.remainder == 0
                    &&& res.remainder_size == psz
                    &&& res.bytes_consumed == bytes@.len()
                    &&& res.out@ == spec_assemble(pfx, psz as u8, bytes@, 0)
                    &&& final(self).spec_bits_needed() == need - 8 * bytes@.len()
                })
            }),
    {
        let bits_needed = self.bits_needed;
        let full_bytes_needed = bits_needed / 8;
        let suffix_size = bits_needed % 8;

        let enough = if suffix_size > 0 {
            bytes.len() >= full_bytes_needed + 1
        } else {
            bytes.len() >= full_bytes_needed
        };

        if enough {
            if suffix_size > 0 {
                // The byte at the frame boundary is split: its low bits close
                // this frame, its high bits open the next one.
                let final_byte = bytes[full_bytes_needed];
                let (suffix, remainder) = split_byte(final_byte, suffix_size);
                let remainder_size = 8 - suffix_size;
                self.bits_needed = 254 - remainder_size;
                let out = assemble_bytes(self.prefix, self.prefix_size,
                    slice_take(bytes, full_bytes_needed), suffix);
                ProcessedChunk {
                    remainder,
                    remainder_size,
                    bytes_consumed: full_bytes_needed + 1,
                    out,
                    complete: true,
                }
            } else {
                // The frame ends exactly on a byte boundary; nothing spills.
                self.bits_needed = 254;
                let out = assemble_bytes(self.prefix, self.prefix_size,
                    slice_take(bytes, full_bytes_needed), 0);
                ProcessedChunk {
                    remainder: 0,
                    remainder_size: 0,
                    bytes_consumed: full_bytes_needed,
                    out,
                    complete: true,
                }
            }
        } else {
            // Too few bytes to finish the frame: shift them all in.
            self.bits_needed = bits_needed - 8 * bytes.len();
            let out = assemble_bytes(self.prefix, self.prefix_size, bytes, 0);
            ProcessedChunk {
                remainder: 0,
                remainder_size: self.prefix_size,
                bytes_consumed: bytes.len(),
                out,
                complete: false,
            }
        }
    }
}

/// The first `n` bytes of a slice.
fn slice_take<'a>(s: &'a [u8], n: usize) -> (r: &'a [u8])
    requires
        n <= s@.len(),
    ensures
        r@ == s@.subrange(0, n as int),
{
    &s[0..n]
}

/// The unpadding reader's handle on an inner byte source; the streamed
/// unpadding itself is not offered yet, only the one-shot `write_unpadded`.
pub struct Fr32Reader {
    pub _inner: Vec<u8>,
}

impl Fr32Reader {
    pub fn new(inner: Vec<u8>) -> (r: Fr32Reader)
        ensures
            r._inner@ == inner@,
    {
        Fr32Reader { _inner: inner }
    }
}

} // verus!
