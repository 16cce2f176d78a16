//! Little-endian 256-bit field arithmetic on 32-byte slots.
//!
//! A slot is a field element below the BLS12-381 scalar modulus, stored as 32
//! little-endian bytes. Addition and subtraction reduce modulo the modulus;
//! the Sloth vector-delay primitive is iterated modular addition of a key.

use vstd::prelude::*;

verus! {

/// Bytes per field element.
pub const FR_BYTES: usize = 32;

/// `256^e`.
pub open spec fn pow256(e: nat) -> int
    decreases e,
{
    if e == 0 {
        1
    } else {
        256 * pow256((e - 1) as nat)
    }
}

/// The number a little-endian byte string denotes.
pub open spec fn le_value(s: Seq<u8>) -> int
    decreases s.len(),
{
    if s.len() == 0 {
        0
    } else {
        le_value(s.drop_last()) + s.last() * pow256((s.len() - 1) as nat)
    }
}

/// The little-endian bytes of the BLS12-381 scalar field modulus.
pub open spec fn modulus_bytes() -> Seq<u8> {
    seq![
        0x01u8, 0x00u8, 0x00u8, 0x00u8, 0xffu8, 0xffu8, 0xffu8, 0xffu8,
        0xfeu8, 0x5bu8, 0xfeu8, 0xffu8, 0x02u8, 0xa4u8, 0xbdu8, 0x53u8,
        0x05u8, 0xd8u8, 0xa1u8, 0x09u8, 0x08u8, 0xd8u8, 0x39u8, 0x33u8,
        0x48u8, 0x7du8, 0x9du8, 0x29u8, 0x53u8, 0xa7u8, 0xedu8, 0x73u8,
    ]
}

/// The field modulus.
pub open spec fn modulus() -> int {
    le_value(modulus_bytes())
}

/// A byte string is a valid field element.
pub open spec fn fr_valid(s: Seq<u8>) -> bool {
    s.len() == 32 && 0 <= le_value(s) < modulus()
}

/// Returns the modulus as bytes.
pub fn modulus_vec() -> (r: Vec<u8>)
    ensures
        r@ == modulus_bytes(),
{
    let mut v: Vec<u8> = Vec::new();
    v.push(0x01); v.push(0x00); v.push(0x00); v.push(0x00);
    v.push(0xff); v.push(0xff); v.push(0xff); v.push(0xff);
    v.push(0xfe); v.push(0x5b); v.push(0xfe); v.push(0xff);
    v.push(0x02); v.push(0xa4); v.push(0xbd); v.push(0x53);
    v.push(0x05); v.push(0xd8); v.push(0xa1); v.push(0x09);
    v.push(0x08); v.push(0xd8); v.push(0x39); v.push(0x33);
    v.push(0x48); v.push(0x7d); v.push(0x9d); v.push(0x29);
    v.push(0x53); v.push(0xa7); v.push(0xed); v.push(0x73);
    proof {
        assert(v@ =~= modulus_bytes());
    }
    v
}

/// The value of a prefix grows by the next byte times its place value.
pub proof fn lemma_le_value_take(s: Seq<u8>, i: int)
    requires
        0 <= i < s.len(),
    ensures
        le_value(s.subrange(0, i + 1)) == le_value(s.subrange(0, i)) + s[i] * pow256(i as nat),
{
    let t = s.subrange(0, i + 1);
    assert(t.drop_last() =~= s.subrange(0, i));
    assert(t.last() == s[i]);
}

/// A byte string's value is bounded by the place value just past its end.
pub proof fn lemma_le_value_bound(s: Seq<u8>)
    ensures
        0 <= le_value(s) < pow256(s.len()),
    decreases s.len(),
{
    if s.len() == 0 {
    } else {
        lemma_le_value_bound(s.drop_last());
        lemma_pow256_pos((s.len() - 1) as nat);
        assert(s.last() * pow256((s.len() - 1) as nat) <= 255 * pow256((s.len() - 1) as nat))
            by (nonlinear_arith)
            requires s.last() <= 255 && pow256((s.len() - 1) as nat) >= 1;
        assert(s.last() * pow256((s.len() - 1) as nat) >= 0) by (nonlinear_arith)
            requires s.last() >= 0 && pow256((s.len() - 1) as nat) >= 1;
    }
}

pub proof fn lemma_pow256_pos(e: nat)
    ensures
        pow256(e) >= 1,
    decreases e,
{
    if e > 0 {
        lemma_pow256_pos((e - 1) as nat);
    }
}

/// Two byte strings with a byte-wise sum relation denote the summed value.
/// The relation: out plus carry times the place value equals the sum of the
/// prefixes.
proof fn lemma_modulus_value()
    ensures
        modulus() > pow256(31) * 64,
        modulus() < pow256(31) * 116,
        modulus() < pow256(32),
{
    // Peel the top byte: modulus() == le_value(prefix) + 0x73 * pow256(31).
    let m = modulus_bytes();
    assert(m.last() == 0x73);
    lemma_le_value_bound(m.drop_last());
    lemma_pow256_pos(31);
    assert(le_value(m) == le_value(m.drop_last()) + 0x73 * pow256(31));
    assert(0x73 * pow256(31) >= 64 * pow256(31) + 3 * pow256(31)) by (nonlinear_arith)
        requires pow256(31) >= 1;
    assert(3 * pow256(31) > 0) by (nonlinear_arith)
        requires pow256(31) >= 1;
    lemma_le_value_bound(m);
    assert(le_value(m.drop_last()) < pow256(31));
    assert(le_value(m) < pow256(31) + 0x73 * pow256(31));
    assert(pow256(31) + 0x73 * pow256(31) == pow256(31) * 116) by (nonlinear_arith);
    assert(pow256(31) * 116 <= pow256(31) * 256) by (nonlinear_arith)
        requires pow256(31) >= 1;
    assert(pow256(32) == 256 * pow256(31));
    assert(pow256(31) * 256 == 256 * pow256(31)) by (nonlinear_arith);
}

/// Any 32-byte string whose top byte has its two high bits clear is a valid
/// field element.
pub proof fn lemma_masked_is_valid(s: Seq<u8>)
    requires
        s.len() == 32,
        s[31] < 64,
    ensures
        fr_valid(s),
{
    lemma_modulus_value();
    lemma_le_value_bound(s.drop_last());
    assert(s.last() * pow256(31) <= 63 * pow256(31)) by (nonlinear_arith)
        requires s.last() <= 63 && pow256(31) >= 1;
    lemma_pow256_pos(31);
    assert(le_value(s) == le_value(s.drop_last()) + s.last() * pow256(31));
    assert(le_value(s) < pow256(31) + 63 * pow256(31));
    assert(pow256(31) + 63 * pow256(31) == 64 * pow256(31));
    lemma_le_value_bound(s);
    assert(le_value(s) >= 0);
}

/// Raw byte-wise addition: `r` denotes the sum of `a` and `b` (both 32
/// bytes); the sum stays below `256^32` because both are field elements.
fn add_raw(a: &[u8], b: &[u8]) -> (r: Vec<u8>)
    requires
        a@.len() == 32,
        b@.len() == 32,
        le_value(a@) + le_value(b@) < pow256(32),
    ensures
        r@.len() == 32,
        le_value(r@) == le_value(a@) + le_value(b@),
{
    let mut out: Vec<u8> = Vec::new();
    let mut carry: u16 = 0;
    let mut i: usize = 0;
    proof {
        assert(a@.subrange(0, 0) =~= Seq::<u8>::empty());
        assert(b@.subrange(0, 0) =~= Seq::<u8>::empty());
        assert(out@.subrange(0, 0) =~= Seq::<u8>::empty());
    }
    while i < 32
        invariant
            i <= 32,
            a@.len() == 32,
            b@.len() == 32,
            out@.len() == i,
            carry <= 1,
            le_value(out@) + carry * pow256(i as nat)
                == le_value(a@.subrange(0, i as int)) + le_value(b@.subrange(0, i as int)),
        decreases 32 - i,
    {
        let t: u16 = a[i] as u16 + b[i] as u16 + carry;
        let byte: u8 = (t % 256) as u8;
        let new_carry: u16 = t / 256;
        proof {
            lemma_le_value_take(a@, i as int);
            lemma_le_value_take(b@, i as int);
            let ghost outv = out@.push(byte);
            assert(outv.drop_last() =~= out@);
            assert(le_value(outv) == le_value(out@) + byte * pow256(i as nat));
            assert(t == byte + 256 * new_carry);
            lemma_pow256_pos(i as nat);
            // (byte + 256 * c') * p == byte * p + c' * (256 * p)
            assert(t * pow256(i as nat) == byte * pow256(i as nat)
                + new_carry * (256 * pow256(i as nat))) by (nonlinear_arith)
                requires t == byte + 256 * new_carry;
            assert(t * pow256(i as nat)
                == a@[i as int] * pow256(i as nat) + b@[i as int] * pow256(i as nat)
                    + carry * pow256(i as nat)) by (nonlinear_arith)
                requires t == a@[i as int] + b@[i as int] + carry;
        }
        out.push(byte);
        carry = new_carry;
        i = i + 1;
    }
    proof {
        assert(a@.subrange(0, 32) =~= a@);
        assert(b@.subrange(0, 32) =~= b@);
        lemma_le_value_bound(out@);
        lemma_pow256_pos(32);
        if carry > 0 {
            assert(le_value(out@) + carry * pow256(32) >= pow256(32)) by (nonlinear_arith)
                requires le_value(out@) >= 0 && carry >= 1 && pow256(32) >= 1;
            assert(false);
        }
    }
    out
}

/// Raw byte-wise subtraction: `r` denotes `a - b`, which must be
/// non-negative.
fn sub_raw(a: &[u8], b: &[u8]) -> (r: Vec<u8>)
    requires
        a@.len() == 32,
        b@.len() == 32,
        le_value(b@) <= le_value(a@),
    ensures
        r@.len() == 32,
        le_value(r@) == le_value(a@) - le_value(b@),
{
    let mut out: Vec<u8> = Vec::new();
    let mut borrow: u16 = 0;
    let mut i: usize = 0;
    proof {
        assert(a@.subrange(0, 0) =~= Seq::<u8>::empty());
        assert(b@.subrange(0, 0) =~= Seq::<u8>::empty());
    }
    while i < 32
        invariant
            i <= 32,
            a@.len() == 32,
            b@.len() == 32,
            out@.len() == i,
            borrow <= 1,
            le_value(out@) - borrow * pow256(i as nat)
                == le_value(a@.subrange(0, i as int)) - le_value(b@.subrange(0, i as int)),
        decreases 32 - i,
    {
        let ai: u16 = a[i] as u16;
        let need: u16 = b[i] as u16 + borrow;
        let (byte, new_borrow): (u8, u16) = if ai >= need {
            ((ai - need) as u8, 0)
        } else {
            ((ai + 256 - need) as u8, 1)
        };
        proof {
            lemma_le_value_take(a@, i as int);
            lemma_le_value_take(b@, i as int);
            let ghost outv = out@.push(byte);
            assert(outv.drop_last() =~= out@);
            assert(le_value(outv) == le_value(out@) + byte * pow256(i as nat));
            assert(byte == ai + 256 * new_borrow - need);
            lemma_pow256_pos(i as nat);
            assert(byte * pow256(i as nat) == ai * pow256(i as nat)
                + new_borrow * (256 * pow256(i as nat)) - need * pow256(i as nat))
                by (nonlinear_arith)
                requires byte == ai + 256 * new_borrow - need;
            assert(need * pow256(i as nat) == b@[i as int] * pow256(i as nat)
                + borrow * pow256(i as nat)) by (nonlinear_arith)
                requires need == b@[i as int] + borrow;
        }
        out.push(byte);
        borrow = new_borrow;
        i = i + 1;
    }
    proof {
        assert(a@.subrange(0, 32) =~= a@);
        assert(b@.subrange(0, 32) =~= b@);
        lemma_le_value_bound(out@);
        lemma_pow256_pos(32);
        if borrow > 0 {
            assert(le_value(out@) - borrow * pow256(32) < 0) by (nonlinear_arith)
                requires le_value(out@) < pow256(32) && borrow >= 1 && pow256(32) >= 1;
            assert(false);
        }
    }
    out
}

/// Whether `a` denotes at least as large a number as `b`.
fn geq_bytes(a: &[u8], b: &[u8]) -> (r: bool)
    requires
        a@.len() == 32,
        b@.len() == 32,
    ensures
        r == (le_value(a@) >= le_value(b@)),
{
    proof {
        assert(a@.subrange(0, 32) =~= a@);
        assert(b@.subrange(0, 32) =~= b@);
    }
    let mut i: usize = 32;
    while i > 0
        invariant
            i <= 32,
            a@.len() == 32,
            b@.len() == 32,
            le_value(a@) - le_value(b@)
                == le_value(a@.subrange(0, i as int)) - le_value(b@.subrange(0, i as int)),
        decreases i,
    {
        let j = i - 1;
        proof {
            lemma_le_value_take(a@, j as int);
            lemma_le_value_take(b@, j as int);
            lemma_le_value_bound(a@.subrange(0, j as int));
            lemma_le_value_bound(b@.subrange(0, j as int));
            lemma_pow256_pos(j as nat);
        }
        if a[j] > b[j] {
            proof {
                assert(a@[j as int] * pow256(j as nat)
                    >= b@[j as int] * pow256(j as nat) + pow256(j as nat))
                    by (nonlinear_arith)
                    requires a@[j as int] >= b@[j as int] + 1 && pow256(j as nat) >= 1;
            }
            return true;
        }
        if a[j] < b[j] {
            proof {
                assert(b@[j as int] * pow256(j as nat)
                    >= a@[j as int] * pow256(j as nat) + pow256(j as nat))
                    by (nonlinear_arith)
                    requires b@[j as int] >= a@[j as int] + 1 && pow256(j as nat) >= 1;
            }
            return false;
        }
        i = j;
    }
    proof {
        assert(a@.subrange(0, 0) =~= Seq::<u8>::empty());
        assert(b@.subrange(0, 0) =~= Seq::<u8>::empty());
    }
    true
}

/// Field addition: `(a + b) mod modulus` on 32-byte elements.
pub fn add_mod(a: &[u8], b: &[u8]) -> (r: Vec<u8>)
    requires
        fr_valid(a@),
        fr_valid(b@),
    ensures
        fr_valid(r@),
        le_value(r@) == if le_value(a@) + le_value(b@) < modulus() {
            le_value(a@) + le_value(b@)
        } else {
            le_value(a@) + le_value(b@) - modulus()
        },
{
    proof {
        lemma_modulus_value();
        lemma_pow256_pos(31);
        assert(pow256(32) == 256 * pow256(31));
        assert(modulus() + modulus() < pow256(32)) by (nonlinear_arith)
            requires
                modulus() < pow256(31) * 116 && pow256(32) == 256 * pow256(31)
                    && pow256(31) >= 1,
        ;
    }
    let sum = add_raw(a, b);
    let m = modulus_vec();
    if geq_bytes(sum.as_slice(), m.as_slice()) {
        sub_raw(sum.as_slice(), m.as_slice())
    } else {
        sum
    }
}

/// Field subtraction: `(a - b) mod modulus` on 32-byte elements.
pub fn sub_mod(a: &[u8], b: &[u8]) -> (r: Vec<u8>)
    requires
        fr_valid(a@),
        fr_valid(b@),
    ensures
        fr_valid(r@),
        le_value(r@) == if le_value(a@) >= le_value(b@) {
            le_value(a@) - le_value(b@)
        } else {
            le_value(a@) + modulus() - le_value(b@)
        },
{
    proof {
        lemma_modulus_value();
        lemma_pow256_pos(31);
        assert(pow256(32) == 256 * pow256(31));
        assert(modulus() + modulus() < pow256(32)) by (nonlinear_arith)
            requires
                modulus() < pow256(31) * 116 && pow256(32) == 256 * pow256(31)
                    && pow256(31) >= 1,
        ;
    }
    if geq_bytes(a, b) {
        sub_raw(a, b)
    } else {
        let m = modulus_vec();
        let diff = sub_raw(m.as_slice(), b);
        add_raw(a, diff.as_slice())
    }
}

/// The Sloth delay primitive: `iterations` rounds of keyed modular addition.
pub open spec fn spec_sloth_encode(key: int, x: int, iterations: nat) -> int
    decreases iterations,
{
    if iterations == 0 {
        x
    } else {
        let prev = spec_sloth_encode(key, x, (iterations - 1) as nat);
        if prev + key < modulus() { prev + key } else { prev + key - modulus() }
    }
}

/// The inverse rounds.
pub open spec fn spec_sloth_decode(key: int, x: int, iterations: nat) -> int
    decreases iterations,
{
    if iterations == 0 {
        x
    } else {
        let prev = spec_sloth_decode(key, x, (iterations - 1) as nat);
        if prev >= key { prev - key } else { prev + modulus() - key }
    }
}

/// Sloth encoding of one slot.
pub fn sloth_encode(key: &[u8], x: &[u8], iterations: usize) -> (r: Vec<u8>)
    requires
        fr_valid(key@),
        fr_valid(x@),
    ensures
        fr_valid(r@),
        le_value(r@) == spec_sloth_encode(le_value(key@), le_value(x@), iterations as nat),
{
    let mut cur: Vec<u8> = slice_to_vec(x);
    let mut i: usize = 0;
    while i < iterations
        invariant
            i <= iterations,
            fr_valid(key@),
            fr_valid(cur@),
            le_value(cur@) == spec_sloth_encode(le_value(key@), le_value(x@), i as nat),
        decreases iterations - i,
    {
        cur = add_mod(cur.as_slice(), key);
        i = i + 1;
    }
    cur
}

/// Sloth decoding of one slot.
pub fn sloth_decode(key: &[u8], x: &[u8], iterations: usize) -> (r: Vec<u8>)
    requires
        fr_valid(key@),
        fr_valid(x@),
    ensures
        fr_valid(r@),
        le_value(r@) == spec_sloth_decode(le_value(key@), le_value(x@), iterations as nat),
{
    let mut cur: Vec<u8> = slice_to_vec(x);
    let mut i: usize = 0;
    while i < iterations
        invariant
            i <= iterations,
            fr_valid(key@),
            fr_valid(cur@),
            le_value(cur@) == spec_sloth_decode(le_value(key@), le_value(x@), i as nat),
        decreases iterations - i,
    {
        cur = sub_mod(cur.as_slice(), key);
        i = i + 1;
    }
    cur
}

/// Sloth decoding inverts Sloth encoding.
pub proof fn lemma_sloth_round_trip(key: int, x: int, iterations: nat)
    requires
        0 <= key < modulus(),
        0 <= x < modulus(),
    ensures
        spec_sloth_decode(key, spec_sloth_encode(key, x, iterations), iterations) == x,
    decreases iterations,
{
    if iterations > 0 {
        let k = (iterations - 1) as nat;
        lemma_sloth_enc_range(key, x, iterations);
        lemma_sloth_enc_range(key, x, k);
        // decode(i) of encode(i): the outer decode round cancels the outer
        // encode round once the inner rounds cancel; prove by a shifted
        // induction: decode(j, encode(i, x)) == encode(i - j, x).
        lemma_sloth_shift(key, x, iterations, iterations);
    }
}

/// Sloth encoding stays in the field.
pub proof fn lemma_sloth_enc_range_pub(key: int, x: int, iterations: nat)
    requires
        0 <= key < modulus(),
        0 <= x < modulus(),
    ensures
        0 <= spec_sloth_encode(key, x, iterations) < modulus(),
{
    lemma_sloth_enc_range(key, x, iterations);
}

proof fn lemma_sloth_enc_range(key: int, x: int, iterations: nat)
    requires
        0 <= key < modulus(),
        0 <= x < modulus(),
    ensures
        0 <= spec_sloth_encode(key, x, iterations) < modulus(),
    decreases iterations,
{
    lemma_modulus_value();
    lemma_pow256_pos(31);
    if iterations > 0 {
        lemma_sloth_enc_range(key, x, (iterations - 1) as nat);
    }
}

/// Sloth decoding stays in the field.
pub proof fn lemma_sloth_dec_range_pub(key: int, x: int, iterations: nat)
    requires
        0 <= key < modulus(),
        0 <= x < modulus(),
    ensures
        0 <= spec_sloth_decode(key, x, iterations) < modulus(),
    decreases iterations,
{
    lemma_modulus_value();
    lemma_pow256_pos(31);
    if iterations > 0 {
        lemma_sloth_dec_range_pub(key, x, (iterations - 1) as nat);
    }
}

proof fn lemma_sloth_shift(key: int, x: int, i: nat, j: nat)
    requires
        0 <= key < modulus(),
        0 <= x < modulus(),
        j <= i,
    ensures
        spec_sloth_decode(key, spec_sloth_encode(key, x, i), j)
            == spec_sloth_encode(key, x, (i - j) as nat),
    decreases j,
{
    if j > 0 {
        lemma_sloth_shift(key, x, i, (j - 1) as nat);
        lemma_sloth_enc_range(key, x, (i - j) as nat);
        lemma_sloth_enc_range(key, x, (i - j + 1) as nat);
        assert(spec_sloth_encode(key, x, (i - j + 1) as nat)
            == ({
                let prev = spec_sloth_encode(key, x, (i - j) as nat);
                if prev + key < modulus() { prev + key } else { prev + key - modulus() }
            }));
    }
}

/// The canonical `n` little-endian bytes of a non-negative value.
pub open spec fn bytes_of_value(v: int, n: nat) -> Seq<u8> {
    Seq::new(n, |i: int| ((v / pow256(i as nat)) % 256) as u8)
}

pub proof fn lemma_pow256_adds(a: nat, b: nat)
    ensures
        pow256(a + b) == pow256(a) * pow256(b),
    decreases a,
{
    if a == 0 {
        lemma_pow256_pos(b);
        assert(1 * pow256(b) == pow256(b)) by (nonlinear_arith);
    } else {
        lemma_pow256_adds((a - 1) as nat, b);
        assert(256 * (pow256((a - 1) as nat) * pow256(b)) == (256 * pow256((a - 1) as nat)) * pow256(b))
            by (nonlinear_arith);
    }
}

/// The canonical bytes of a value denote it, reduced past the width.
pub proof fn lemma_le_value_of_bytes(v: int, n: nat)
    requires
        0 <= v,
    ensures
        le_value(bytes_of_value(v, n)) == v % pow256(n),
    decreases n,
{
    lemma_pow256_pos(n);
    if n == 0 {
        assert(v % 1 == 0) by (nonlinear_arith)
            requires v >= 0;
    } else {
        let n1 = (n - 1) as nat;
        lemma_le_value_of_bytes(v, n1);
        lemma_pow256_pos(n1);
        let s = bytes_of_value(v, n);
        assert(s.drop_last() =~= bytes_of_value(v, n1));
        vstd::arithmetic::div_mod::lemma_breakdown(v, pow256(n1), 256);
        assert(pow256(n) == 256 * pow256(n1));
        assert(pow256(n1) * 256 == 256 * pow256(n1)) by (nonlinear_arith);
        vstd::arithmetic::div_mod::lemma_mod_bound(v / pow256(n1), 256);
        assert(v / pow256(n1) >= 0) by (nonlinear_arith)
            requires v >= 0 && pow256(n1) >= 1;
        let d = (v / pow256(n1)) % 256;
        assert(s.last() == d);
        assert(s.last() * pow256(n1) == pow256(n1) * d) by (nonlinear_arith)
            requires s.last() == d;
    }
}

/// Each byte of a string is the matching digit of its value.
pub proof fn lemma_bytes_of_le_value(s: Seq<u8>)
    ensures
        bytes_of_value(le_value(s), s.len()) =~= s,
    decreases s.len(),
{
    if s.len() > 0 {
        let n1 = (s.len() - 1) as nat;
        lemma_bytes_of_le_value(s.drop_last());
        lemma_le_value_bound(s.drop_last());
        lemma_pow256_pos(n1);
        let v = le_value(s);
        let vd = le_value(s.drop_last());
        let last = s.last() as int;
        assert(v == vd + last * pow256(n1));
        assert forall|i: int| 0 <= i < s.len() implies bytes_of_value(v, s.len())[i] == s[i] by {
            lemma_pow256_pos(i as nat);
            if i < n1 {
                assert(bytes_of_value(vd, n1)[i] == s.drop_last()[i]);
                // Split vd at place i, then hoist the top byte over it.
                vstd::arithmetic::div_mod::lemma_fundamental_div_mod(vd, pow256(i as nat));
                vstd::arithmetic::div_mod::lemma_mod_bound(vd, pow256(i as nat));
                let q = vd / pow256(i as nat);
                let r = vd % pow256(i as nat);
                lemma_pow256_adds(i as nat, (n1 - i) as nat);
                let hi = last * pow256((n1 - i) as nat);
                assert(v == pow256(i as nat) * (q + hi) + r) by (nonlinear_arith)
                    requires
                        v == vd + last * pow256(n1) && vd == pow256(i as nat) * q + r
                            && pow256(n1) == pow256(i as nat) * pow256((n1 - i) as nat)
                            && hi == last * pow256((n1 - i) as nat),
                ;
                vstd::arithmetic::div_mod::lemma_div_multiples_vanish_fancy(q + hi, r, pow256(i as nat));
                assert(v / pow256(i as nat) == q + hi);
                // hi is a multiple of 256, so it vanishes modulo 256.
                lemma_pow256_pos((n1 - i - 1) as nat);
                assert(hi == 256 * (last * pow256((n1 - i - 1) as nat))) by (nonlinear_arith)
                    requires
                        hi == last * pow256((n1 - i) as nat)
                            && pow256((n1 - i) as nat) == 256 * pow256((n1 - i - 1) as nat),
                ;
                vstd::arithmetic::div_mod::lemma_mod_multiples_vanish(
                    last * pow256((n1 - i - 1) as nat), q, 256);
                assert((q + hi) % 256 == q % 256);
            } else {
                assert(i == n1);
                vstd::arithmetic::div_mod::lemma_div_multiples_vanish_fancy(last, vd, pow256(n1));
                assert(v == pow256(n1) * last + vd) by (nonlinear_arith)
                    requires v == vd + last * pow256(n1);
                assert(v / pow256(n1) == last);
                vstd::arithmetic::div_mod::lemma_small_mod(s.last() as nat, 256);
            }
        }
    } else {
        assert(bytes_of_value(le_value(s), s.len()) =~= s);
    }
}

/// Runtime check that a byte string is a valid field element.
pub fn fr_check(s: &[u8]) -> (r: bool)
    ensures
        r == fr_valid(s@),
{
    if s.len() != 32 {
        return false;
    }
    let m = modulus_vec();
    proof {
        lemma_le_value_bound(s@);
    }
    !geq_bytes(s, m.as_slice())
}

/// Equal-length byte strings with the same value are equal.
pub proof fn lemma_le_value_inj(a: Seq<u8>, b: Seq<u8>)
    requires
        a.len() == b.len(),
    ensures
        le_value(a) == le_value(b) ==> a == b,
{
    if le_value(a) == le_value(b) {
        lemma_bytes_of_le_value(a);
        lemma_bytes_of_le_value(b);
        assert(a =~= b);
    }
}

/// Copies a slice into a fresh vector.
pub fn slice_to_vec(s: &[u8]) -> (r: Vec<u8>)
    ensures
        r@ == s@,
{
    let mut out: Vec<u8> = Vec::new();
    let mut i: usize = 0;
    while i < s.len()
        invariant
            i <= s@.len(),
            out@ == s@.subrange(0, i as int),
        decreases s@.len() - i,
    {
        out.push(s[i]);
        proof {
            assert(s@.subrange(0, i + 1) =~= s@.subrange(0, i as int).push(s@[i as int]));
        }
        i = i + 1;
    }
    proof {
        assert(s@.subrange(0, s@.len() as int) =~= s@);
    }
    out
}

} // verus!
