//! A keyed, invertible permutation over an arbitrary domain `[0, D)`.
//!
//! A balanced four-round Feistel network permutes the square domain
//! `[0, H * H)` where `H` is a precomputed power of two with `H * H >= D`;
//! cycle-walking (re-encoding until the value lands below `D`) restricts it
//! to a permutation of `[0, D)`.

use vstd::prelude::*;

verus! {

/// Number of Feistel rounds, one key each.
pub const FEISTEL_ROUNDS: usize = 4;

/// Round metadata: the bit-width half `H` of the working domain `[0, H * H)`.
#[derive(Clone, Copy, Debug, PartialEq, Eq, Structural)]
pub struct FeistelPrecomputed {
    /// Half-domain size: a power of two, at least 2 and at most 2^16.
    pub half: u32,
}

/// The precomputed half fits the requested domain.
pub open spec fn pre_valid(pre: FeistelPrecomputed, num_elements: int) -> bool {
    &&& 2 <= pre.half <= 0x1_0000
    &&& num_elements <= (pre.half as int) * (pre.half as int)
}

/// The exponent the search settles on: the least `e` (from `e0`, capped at
/// 16) whose power-of-two square covers the domain.
pub open spec fn spec_half_exp(d: int, e0: nat) -> nat
    decreases 16 - e0,
    when e0 <= 16
{
    if e0 >= 16 || vstd::arithmetic::power2::pow2(e0) * vstd::arithmetic::power2::pow2(e0) >= d {
        e0
    } else {
        spec_half_exp(d, e0 + 1)
    }
}

/// The half `precompute` chooses: the least power of two, at least 2, whose
/// square covers the domain.
pub open spec fn spec_feistel_half(d: int) -> nat {
    vstd::arithmetic::power2::pow2(spec_half_exp(d, 1))
}

/// Chooses the round metadata for a domain of `num_elements`: the smallest
/// power of two (at least 2) whose square covers the domain.
pub fn precompute(num_elements: u32) -> (pre: FeistelPrecomputed)
    ensures
        pre_valid(pre, num_elements as int),
        pre.half == spec_feistel_half(num_elements as int),
{
    let mut h: u64 = 2;
    let ghost mut e: nat = 1;
    proof {
        vstd::arithmetic::power2::lemma2_to64();
    }
    while h * h < num_elements as u64
        invariant
            1 <= e <= 16,
            h == vstd::arithmetic::power2::pow2(e),
            2 <= h <= 0x1_0000,
            h * h <= 0x1_0000_0000,
            spec_half_exp(num_elements as int, 1) == spec_half_exp(num_elements as int, e),
        decreases 16 - e,
    {
        proof {
            vstd::arithmetic::power2::lemma2_to64();
            vstd::arithmetic::power2::lemma_pow2_adds(e, e);
            // If e were 16, h * h would be 2^32, at least any u32 domain.
            if e >= 16 {
                assert(vstd::arithmetic::power2::pow2(e + e) >= 0x1_0000_0000);
                assert(false);
            }
            vstd::arithmetic::power2::lemma_pow2_adds(1, e);
            assert(vstd::arithmetic::power2::pow2(e + 1) == 2 * h);
            vstd::arithmetic::power2::lemma_pow2_strictly_increases(e + 1, 17);
        }
        proof {
            // The search has not settled: this exponent's square is short.
            assert(spec_half_exp(num_elements as int, e) == spec_half_exp(num_elements as int, e + 1));
        }
        h = 2 * h;
        proof {
            e = e + 1;
            assert(h * h <= 0x1_0000_0000) by (nonlinear_arith)
                requires 0 <= h <= 0x1_0000;
        }
    }
    proof {
        assert(h * h <= 0x1_0000_0000) by (nonlinear_arith)
            requires 0 <= h <= 0x1_0000;
        // The search settles here: this exponent's square covers the domain.
        assert(spec_half_exp(num_elements as int, e) == e);
    }
    FeistelPrecomputed { half: h as u32 }
}

/// The keyed round mixer, reduced into `[0, h)`.
pub open spec fn spec_mix(r: int, key: int, h: int) -> int {
    (r * 0x9E37_79B9 + key * 0x6A09_E667 + 0xB7E1_5162) % h
}

/// Modular addition of two values already in `[0, h)`.
pub open spec fn spec_addmod(a: int, b: int, h: int) -> int {
    if a + b >= h { a + b - h } else { a + b }
}

/// Modular subtraction of two values already in `[0, h)`.
pub open spec fn spec_submod(a: int, b: int, h: int) -> int {
    if a >= b { a - b } else { a + h - b }
}

/// One forward Feistel round on the pair `(l, r)`.
pub open spec fn spec_round(l: int, r: int, key: int, h: int) -> (int, int) {
    (r, spec_addmod(l, spec_mix(r, key, h), h))
}

/// One inverse Feistel round.
pub open spec fn spec_round_inv(l: int, r: int, key: int, h: int) -> (int, int) {
    (spec_submod(r, spec_mix(l, key, h), h), l)
}

/// The four-round Feistel permutation of `x` over `[0, h * h)`.
pub open spec fn spec_encode(x: int, keys: Seq<u32>, h: int) -> int {
    let l0 = x / h;
    let r0 = x % h;
    let s1 = spec_round(l0, r0, keys[0] as int, h);
    let s2 = spec_round(s1.0, s1.1, keys[1] as int, h);
    let s3 = spec_round(s2.0, s2.1, keys[2] as int, h);
    let s4 = spec_round(s3.0, s3.1, keys[3] as int, h);
    s4.0 * h + s4.1
}

/// The inverse of `spec_encode`.
pub open spec fn spec_decode(y: int, keys: Seq<u32>, h: int) -> int {
    let l4 = y / h;
    let r4 = y % h;
    let s3 = spec_round_inv(l4, r4, keys[3] as int, h);
    let s2 = spec_round_inv(s3.0, s3.1, keys[2] as int, h);
    let s1 = spec_round_inv(s2.0, s2.1, keys[1] as int, h);
    let s0 = spec_round_inv(s1.0, s1.1, keys[0] as int, h);
    s0.0 * h + s0.1
}

pub proof fn lemma_split_pair(l: int, r: int, h: int)
    by (nonlinear_arith)
    requires
        h > 0,
        0 <= l,
        0 <= r < h,
    ensures
        (l * h + r) / h == l,
        (l * h + r) % h == r,
{
}

proof fn lemma_mix_range(r: int, key: int, h: int)
    requires
        h > 0,
    ensures
        0 <= spec_mix(r, key, h) < h,
{
    vstd::arithmetic::div_mod::lemma_mod_bound(r * 0x9E37_79B9 + key * 0x6A09_E667 + 0xB7E1_5162, h);
}

/// Encoding stays inside the working domain.
proof fn lemma_encode_range(x: int, keys: Seq<u32>, h: int)
    requires
        h > 0,
        keys.len() == 4,
        0 <= x < h * h,
    ensures
        0 <= spec_encode(x, keys, h) < h * h,
{
    let l0 = x / h;
    let r0 = x % h;
    vstd::arithmetic::div_mod::lemma_fundamental_div_mod(x, h);
    vstd::arithmetic::div_mod::lemma_mod_bound(x, h);
    assert(0 <= l0 < h) by (nonlinear_arith)
        requires h > 0 && 0 <= x < h * h && l0 == x / h && x == h * l0 + x % h && 0 <= x % h < h;
    lemma_mix_range(r0, keys[0] as int, h);
    lemma_mix_range(spec_round(l0, r0, keys[0] as int, h).1, keys[1] as int, h);
    let s1 = spec_round(l0, r0, keys[0] as int, h);
    let s2 = spec_round(s1.0, s1.1, keys[1] as int, h);
    lemma_mix_range(s2.1, keys[2] as int, h);
    let s3 = spec_round(s2.0, s2.1, keys[2] as int, h);
    lemma_mix_range(s3.1, keys[3] as int, h);
    let s4 = spec_round(s3.0, s3.1, keys[3] as int, h);
    assert(0 <= s4.0 < h && 0 <= s4.1 < h);
    assert(s4.0 * h + s4.1 < h * h && 0 <= s4.0 * h + s4.1) by (nonlinear_arith)
        requires 0 <= s4.0 < h && 0 <= s4.1 < h;
}

proof fn lemma_decode_range(y: int, keys: Seq<u32>, h: int)
    requires
        h > 0,
        keys.len() == 4,
        0 <= y < h * h,
    ensures
        0 <= spec_decode(y, keys, h) < h * h,
{
    let l4 = y / h;
    let r4 = y % h;
    vstd::arithmetic::div_mod::lemma_fundamental_div_mod(y, h);
    vstd::arithmetic::div_mod::lemma_mod_bound(y, h);
    assert(0 <= l4 < h) by (nonlinear_arith)
        requires h > 0 && 0 <= y < h * h && l4 == y / h && y == h * l4 + y % h && 0 <= y % h < h;
    lemma_mix_range(l4, keys[3] as int, h);
    let s3 = spec_round_inv(l4, r4, keys[3] as int, h);
    lemma_mix_range(s3.0, keys[2] as int, h);
    let s2 = spec_round_inv(s3.0, s3.1, keys[2] as int, h);
    lemma_mix_range(s2.0, keys[1] as int, h);
    let s1 = spec_round_inv(s2.0, s2.1, keys[1] as int, h);
    lemma_mix_range(s1.0, keys[0] as int, h);
    let s0 = spec_round_inv(s1.0, s1.1, keys[0] as int, h);
    assert(0 <= s0.0 < h && 0 <= s0.1 < h);
    assert(s0.0 * h + s0.1 < h * h && 0 <= s0.0 * h + s0.1) by (nonlinear_arith)
        requires 0 <= s0.0 < h && 0 <= s0.1 < h;
}

/// Decoding inverts encoding on the working domain.
proof fn lemma_decode_encode(x: int, keys: Seq<u32>, h: int)
    requires
        h > 0,
        keys.len() == 4,
        0 <= x < h * h,
    ensures
        spec_decode(spec_encode(x, keys, h), keys, h) == x,
{
    let l0 = x / h;
    let r0 = x % h;
    vstd::arithmetic::div_mod::lemma_fundamental_div_mod(x, h);
    vstd::arithmetic::div_mod::lemma_mod_bound(x, h);
    assert(0 <= l0 < h) by (nonlinear_arith)
        requires h > 0 && 0 <= x < h * h && l0 == x / h && x == h * l0 + x % h && 0 <= x % h < h;
    lemma_mix_range(r0, keys[0] as int, h);
    let s1 = spec_round(l0, r0, keys[0] as int, h);
    lemma_mix_range(s1.1, keys[1] as int, h);
    let s2 = spec_round(s1.0, s1.1, keys[1] as int, h);
    lemma_mix_range(s2.1, keys[2] as int, h);
    let s3 = spec_round(s2.0, s2.1, keys[2] as int, h);
    lemma_mix_range(s3.1, keys[3] as int, h);
    let s4 = spec_round(s3.0, s3.1, keys[3] as int, h);
    let y = spec_encode(x, keys, h);
    lemma_split_pair(s4.0, s4.1, h);
    assert(y / h == s4.0 && y % h == s4.1);
    assert(spec_round_inv(s4.0, s4.1, keys[3] as int, h) == s3);
    assert(spec_round_inv(s3.0, s3.1, keys[2] as int, h) == s2);
    assert(spec_round_inv(s2.0, s2.1, keys[1] as int, h) == s1);
    assert(spec_round_inv(s1.0, s1.1, keys[0] as int, h) == (l0, r0));
    assert(spec_decode(y, keys, h) == l0 * h + r0);
    assert(l0 * h + r0 == x) by (nonlinear_arith)
        requires x == h * l0 + r0;
}

/// `k`-fold iteration of a function on the integers.
pub open spec fn iter_f(f: spec_fn(int) -> int, k: nat, x: int) -> int
    decreases k,
{
    if k == 0 {
        x
    } else {
        f(iter_f(f, (k - 1) as nat, x))
    }
}

/// `f` maps `[0, n)` into itself.
pub open spec fn maps_range(f: spec_fn(int) -> int, n: int) -> bool {
    forall|x: int| 0 <= x < n ==> 0 <= #[trigger] f(x) < n
}

/// `f` is injective on `[0, n)`.
pub open spec fn inj_on(f: spec_fn(int) -> int, n: int) -> bool {
    forall|x: int, y: int| 0 <= x < n && 0 <= y < n && #[trigger] f(x) == #[trigger] f(y) ==> x == y
}

pub proof fn lemma_iter_range(f: spec_fn(int) -> int, n: int, k: nat, x: int)
    requires
        maps_range(f, n),
        0 <= x < n,
    ensures
        0 <= iter_f(f, k, x) < n,
    decreases k,
{
    if k > 0 {
        lemma_iter_range(f, n, (k - 1) as nat, x);
    }
}

proof fn lemma_iter_add(f: spec_fn(int) -> int, a: nat, b: nat, x: int)
    ensures
        iter_f(f, a + b, x) == iter_f(f, a, iter_f(f, b, x)),
    decreases a,
{
    if a > 0 {
        lemma_iter_add(f, (a - 1) as nat, b, x);
        assert(iter_f(f, ((a + b) - 1) as nat, x) == iter_f(f, (a - 1) as nat, iter_f(f, b, x)));
    }
}

proof fn lemma_iter_inj(f: spec_fn(int) -> int, n: int, k: nat, x: int, y: int)
    requires
        maps_range(f, n),
        inj_on(f, n),
        0 <= x < n,
        0 <= y < n,
        iter_f(f, k, x) == iter_f(f, k, y),
    ensures
        x == y,
    decreases k,
{
    if k > 0 {
        lemma_iter_range(f, n, (k - 1) as nat, x);
        lemma_iter_range(f, n, (k - 1) as nat, y);
        lemma_iter_inj(f, n, (k - 1) as nat, x, y);
    }
}

/// Every point of `[0, n)` returns to itself within `n` iterations of an
/// injective self-map: the orbit is a cycle.
proof fn lemma_cycle(f: spec_fn(int) -> int, n: int, x: int)
    requires
        maps_range(f, n),
        inj_on(f, n),
        0 <= x < n,
    ensures
        exists|k: nat| 1 <= k <= n && iter_f(f, k, x) == x,
{
    let s = Seq::new((n + 1) as nat, |j: int| iter_f(f, j as nat, x));
    if s.no_duplicates() {
        s.unique_seq_to_set();
        let range = vstd::set_lib::set_int_range(0, n);
        vstd::set_lib::lemma_int_range(0, n);
        assert forall|v: int| s.to_set().contains(v) implies range.contains(v) by {
            let j = choose|j: int| 0 <= j < s.len() && s[j] == v;
            lemma_iter_range(f, n, j as nat, x);
        }
        vstd::set_lib::lemma_len_subset(s.to_set(), range);
        assert(s.to_set().len() <= n);
        assert(false);
    } else {
        let (i, j) = choose|i: int, j: int| 0 <= i < s.len() && 0 <= j < s.len() && i != j
            && s[i] == s[j];
        let (a, b) = if i < j { (i, j) } else { (j, i) };
        assert(iter_f(f, a as nat, x) == iter_f(f, b as nat, x));
        let d = (b - a) as nat;
        lemma_iter_range(f, n, d, x);
        lemma_iter_add(f, a as nat, d, x);
        assert(iter_f(f, a as nat, iter_f(f, d, x)) == iter_f(f, a as nat, x));
        lemma_iter_inj(f, n, a as nat, iter_f(f, d, x), x);
        assert(1 <= d <= n && iter_f(f, d, x) == x);
    }
}

/// The walk from `x` reaches `y` below `d` after exactly `k` encodings, all
/// intermediate values being at least `d`.
pub open spec fn walk_reaches_at(f: spec_fn(int) -> int, d: int, x: int, y: int, k: nat) -> bool {
    &&& 1 <= k
    &&& y == iter_f(f, k, x)
    &&& y < d
    &&& forall|j: nat| 1 <= j < k ==> #[trigger] iter_f(f, j, x) >= d
}

/// The cycle walk from `x` stops at `y`.
pub open spec fn walk_reaches(f: spec_fn(int) -> int, d: int, x: int, y: int) -> bool {
    exists|k: nat| walk_reaches_at(f, d, x, y, k)
}

/// A stopping point below `d` exists for every starting point below `d`.
proof fn lemma_walk_exists_from(f: spec_fn(int) -> int, d: int, x: int, k: nat)
    requires
        1 <= k,
        iter_f(f, k, x) < d,
    ensures
        exists|y: int| walk_reaches(f, d, x, y),
    decreases k,
{
    if exists|j: nat| 1 <= j < k && iter_f(f, j, x) < d {
        let j = choose|j: nat| 1 <= j < k && iter_f(f, j, x) < d;
        lemma_walk_exists_from(f, d, x, j);
    } else {
        let y = iter_f(f, k, x);
        assert(walk_reaches_at(f, d, x, y, k));
        assert(walk_reaches(f, d, x, y));
    }
}

pub proof fn lemma_walk_exists(f: spec_fn(int) -> int, n: int, d: int, x: int)
    requires
        maps_range(f, n),
        inj_on(f, n),
        0 <= x < d <= n,
    ensures
        exists|y: int| walk_reaches(f, d, x, y),
{
    lemma_cycle(f, n, x);
    let k = choose|k: nat| 1 <= k <= n && iter_f(f, k, x) == x;
    lemma_walk_exists_from(f, d, x, k);
}

/// The walk's stopping point is unique.
pub proof fn lemma_walk_unique(f: spec_fn(int) -> int, d: int, x: int, y1: int, y2: int)
    requires
        walk_reaches(f, d, x, y1),
        walk_reaches(f, d, x, y2),
    ensures
        y1 == y2,
{
    let k1 = choose|k: nat| walk_reaches_at(f, d, x, y1, k);
    let k2 = choose|k: nat| walk_reaches_at(f, d, x, y2, k);
    if k1 < k2 {
        assert(iter_f(f, k1, x) >= d);
        assert(false);
    } else if k2 < k1 {
        assert(iter_f(f, k2, x) >= d);
        assert(false);
    }
}

/// The forward Feistel step for fixed keys and half-size.
pub open spec fn enc_fn(keys: Seq<u32>, h: int) -> spec_fn(int) -> int {
    |u: int| spec_encode(u, keys, h)
}

/// The inverse Feistel step.
pub open spec fn dec_fn(keys: Seq<u32>, h: int) -> spec_fn(int) -> int {
    |u: int| spec_decode(u, keys, h)
}

proof fn lemma_enc_fn_good(keys: Seq<u32>, h: int)
    requires
        h > 0,
        keys.len() == 4,
    ensures
        maps_range(enc_fn(keys, h), h * h),
        inj_on(enc_fn(keys, h), h * h),
        maps_range(dec_fn(keys, h), h * h),
        inj_on(dec_fn(keys, h), h * h),
{
    let n = h * h;
    assert(n >= 0) by (nonlinear_arith)
        requires h > 0 && n == h * h;
    assert forall|x: int| 0 <= x < n implies 0 <= #[trigger] enc_fn(keys, h)(x) < n by {
        lemma_encode_range(x, keys, h);
    }
    assert forall|x: int| 0 <= x < n implies 0 <= #[trigger] dec_fn(keys, h)(x) < n by {
        lemma_decode_range(x, keys, h);
    }
    assert forall|x: int, y: int| 0 <= x < n && 0 <= y < n
        && #[trigger] enc_fn(keys, h)(x) == #[trigger] enc_fn(keys, h)(y) implies x == y by {
        lemma_decode_encode(x, keys, h);
        lemma_decode_encode(y, keys, h);
    }
    assert forall|x: int, y: int| 0 <= x < n && 0 <= y < n
        && #[trigger] dec_fn(keys, h)(x) == #[trigger] dec_fn(keys, h)(y) implies x == y by {
        lemma_decode_range(x, keys, h);
        lemma_decode_range(y, keys, h);
        lemma_encode_decode(x, keys, h);
        lemma_encode_decode(y, keys, h);
    }
}

fn mix(r: u64, key: u32, h: u64) -> (res: u64)
    requires
        0 < h <= 0x1_0000,
        r < h,
    ensures
        res as int == spec_mix(r as int, key as int, h as int),
        res < h,
{
    proof {
        assert(r * 0x9E37_79B9 <= 0xFFFF * 0x9E37_79B9) by (nonlinear_arith)
            requires r <= 0xFFFF;
        assert((key as u64) * 0x6A09_E667 <= 0xFFFF_FFFF * 0x6A09_E667) by (nonlinear_arith)
            requires key <= 0xFFFF_FFFF;
    }
    let s: u64 = r * 0x9E37_79B9 + (key as u64) * 0x6A09_E667 + 0xB7E1_5162;
    proof {
        vstd::arithmetic::div_mod::lemma_mod_bound(s as int, h as int);
    }
    s % h
}

fn addmod(a: u64, b: u64, h: u64) -> (res: u64)
    requires
        0 < h <= 0x1_0000,
        a < h,
        b < h,
    ensures
        res as int == spec_addmod(a as int, b as int, h as int),
        res < h,
{
    let s = a + b;
    if s >= h { s - h } else { s }
}

fn submod(a: u64, b: u64, h: u64) -> (res: u64)
    requires
        0 < h <= 0x1_0000,
        a < h,
        b < h,
    ensures
        res as int == spec_submod(a as int, b as int, h as int),
        res < h,
{
    if a >= b { a - b } else { a + h - b }
}

fn encode(pre: FeistelPrecomputed, keys: &[u32; 4], x: u64) -> (y: u64)
    requires
        2 <= pre.half <= 0x1_0000,
        (x as int) < (pre.half as int) * (pre.half as int),
    ensures
        y as int == spec_encode(x as int, keys@, pre.half as int),
        (y as int) < (pre.half as int) * (pre.half as int),
{
    let h: u64 = pre.half as u64;
    let mut l: u64 = x / h;
    let mut r: u64 = x % h;
    proof {
        vstd::arithmetic::div_mod::lemma_fundamental_div_mod(x as int, h as int);
        vstd::arithmetic::div_mod::lemma_mod_bound(x as int, h as int);
        assert(l < h) by (nonlinear_arith)
            requires
                h > 0 && (x as int) < (h as int) * (h as int) && l == x as int / h as int
                    && x as int == (h as int) * (l as int) + (x as int) % (h as int)
                    && 0 <= (x as int) % (h as int),
        ;
    }
    let t0 = addmod(l, mix(r, keys[0], h), h);
    l = r;
    r = t0;
    let t1 = addmod(l, mix(r, keys[1], h), h);
    l = r;
    r = t1;
    let t2 = addmod(l, mix(r, keys[2], h), h);
    l = r;
    r = t2;
    let t3 = addmod(l, mix(r, keys[3], h), h);
    l = r;
    r = t3;
    proof {
        assert(l * h + r < h * h && l * h + r < 0x1_0000_0000) by (nonlinear_arith)
            requires l < h && r < h && h <= 0x1_0000;
    }
    l * h + r
}

fn decode(pre: FeistelPrecomputed, keys: &[u32; 4], y: u64) -> (x: u64)
    requires
        2 <= pre.half <= 0x1_0000,
        (y as int) < (pre.half as int) * (pre.half as int),
    ensures
        x as int == spec_decode(y as int, keys@, pre.half as int),
        (x as int) < (pre.half as int) * (pre.half as int),
{
    let h: u64 = pre.half as u64;
    let mut l: u64 = y / h;
    let mut r: u64 = y % h;
    proof {
        vstd::arithmetic::div_mod::lemma_fundamental_div_mod(y as int, h as int);
        vstd::arithmetic::div_mod::lemma_mod_bound(y as int, h as int);
        assert(l < h) by (nonlinear_arith)
            requires
                h > 0 && (y as int) < (h as int) * (h as int) && l == y as int / h as int
                    && y as int == (h as int) * (l as int) + (y as int) % (h as int)
                    && 0 <= (y as int) % (h as int),
        ;
    }
    let t3 = submod(r, mix(l, keys[3], h), h);
    r = l;
    l = t3;
    let t2 = submod(r, mix(l, keys[2], h), h);
    r = l;
    l = t2;
    let t1 = submod(r, mix(l, keys[1], h), h);
    r = l;
    l = t1;
    let t0 = submod(r, mix(l, keys[0], h), h);
    r = l;
    l = t0;
    proof {
        assert(l * h + r < h * h && l * h + r < 0x1_0000_0000) by (nonlinear_arith)
            requires l < h && r < h && h <= 0x1_0000;
    }
    l * h + r
}

/// Walks the Feistel permutation forward from `index` until it lands inside
/// `[0, num_elements)`; the result is the keyed permutation of `index`.
pub fn permute(num_elements: u32, index: u32, keys: &[u32; 4], pre: FeistelPrecomputed) -> (res: u32)
    requires
        pre_valid(pre, num_elements as int),
        index < num_elements,
    ensures
        res < num_elements,
        walk_reaches(enc_fn(keys@, pre.half as int), num_elements as int, index as int, res as int),
{
    let ghost h = pre.half as int;
    let ghost f = enc_fn(keys@, h);
    let ghost d = num_elements as int;
    proof {
        lemma_enc_fn_good(keys@, h);
        lemma_walk_exists(f, h * h, d, index as int);
    }
    let ghost y0 = choose|y0: int| walk_reaches(f, d, index as int, y0);
    let ghost k0 = choose|k0: nat| walk_reaches_at(f, d, index as int, y0, k0);
    let mut u: u64 = encode(pre, keys, index as u64);
    let ghost mut k: nat = 1;
    proof {
        assert(iter_f(f, 0, index as int) == index as int);
        assert(iter_f(f, 1, index as int) == f(iter_f(f, 0, index as int)));
    }
    while u >= num_elements as u64
        invariant
            pre_valid(pre, num_elements as int),
            h == pre.half as int,
            f == enc_fn(keys@, h),
            d == num_elements as int,
            1 <= k <= k0,
            walk_reaches_at(f, d, index as int, y0, k0),
            u as int == iter_f(f, k, index as int),
            (u as int) < h * h,
            forall|j: nat| 1 <= j < k ==> #[trigger] iter_f(f, j, index as int) >= d,
        decreases k0 - k,
    {
        proof {
            if k == k0 {
                assert(u as int == y0);
                assert(false);
            }
        }
        u = encode(pre, keys, u);
        proof {
            k = k + 1;
            assert(iter_f(f, k, index as int) == f(iter_f(f, (k - 1) as nat, index as int)));
        }
    }
    proof {
        assert(walk_reaches_at(f, d, index as int, u as int, k));
    }
    u as u32
}

/// Walks the inverse permutation from `index` until it lands inside
/// `[0, num_elements)`; this inverts `permute`.
pub fn invert_permute(num_elements: u32, index: u32, keys: &[u32; 4], pre: FeistelPrecomputed) -> (res: u32)
    requires
        pre_valid(pre, num_elements as int),
        index < num_elements,
    ensures
        res < num_elements,
        walk_reaches(dec_fn(keys@, pre.half as int), num_elements as int, index as int, res as int),
{
    let ghost h = pre.half as int;
    let ghost f = dec_fn(keys@, h);
    let ghost d = num_elements as int;
    proof {
        lemma_enc_fn_good(keys@, h);
        lemma_walk_exists(f, h * h, d, index as int);
    }
    let ghost y0 = choose|y0: int| walk_reaches(f, d, index as int, y0);
    let ghost k0 = choose|k0: nat| walk_reaches_at(f, d, index as int, y0, k0);
    let mut u: u64 = decode(pre, keys, index as u64);
    let ghost mut k: nat = 1;
    proof {
        assert(iter_f(f, 0, index as int) == index as int);
        assert(iter_f(f, 1, index as int) == f(iter_f(f, 0, index as int)));
    }
    while u >= num_elements as u64
        invariant
            pre_valid(pre, num_elements as int),
            h == pre.half as int,
            f == dec_fn(keys@, h),
            d == num_elements as int,
            1 <= k <= k0,
            walk_reaches_at(f, d, index as int, y0, k0),
            u as int == iter_f(f, k, index as int),
            (u as int) < h * h,
            forall|j: nat| 1 <= j < k ==> #[trigger] iter_f(f, j, index as int) >= d,
        decreases k0 - k,
    {
        proof {
            if k == k0 {
                assert(u as int == y0);
                assert(false);
            }
        }
        u = decode(pre, keys, u);
        proof {
            k = k + 1;
            assert(iter_f(f, k, index as int) == f(iter_f(f, (k - 1) as nat, index as int)));
        }
    }
    proof {
        assert(walk_reaches_at(f, d, index as int, u as int, k));
    }
    u as u32
}

proof fn lemma_walk_back_step(f: spec_fn(int) -> int, g: spec_fn(int) -> int, n: int, x: int, k: nat, j: nat)
    requires
        maps_range(f, n),
        forall|u: int| 0 <= u < n ==> #[trigger] g(f(u)) == u,
        0 <= x < n,
        j <= k,
    ensures
        iter_f(g, j, iter_f(f, k, x)) == iter_f(f, (k - j) as nat, x),
    decreases j,
{
    if j > 0 {
        lemma_walk_back_step(f, g, n, x, k, (j - 1) as nat);
        let prev = iter_f(f, (k - j + 1) as nat, x);
        assert(iter_f(g, j, iter_f(f, k, x)) == g(prev));
        assert(prev == f(iter_f(f, (k - j) as nat, x)));
        lemma_iter_range(f, n, (k - j) as nat, x);
    }
}

/// Walking back with the inverse map from the walk's stopping point returns
/// to the starting point.
pub proof fn lemma_walk_back(f: spec_fn(int) -> int, g: spec_fn(int) -> int, n: int, d: int, x: int, y: int)
    requires
        maps_range(f, n),
        forall|u: int| 0 <= u < n ==> #[trigger] g(f(u)) == u,
        0 <= x < d <= n,
        walk_reaches(f, d, x, y),
    ensures
        walk_reaches(g, d, y, x),
{
    let k = choose|k: nat| walk_reaches_at(f, d, x, y, k);
    assert forall|j: nat| 1 <= j < k implies #[trigger] iter_f(g, j, y) >= d by {
        lemma_walk_back_step(f, g, n, x, k, j);
        assert(iter_f(g, j, y) == iter_f(f, (k - j) as nat, x));
    }
    lemma_walk_back_step(f, g, n, x, k, k);
    assert(iter_f(g, k, y) == iter_f(f, 0, x));
    assert(walk_reaches_at(g, d, y, x, k));
}

/// The Feistel step and its inverse really are mutually inverse self-maps of
/// the working domain, for use with the walk lemmas.
pub proof fn lemma_feistel_fns_good(keys: Seq<u32>, h: int)
    requires
        h > 0,
        keys.len() == 4,
    ensures
        maps_range(enc_fn(keys, h), h * h),
        inj_on(enc_fn(keys, h), h * h),
        maps_range(dec_fn(keys, h), h * h),
        inj_on(dec_fn(keys, h), h * h),
        forall|u: int| 0 <= u < h * h ==> #[trigger] dec_fn(keys, h)(enc_fn(keys, h)(u)) == u,
        forall|u: int| 0 <= u < h * h ==> #[trigger] enc_fn(keys, h)(dec_fn(keys, h)(u)) == u,
{
    lemma_enc_fn_good(keys, h);
    assert forall|u: int| 0 <= u < h * h implies #[trigger] dec_fn(keys, h)(enc_fn(keys, h)(u)) == u by {
        lemma_decode_encode(u, keys, h);
    }
    assert forall|u: int| 0 <= u < h * h implies #[trigger] enc_fn(keys, h)(dec_fn(keys, h)(u)) == u by {
        lemma_encode_decode(u, keys, h);
    }
}

/// Feistel bijection: the inverse walk started at `permute`'s result returns
/// the original index. Together with the `ensures` of `permute` and
/// `invert_permute` this states
/// `invert_permute(D, permute(D, x, k, pre), k, pre) == x` for every
/// `x < D`.
pub proof fn lemma_permute_round_trip(d: int, x: int, y: int, z: int, keys: Seq<u32>, pre: FeistelPrecomputed)
    requires
        pre_valid(pre, d),
        keys.len() == 4,
        0 <= x < d,
        walk_reaches(enc_fn(keys, pre.half as int), d, x, y),
        walk_reaches(dec_fn(keys, pre.half as int), d, y, z),
    ensures
        z == x,
{
    let h = pre.half as int;
    let enc = enc_fn(keys, h);
    let dec = dec_fn(keys, h);
    lemma_feistel_fns_good(keys, h);
    lemma_walk_back(enc, dec, h * h, d, x, y);
    lemma_walk_unique(dec, d, y, x, z);
}

/// Encoding inverts decoding as well.
proof fn lemma_encode_decode(y: int, keys: Seq<u32>, h: int)
    requires
        h > 0,
        keys.len() == 4,
        0 <= y < h * h,
    ensures
        spec_encode(spec_decode(y, keys, h), keys, h) == y,
{
    let l4 = y / h;
    let r4 = y % h;
    vstd::arithmetic::div_mod::lemma_fundamental_div_mod(y, h);
    vstd::arithmetic::div_mod::lemma_mod_bound(y, h);
    assert(0 <= l4 < h) by (nonlinear_arith)
        requires h > 0 && 0 <= y < h * h && l4 == y / h && y == h * l4 + y % h && 0 <= y % h < h;
    lemma_mix_range(l4, keys[3] as int, h);
    let s3 = spec_round_inv(l4, r4, keys[3] as int, h);
    lemma_mix_range(s3.0, keys[2] as int, h);
    let s2 = spec_round_inv(s3.0, s3.1, keys[2] as int, h);
    lemma_mix_range(s2.0, keys[1] as int, h);
    let s1 = spec_round_inv(s2.0, s2.1, keys[1] as int, h);
    lemma_mix_range(s1.0, keys[0] as int, h);
    let s0 = spec_round_inv(s1.0, s1.1, keys[0] as int, h);
    lemma_split_pair(s0.0, s0.1, h);
    let x = spec_decode(y, keys, h);
    assert(x / h == s0.0 && x % h == s0.1);
    assert(spec_round(s0.0, s0.1, keys[0] as int, h) == s1);
    assert(spec_round(s1.0, s1.1, keys[1] as int, h) == s2);
    assert(spec_round(s2.0, s2.1, keys[2] as int, h) == s3);
    assert(spec_round(s3.0, s3.1, keys[3] as int, h) == (l4, r4));
    assert(spec_encode(x, keys, h) == l4 * h + r4);
    assert(l4 * h + r4 == y) by (nonlinear_arith)
        requires y == h * l4 + r4;
}

} // verus!
