//! Rounding of exact dyadic and rational magnitudes to a fixed number of
//! significant bits, to nearest with ties to even.
//!
//! A binary floating-point format with `p` significant bits and a smallest
//! positive value ("unit") stores a magnitude as an integer code.  The code
//! counts the representable magnitudes in increasing order, so that
//! `code == s * 2^(p-1) + t` stands for `t * 2^s` units whenever
//! `2^(p-1) <= t <= 2^p`, and for `t` units when `s == 0`.
use vstd::arithmetic::div_mod::*;
use vstd::arithmetic::mul::*;
use vstd::arithmetic::power2::*;
use vstd::bits::*;
use vstd::prelude::*;

verus! {

/// `n / d` rounded to the nearest integer, ties to the even one.
pub open spec fn rne(n: nat, d: nat) -> nat {
    let q = n / d;
    let r = n % d;
    if 2 * r < d || (2 * r == d && q % 2 == 0) {
        q
    } else {
        q + 1
    }
}

/// How many low bits of `q` do not fit in `p` significant bits.
pub open spec fn excess(q: nat, p: nat) -> nat
    decreases q,
{
    if q == 0 || q < pow2(p) {
        0
    } else {
        1 + excess(q / 2, p)
    }
}

/// The code of the representable magnitude nearest to `n / d` units, in a
/// format with `p` significant bits and no upper limit.
pub open spec fn code(n: nat, d: nat, p: nat) -> nat {
    let s = excess(n / d, p);
    s * pow2((p - 1) as nat) + rne(n, d * pow2(s))
}

/// The code of the magnitude nearest to `x * 2^k` units.
pub open spec fn scaled_code(x: nat, k: int, p: nat) -> nat {
    if k >= 0 {
        code(x * pow2(k as nat), 1, p)
    } else {
        code(x, pow2((-k) as nat), p)
    }
}

/// The magnitude, in units, that a code stands for.
pub open spec fn magnitude(c: nat, p: nat) -> nat {
    let h = pow2((p - 1) as nat);
    let e = c / h;
    if e == 0 {
        c
    } else {
        (c % h + h) * pow2((e - 1) as nat)
    }
}

pub proof fn lemma_excess_is(q: nat, p: nat, s: nat)
    requires
        p >= 1,
        q < pow2(p + s),
        s > 0 ==> q >= pow2((p + s - 1) as nat),
    ensures
        excess(q, p) == s,
    decreases s,
{
    if s > 0 {
        if s > 1 {
            lemma_pow2_strictly_increases(p, (p + s - 1) as nat);
        }
        lemma_pow2_unfold(p + s);
        if s > 1 {
            lemma_pow2_unfold((p + s - 1) as nat);
        }
        assert(p + (s - 1) as nat == p + s - 1);
        lemma_excess_is(q / 2, p, (s - 1) as nat);
    }
}

pub proof fn lemma_excess_bounds(q: nat, p: nat)
    requires
        p >= 1,
    ensures
        q < pow2(p + excess(q, p)),
        excess(q, p) > 0 ==> q >= pow2((p + excess(q, p) - 1) as nat),
    decreases q,
{
    if q >= pow2(p) {
        lemma_pow2_pos(p);
        lemma_excess_bounds(q / 2, p);
        let s = excess(q / 2, p);
        lemma_pow2_unfold(p + s + 1);
        assert(p + excess(q, p) == p + s + 1);
        if s > 0 {
            lemma_pow2_unfold(p + s);
        }
    }
}

/// Scaling numerator and denominator alike changes neither quotient nor the
/// relative remainder.
pub proof fn lemma_scale_div(n: nat, d: nat, c: nat)
    requires
        d > 0,
        c > 0,
    ensures
        d * c > 0,
        (n * c) / (d * c) == n / d,
        (n * c) % (d * c) == (n % d) * c,
{
    let q = n / d;
    let r = n % d;
    lemma_fundamental_div_mod(n as int, d as int);
    assert(d * c > 0) by (nonlinear_arith)
        requires
            d > 0,
            c > 0,
    ;
    assert(n * c == q * (d * c) + r * c) by (nonlinear_arith)
        requires
            n == d * q + r,
    ;
    assert(0 <= r * c < d * c) by (nonlinear_arith)
        requires
            0 <= r < d,
            c > 0,
    ;
    lemma_fundamental_div_mod_converse((n * c) as int, (d * c) as int, q as int, (r * c) as int);
}

pub proof fn lemma_rne_scale(n: nat, d: nat, c: nat)
    requires
        d > 0,
        c > 0,
    ensures
        d * c > 0,
        rne(n * c, d * c) == rne(n, d),
{
    lemma_scale_div(n, d, c);
    let r = n % d;
    assert(2 * r < d ==> 2 * (r * c) < d * c) by (nonlinear_arith)
        requires
            c > 0,
    ;
    assert(2 * r == d ==> 2 * (r * c) == d * c) by (nonlinear_arith);
    assert(2 * r > d ==> 2 * (r * c) > d * c) by (nonlinear_arith)
        requires
            c > 0,
    ;
}

pub proof fn lemma_code_scale(n: nat, d: nat, c: nat, p: nat)
    requires
        d > 0,
        c > 0,
    ensures
        code(n * c, d * c, p) == code(n, d, p),
{
    lemma_scale_div(n, d, c);
    let s = excess(n / d, p);
    lemma_pow2_pos(s);
    assert(d * pow2(s) > 0) by (nonlinear_arith)
        requires
            d > 0,
            pow2(s) > 0,
    ;
    assert((d * c) * pow2(s) == (d * pow2(s)) * c) by (nonlinear_arith);
    lemma_rne_scale(n, d * pow2(s), c);
}

/// An exact multiple rounds to itself.
pub proof fn lemma_rne_exact(t: nat, d: nat)
    requires
        d > 0,
    ensures
        rne(t * d, d) == t,
{
    lemma_fundamental_div_mod_converse((t * d) as int, d as int, t as int, 0);
}

/// Less than half a unit rounds to zero.
pub proof fn lemma_rne_small(n: nat, d: nat)
    requires
        2 * n < d,
    ensures
        rne(n, d) == 0,
{
    lemma_small_mod(n, d);
    lemma_basic_div(n as int, d as int);
}

pub proof fn lemma_one_shl(n: u128)
    requires
        n < 127,
    ensures
        1u128 << n == pow2(n as nat),
    decreases n,
{
    lemma2_to64();
    if n == 0 {
        assert(1u128 << 0u128 == 1u128) by (bit_vector);
    } else {
        let m = (n - 1) as u128;
        lemma_one_shl(m);
        lemma_pow2_unfold(n as nat);
        assert(m < 126 && n == m + 1 ==> (1u128 << n) == 2 * (1u128 << m)) by (bit_vector);
    }
}

proof fn lemma_drop_low_bits(x: nat, l: nat, j: nat)
    ensures
        (x / pow2(l)) / pow2(j) == x / pow2(l + j),
{
    lemma_pow2_pos(l);
    lemma_pow2_pos(j);
    lemma_pow2_adds(l, j);
    lemma_div_denominator(x as int, pow2(l) as int, pow2(j) as int);
}

/// Drops `j` low bits of `y`, the part of `x` above its `l` low bits, unless
/// `y` has no more than `j` bits.
fn drop_bits(Ghost(x): Ghost<nat>, y: u128, l: u32, j: u32, w: u128) -> (r: (u128, u32))
    requires
        l <= 128,
        j <= 64,
        w == pow2(j as nat),
        w > 0,
        y < w * w,
        x / pow2(l as nat) == y,
        l > 0 ==> y > 0,
    ensures
        r.0 < w,
        l <= r.1 <= l + j,
        x / pow2(r.1 as nat) == r.0,
        r.1 > 0 ==> r.0 > 0,
{
    if y >= w {
        proof {
            lemma_drop_low_bits(x, l as nat, j as nat);
            lemma_div_is_ordered(w as int, y as int, w as int);
            lemma_div_by_multiple(1, w as int);
            lemma_fundamental_div_mod(y as int, w as int);
            assert(y / w < w) by (nonlinear_arith)
                requires
                    y < w * w,
                    y == w * (y / w) + y % w,
                    y % w >= 0,
                    w > 0,
            ;
        }
        (y / w, l + j)
    } else {
        (y, l)
    }
}

/// The number of bits of `x`.
pub fn bit_length(x: u128) -> (l: u32)
    ensures
        l <= 128,
        x < pow2(l as nat),
        l > 0 ==> x >= pow2((l - 1) as nat),
        l == 0 <==> x == 0,
{
    assert(pow2(0) == 1 && pow2(1) == 2 && pow2(2) == 4 && pow2(4) == 0x10 && pow2(8) == 0x100
        && pow2(16) == 0x1_0000 && pow2(32) == 0x1_0000_0000 && pow2(64)
        == 0x1_0000_0000_0000_0000) by {
        lemma2_to64();
        lemma2_to64_rest();
    }
    let y: u128 = x;
    let l: u32 = 0;
    assert(x as nat / pow2(0) == x) by {
        lemma_div_basics(x as int);
    }
    let (y, l): (u128, u32) = drop_bits(Ghost(x as nat), y, l, 64, 0x1_0000_0000_0000_0000);
    let (y, l): (u128, u32) = drop_bits(Ghost(x as nat), y, l, 32, 0x1_0000_0000);
    let (y, l): (u128, u32) = drop_bits(Ghost(x as nat), y, l, 16, 0x1_0000);
    let (y, l): (u128, u32) = drop_bits(Ghost(x as nat), y, l, 8, 0x100);
    let (y, l): (u128, u32) = drop_bits(Ghost(x as nat), y, l, 4, 0x10);
    let (y, l): (u128, u32) = drop_bits(Ghost(x as nat), y, l, 2, 4);
    let (y, l): (u128, u32) = drop_bits(Ghost(x as nat), y, l, 1, 2);
    proof {
        lemma_pow2_pos(l as nat);
        lemma_pow2_unfold((l + 1) as nat);
        lemma_fundamental_div_mod(x as int, pow2(l as nat) as int);
        assert(y == 0 ==> pow2(l as nat) * y == 0);
        assert(y == 1 ==> pow2(l as nat) * y == pow2(l as nat)) by (nonlinear_arith);
    }
    if y == 1 {
        l + 1
    } else {
        l
    }
}

/// `x / 2^sh` rounded to nearest, ties to even.
fn shifted_rne(x: u128, sh: u32) -> (t: u128)
    requires
        x < pow2(126),
    ensures
        t == rne(x as nat, pow2(sh as nat)),
        t <= x,
{
    if sh >= 127 {
        proof {
            lemma_pow2_unfold(127);
            if sh > 127 {
                lemma_pow2_strictly_increases(127, sh as nat);
            }
            lemma_rne_small(x as nat, pow2(sh as nat));
        }
        return 0;
    }
    proof {
        lemma_one_shl(sh as u128);
        lemma_pow2_pos(sh as nat);
        lemma_u128_shr_is_div(x, sh as u128);
        lemma_fundamental_div_mod(x as int, pow2(sh as nat) as int);
        lemma_pow2_strictly_increases(sh as nat, 127);
        lemma_pow2_unfold(127);
        assert(pow2(126) <= 0x4000_0000_0000_0000_0000_0000_0000_0000) by {
            lemma2_to64_rest();
            lemma_pow2_adds(63, 63);
            assert(0x8000_0000_0000_0000 * 0x8000_0000_0000_0000
                == 0x4000_0000_0000_0000_0000_0000_0000_0000) by (nonlinear_arith);
        }
    }
    let d: u128 = 1u128 << sh;
    let q: u128 = x >> sh;
    assert(q * d == d * q) by (nonlinear_arith);
    let r: u128 = x - q * d;
    proof {
        assert(q <= x) by (nonlinear_arith)
            requires
                q * d <= x,
                d >= 1,
        ;
        assert(q == x ==> r == 0) by (nonlinear_arith)
            requires
                q * d + r == x,
                d >= 1,
                r >= 0,
        ;
    }
    if 2 * r < d || (2 * r == d && q % 2 == 0) {
        q
    } else {
        q + 1
    }
}

/// What the shift and the integer part of a scaled code are, for an `x` of
/// `l` bits.
proof fn lemma_scaled_parts(x: nat, k: int, p: nat, l: nat, s: nat)
    requires
        p >= 1,
        l >= 1,
        pow2((l - 1) as nat) <= x < pow2(l),
        s == (if l + k > p {
            l + k - p
        } else {
            0
        }),
    ensures
        scaled_code(x, k, p) == s * pow2((p - 1) as nat) + (if s <= k {
            x * pow2((k - s) as nat)
        } else {
            rne(x, pow2((s - k) as nat))
        }),
        s <= k ==> x * pow2((k - s) as nat) < pow2(p),
{
    lemma_pow2_pos(s);
    if k >= 0 {
        let kn = k as nat;
        let n = x * pow2(kn);
        lemma_pow2_pos(kn);
        lemma_pow2_adds(l, kn);
        lemma_pow2_adds((l - 1) as nat, kn);
        assert(pow2((l - 1 + kn) as nat) <= n < pow2(l + kn)) by (nonlinear_arith)
            requires
                n == x * pow2(kn),
                pow2(kn) > 0,
                pow2((l - 1) as nat) <= x < pow2(l),
                pow2((l - 1 + kn) as nat) == pow2((l - 1) as nat) * pow2(kn),
                pow2(l + kn) == pow2(l) * pow2(kn),
        ;
        assert((l - 1) as nat + kn == (l - 1 + kn) as nat);
        if s > 0 {
            assert(p + s == l + kn);
        } else if l + kn < p {
            lemma_pow2_strictly_increases(l + kn, p);
        }
        lemma_div_basics(n as int);
        assert(n / 1 == n);
        lemma_excess_is(n / 1, p, s);
        assert(1 * pow2(s) == pow2(s));
        if s <= k {
            let j = (k - s) as nat;
            lemma_pow2_adds(j, s);
            assert(n == (x * pow2(j)) * pow2(s)) by (nonlinear_arith)
                requires
                    n == x * pow2(kn),
                    pow2(kn) == pow2(j) * pow2(s),
            ;
            lemma_rne_exact(x * pow2(j), pow2(s));
            lemma_pow2_pos(j);
            lemma_pow2_adds(l, j);
            assert(x * pow2(j) < pow2(l + j)) by (nonlinear_arith)
                requires
                    x < pow2(l),
                    pow2(j) > 0,
                    pow2(l + j) == pow2(l) * pow2(j),
            ;
            if l + j < p {
                lemma_pow2_strictly_increases(l + j, p);
            }
        } else {
            let j = (s - k) as nat;
            lemma_pow2_adds(j, kn);
            lemma_pow2_pos(j);
            lemma_rne_scale(x, pow2(j), pow2(kn));
        }
    } else {
        let m = (-k) as nat;
        let d = pow2(m);
        lemma_pow2_pos(m);
        assert(x / d < pow2(p + s)) by {
            lemma_pow2_adds(p + s, m);
            if l < p + s + m {
                lemma_pow2_strictly_increases(l, p + s + m);
            }
            lemma_fundamental_div_mod(x as int, d as int);
            let q = x / d;
            if q >= pow2(p + s) {
                assert(q * d >= pow2(p + s) * d) by (nonlinear_arith)
                    requires
                        q >= pow2(p + s),
                        d > 0,
                ;
                assert(q * d == d * q) by (nonlinear_arith);
            }
        }
        if s > 0 {
            assert(l - 1 == (p + s - 1) + m);
            lemma_pow2_adds((p + s - 1) as nat, m);
            lemma_div_is_ordered(pow2((l - 1) as nat) as int, x as int, d as int);
            lemma_div_by_multiple(pow2((p + s - 1) as nat) as int, d as int);
        }
        lemma_excess_is(x / d, p, s);
        lemma_pow2_adds(m, s);
        assert(s + m == (s - k) as nat);
        assert(d * pow2(s) == pow2((s - k) as nat));
    }
}

/// The code of the magnitude nearest to `x * 2^k` units.
pub fn round_scaled(x: u128, k: i32, p: u32) -> (c: u128)
    requires
        x < pow2(126),
        -6000 <= k <= 6000,
        1 <= p <= 53,
    ensures
        c == scaled_code(x as nat, k as int, p as nat),
{
    proof {
        lemma2_to64();
        lemma2_to64_rest();
    }
    if x == 0 {
        proof {
            if k >= 0 {
                lemma_rne_exact(0, 1);
                assert(0 * pow2(k as nat) == 0) by (nonlinear_arith);
            } else {
                let d = pow2((-k) as nat);
                lemma_pow2_pos((-k) as nat);
                lemma_basic_div(0, d as int);
                lemma_rne_exact(0, d);
                assert(d * pow2(0) == d) by (nonlinear_arith)
                    requires
                        pow2(0) == 1,
                ;
            }
            assert(0 * pow2((p - 1) as nat) == 0) by (nonlinear_arith);
            lemma_pow2_pos(p as nat);
        }
        return 0;
    }
    let l: u32 = bit_length(x);
    proof {
        if l > 127 {
            lemma_pow2_strictly_increases(126, (l - 1) as nat);
        }
        assert(l <= 126);
    }
    let total: i32 = l as i32 + k;
    let s: i32 = if total > p as i32 {
        total - p as i32
    } else {
        0
    };
    proof {
        lemma_scaled_parts(x as nat, k as int, p as nat, l as nat, s as nat);
        lemma_one_shl((p - 1) as u128);
        if p < 54 {
            lemma_pow2_strictly_increases((p - 1) as nat, 54);
            lemma_pow2_strictly_increases(p as nat, 54);
        }
        assert(s * pow2((p - 1) as nat) <= 6200 * pow2(54)) by (nonlinear_arith)
            requires
                0 <= s <= 6200,
                0 <= pow2((p - 1) as nat) <= pow2(54),
        ;
        lemma_pow2_unfold(127);
        lemma_pow2_strictly_increases(64, 126);
        assert(pow2(126) == 0x4000_0000_0000_0000_0000_0000_0000_0000) by {
            lemma_pow2_adds(63, 63);
            assert(0x8000_0000_0000_0000 * 0x8000_0000_0000_0000
                == 0x4000_0000_0000_0000_0000_0000_0000_0000) by (nonlinear_arith);
        }
    }
    let t: u128 = if s <= k {
        let j: u32 = (k - s) as u32;
        proof {
            assert(j < 54) by {
                lemma_pow2_pos(j as nat);
                if j >= 54 {
                    if j > 54 {
                        lemma_pow2_strictly_increases(54, j as nat);
                    }
                    assert(x * pow2(j as nat) >= pow2(j as nat)) by (nonlinear_arith)
                        requires
                            x >= 1,
                            pow2(j as nat) > 0,
                    ;
                }
            }
            lemma_one_shl(j as u128);
        }
        x * (1u128 << j)
    } else {
        shifted_rne(x, (s - k) as u32)
    };
    (s as u128) * (1u128 << (p - 1)) + t
}

/// Cutting at least one bit below the last kept one, a remainder only
/// matters by being there at all.
proof fn lemma_rne_sticky(q: nat, r: nat, b: nat, m: nat)
    requires
        r < b,
        m >= 1,
    ensures
        b * pow2(m) > 0,
        rne(q * b + r, b * pow2(m)) == rne(
            2 * q + (if r > 0 {
                1nat
            } else {
                0nat
            }),
            pow2(m + 1),
        ),
{
    let st: nat = if r > 0 {
        1
    } else {
        0
    };
    let d = pow2(m);
    let e = pow2((m - 1) as nat);
    lemma_pow2_pos(m);
    lemma_pow2_unfold(m);
    lemma_pow2_unfold(m + 1);
    lemma_fundamental_div_mod(q as int, d as int);
    let u = q / d;
    let v = q % d;
    assert(b * d > 0) by (nonlinear_arith)
        requires
            b > 0,
            d > 0,
    ;
    let rr = v * b + r;
    assert(q * b + r == u * (b * d) + rr) by (nonlinear_arith)
        requires
            q == d * u + v,
            rr == v * b + r,
    ;
    assert(rr < b * d) by (nonlinear_arith)
        requires
            rr == v * b + r,
            r < b,
            v + 1 <= d,
    ;
    lemma_fundamental_div_mod_converse((q * b + r) as int, (b * d) as int, u as int, rr as int);
    assert(2 * q + st == u * (2 * d) + (2 * v + st)) by (nonlinear_arith)
        requires
            q == d * u + v,
    ;
    lemma_fundamental_div_mod_converse(
        (2 * q + st) as int,
        (2 * d) as int,
        u as int,
        (2 * v + st) as int,
    );
    assert(v < e ==> rr < b * e) by (nonlinear_arith)
        requires
            rr == v * b + r,
            r < b,
    ;
    assert(v > e ==> rr > b * e) by (nonlinear_arith)
        requires
            rr == v * b + r,
            b > 0,
            r >= 0,
    ;
    assert(v == e ==> rr == b * e + r) by (nonlinear_arith)
        requires
            rr == v * b + r,
    ;
    assert(b * d == 2 * (b * e)) by (nonlinear_arith)
        requires
            d == 2 * e,
    ;
}

/// A quotient with at least two bits to spare may carry its remainder as one
/// extra low bit.
pub proof fn lemma_code_sticky(q: nat, r: nat, b: nat, j: int, p: nat)
    requires
        p >= 1,
        r < b,
        q >= pow2(p + 1),
    ensures
        ({
            let x = 2 * q + (if r > 0 {
                1nat
            } else {
                0nat
            });
            scaled_code(x, j - 1, p) == (if j >= 0 {
                code((q * b + r) * pow2(j as nat), b, p)
            } else {
                code(q * b + r, b * pow2((-j) as nat), p)
            })
        }),
{
    let x = 2 * q + (if r > 0 {
        1nat
    } else {
        0nat
    });
    let lq = excess(q, 1) + 1;
    lemma_excess_bounds(q, 1);
    lemma2_to64();
    lemma_pow2_pos(p + 1);
    if lq < p + 2 {
        if lq < p + 1 {
            lemma_pow2_strictly_increases(lq, p + 1);
        }
    }
    assert(pow2((lq - 1) as nat) <= q < pow2(lq));
    lemma_pow2_unfold(lq);
    lemma_pow2_unfold(lq + 1);
    let s: nat = if lq + j > p {
        (lq + j - p) as nat
    } else {
        0
    };
    let m = (s - j) as nat;
    assert(m >= 2);
    lemma_scaled_parts(x, j - 1, p, lq + 1, s);
    lemma_rne_sticky(q, r, b, m);
    assert((s - (j - 1)) as nat == m + 1);
    let n0 = q * b + r;
    lemma_fundamental_div_mod_converse(n0 as int, b as int, q as int, r as int);
    if j >= 0 {
        let jn = j as nat;
        let n = n0 * pow2(jn);
        let f = n / b;
        lemma_pow2_pos(jn);
        lemma_pow2_adds(lq, jn);
        lemma_pow2_adds((lq - 1) as nat, jn);
        assert(n >= (q * pow2(jn)) * b && n < ((q + 1) * pow2(jn)) * b) by (nonlinear_arith)
            requires
                n == n0 * pow2(jn),
                n0 == q * b + r,
                0 <= r < b,
                pow2(jn) > 0,
        ;
        lemma_fundamental_div_mod(n as int, b as int);
        lemma_div_is_ordered(((q * pow2(jn)) * b) as int, n as int, b as int);
        lemma_div_by_multiple((q * pow2(jn)) as int, b as int);
        assert(f < (q + 1) * pow2(jn)) by (nonlinear_arith)
            requires
                n == b * f + n % b,
                n % b >= 0,
                b > 0,
                n < ((q + 1) * pow2(jn)) * b,
        ;
        assert(f < pow2(lq + jn)) by (nonlinear_arith)
            requires
                f < (q + 1) * pow2(jn),
                q + 1 <= pow2(lq),
                pow2(lq + jn) == pow2(lq) * pow2(jn),
        ;
        assert(f >= pow2((lq - 1) as nat) * pow2(jn)) by (nonlinear_arith)
            requires
                f >= q * pow2(jn),
                q >= pow2((lq - 1) as nat),
        ;
        assert(lq + jn == p + s);
        assert((lq - 1) as nat + jn == (p + s - 1) as nat);
        lemma_excess_is(f, p, s);
        lemma_pow2_adds(m, jn);
        assert(m + jn == s);
        assert(b * pow2(s) == (b * pow2(m)) * pow2(jn)) by (nonlinear_arith)
            requires
                pow2(s) == pow2(m) * pow2(jn),
        ;
        lemma_rne_scale(n0, b * pow2(m), pow2(jn));
    } else {
        let i = (-j) as nat;
        lemma_pow2_pos(i);
        lemma_div_denominator(n0 as int, b as int, pow2(i) as int);
        let f = q / pow2(i);
        assert(n0 / (b * pow2(i)) == f);
        lemma_fundamental_div_mod(q as int, pow2(i) as int);
        lemma_pow2_adds(p + s, i);
        if lq < p + s + i {
            lemma_pow2_strictly_increases(lq, p + s + i);
        }
        assert(f < pow2(p + s)) by (nonlinear_arith)
            requires
                q == pow2(i) * f + q % pow2(i),
                q % pow2(i) >= 0,
                q < pow2(p + s) * pow2(i),
                pow2(i) > 0,
        ;
        if s > 0 {
            assert((lq - 1) as nat == (p + s - 1) as nat + i);
            lemma_pow2_adds((p + s - 1) as nat, i);
            lemma_div_is_ordered(pow2((lq - 1) as nat) as int, q as int, pow2(i) as int);
            lemma_div_by_multiple(pow2((p + s - 1) as nat) as int, pow2(i) as int);
        }
        lemma_excess_is(f, p, s);
        lemma_pow2_adds(i, s);
        assert(i + s == m);
        assert((b * pow2(i)) * pow2(s) == b * pow2(m)) by (nonlinear_arith)
            requires
                pow2(m) == pow2(i) * pow2(s),
        ;
    }
}

/// What a code made of a shift and an integer part stands for.
pub proof fn lemma_magnitude_parts(s: nat, t: nat, p: nat)
    requires
        p >= 1,
        t <= pow2(p),
        s > 0 ==> t >= pow2((p - 1) as nat),
    ensures
        magnitude(s * pow2((p - 1) as nat) + t, p) == t * pow2(s),
{
    let h = pow2((p - 1) as nat);
    lemma_pow2_pos((p - 1) as nat);
    lemma_pow2_unfold(p);
    lemma2_to64();
    let c = s * h + t;
    if t < h {
        lemma_fundamental_div_mod_converse(c as int, h as int, 0, t as int);
        assert(t * 1 == t);
        assert(0 * h == 0) by (nonlinear_arith);
    } else if t < 2 * h {
        assert(c == (s + 1) * h + (t - h)) by (nonlinear_arith)
            requires
                c == s * h + t,
        ;
        lemma_fundamental_div_mod_converse(c as int, h as int, (s + 1) as int, (t - h) as int);
    } else {
        assert(c == (s + 2) * h) by (nonlinear_arith)
            requires
                c == s * h + t,
                t == 2 * h,
        ;
        lemma_fundamental_div_mod_converse(c as int, h as int, (s + 2) as int, 0);
        lemma_pow2_unfold(s + 1);
        assert(h * pow2(s + 1) == t * pow2(s)) by (nonlinear_arith)
            requires
                t == 2 * h,
                pow2(s + 1) == 2 * pow2(s),
        ;
    }
}

/// An integer of at most `p` bits, scaled by a power of two, has a code.
pub proof fn lemma_short_is_exact(x: nat, k: nat, p: nat)
    requires
        p >= 1,
        x < pow2(p),
    ensures
        magnitude(code(x * pow2(k), 1, p), p) == x * pow2(k),
{
    if x == 0 {
        lemma_pow2_pos((p - 1) as nat);
        lemma2_to64();
        assert(0 * pow2(k) == 0) by (nonlinear_arith);
        assert(0 * pow2((p - 1) as nat) == 0) by (nonlinear_arith);
        lemma_rne_exact(0, 1);
        assert(code(0, 1, p) == 0);
        lemma_basic_div(0, pow2((p - 1) as nat) as int);
    } else {
        let l = excess(x, 1) + 1;
        lemma_excess_bounds(x, 1);
        lemma2_to64();
        if l > p {
            if l > p + 1 {
                lemma_pow2_strictly_increases(p, (l - 1) as nat);
            }
        }
        let s: nat = if l + k > p {
            (l + k - p) as nat
        } else {
            0
        };
        lemma_scaled_parts(x, k as int, p, l, s);
        let t = x * pow2((k - s) as nat);
        if s > 0 {
            lemma_pow2_adds((l - 1) as nat, (k - s) as nat);
            assert((l - 1) as nat + (k - s) as nat == (p - 1) as nat);
            lemma_pow2_pos((k - s) as nat);
            assert(t >= pow2((p - 1) as nat)) by (nonlinear_arith)
                requires
                    t == x * pow2((k - s) as nat),
                    x >= pow2((l - 1) as nat),
                    pow2((p - 1) as nat) == pow2((l - 1) as nat) * pow2((k - s) as nat),
            ;
        }
        lemma_magnitude_parts(s, t, p);
        lemma_pow2_adds((k - s) as nat, s);
        assert(t * pow2(s) == x * pow2(k)) by (nonlinear_arith)
            requires
                t == x * pow2((k - s) as nat),
                pow2(k) == pow2((k - s) as nat) * pow2(s),
        ;
    }
}

/// Larger codes stand for larger magnitudes.
pub proof fn lemma_magnitude_increases(c1: nat, c2: nat, p: nat)
    requires
        p >= 1,
        c1 < c2,
    ensures
        magnitude(c1, p) < magnitude(c2, p),
{
    let h = pow2((p - 1) as nat);
    lemma_pow2_pos((p - 1) as nat);
    let e1 = c1 / h;
    let e2 = c2 / h;
    let r1 = c1 % h;
    let r2 = c2 % h;
    lemma_fundamental_div_mod(c1 as int, h as int);
    lemma_fundamental_div_mod(c2 as int, h as int);
    lemma_div_is_ordered(c1 as int, c2 as int, h as int);
    if e1 == e2 {
        if e1 > 0 {
            let w = pow2((e1 - 1) as nat);
            lemma_pow2_pos((e1 - 1) as nat);
            lemma_mul_strict_inequality((r1 + h) as int, (r2 + h) as int, w as int);
            assert(magnitude(c1, p) == (r1 + h) * w);
            assert(magnitude(c2, p) == (r2 + h) * w);
        }
    } else if e1 == 0 {
        let w2 = pow2((e2 - 1) as nat);
        lemma_pow2_pos((e2 - 1) as nat);
        assert(h * e1 == 0) by (nonlinear_arith)
            requires
                e1 == 0,
        ;
        assert((r2 + h) * w2 >= h) by (nonlinear_arith)
            requires
                r2 >= 0,
                w2 >= 1,
                h >= 0,
        ;
        assert(magnitude(c1, p) == c1);
        assert(magnitude(c2, p) == (r2 + h) * w2);
    } else {
        let w1 = pow2((e1 - 1) as nat);
        let w2 = pow2((e2 - 1) as nat);
        lemma_pow2_pos((e1 - 1) as nat);
        lemma_pow2_unfold(e1);
        if e1 < e2 - 1 {
            lemma_pow2_strictly_increases(e1, (e2 - 1) as nat);
        }
        assert((r1 + h) * w1 < (r2 + h) * w2) by (nonlinear_arith)
            requires
                0 <= r1 < h,
                0 <= r2,
                0 < 2 * w1 <= w2,
        ;
        assert(magnitude(c1, p) == (r1 + h) * w1);
        assert(magnitude(c2, p) == (r2 + h) * w2);
    }
}

/// A magnitude that has a code rounds to that code.
pub proof fn lemma_code_exact(c: nat, p: nat)
    requires
        p >= 1,
    ensures
        code(magnitude(c, p), 1, p) == c,
{
    let h = pow2((p - 1) as nat);
    lemma_pow2_pos((p - 1) as nat);
    lemma_pow2_unfold(p);
    lemma2_to64();
    let e = c / h;
    lemma_fundamental_div_mod(c as int, h as int);
    let m = magnitude(c, p);
    lemma_div_basics(m as int);
    if e == 0 {
        lemma_excess_is(m, p, 0);
        lemma_rne_exact(c, 1);
        assert(h * 0 == 0);
        assert(0 * h == 0) by (nonlinear_arith);
    } else {
        let s = (e - 1) as nat;
        let t = c % h + h;
        lemma_pow2_pos(s);
        lemma_pow2_adds(p, s);
        lemma_pow2_adds((p - 1) as nat, s);
        assert((p - 1) as nat + s == (p + s - 1) as nat);
        assert(pow2((p + s - 1) as nat) <= m < pow2(p + s)) by (nonlinear_arith)
            requires
                m == t * pow2(s),
                h <= t < 2 * h,
                pow2(s) > 0,
                h == pow2((p - 1) as nat),
                pow2(p) == 2 * h,
                pow2((p + s - 1) as nat) == h * pow2(s),
                pow2(p + s) == pow2(p) * pow2(s),
        ;
        lemma_excess_is(m, p, s);
        lemma_rne_exact(t, pow2(s));
        assert(c == s * h + t) by (nonlinear_arith)
            requires
                c == h * e + c % h,
                t == c % h + h,
                s == e - 1,
        ;
    }
}

/// Rounding to an integer keeps order.
proof fn lemma_rne_monotone(n1: nat, d1: nat, n2: nat, d2: nat)
    requires
        d1 > 0,
        d2 > 0,
        n1 * d2 <= n2 * d1,
    ensures
        rne(n1, d1) <= rne(n2, d2),
{
    let q1 = n1 / d1;
    let r1 = n1 % d1;
    let q2 = n2 / d2;
    let r2 = n2 % d2;
    lemma_fundamental_div_mod(n1 as int, d1 as int);
    lemma_fundamental_div_mod(n2 as int, d2 as int);
    assert(q1 <= q2) by (nonlinear_arith)
        requires
            n1 == d1 * q1 + r1,
            n2 == d2 * q2 + r2,
            n1 * d2 <= n2 * d1,
            r1 >= 0,
            0 <= r2 < d2,
            d1 > 0,
            d2 > 0,
    ;
    if q1 == q2 {
        assert(r1 * d2 <= r2 * d1) by (nonlinear_arith)
            requires
                n1 == d1 * q1 + r1,
                n2 == d2 * q2 + r2,
                n1 * d2 <= n2 * d1,
                q1 == q2,
        ;
        assert(2 * r1 > d1 ==> 2 * r2 > d2) by (nonlinear_arith)
            requires
                r1 * d2 <= r2 * d1,
                d1 > 0,
                d2 > 0,
        ;
        assert(2 * r1 == d1 ==> 2 * r2 >= d2) by (nonlinear_arith)
            requires
                r1 * d2 <= r2 * d1,
                d1 > 0,
                d2 > 0,
        ;
    }
}

/// The integer part of a code fits in `p` bits, and is full where there is a
/// shift.
proof fn lemma_code_parts(n: nat, d: nat, p: nat)
    requires
        d > 0,
        p >= 1,
    ensures
        ({
            let s = excess(n / d, p);
            let t = rne(n, d * pow2(s));
            &&& d * pow2(s) > 0
            &&& t <= pow2(p)
            &&& s > 0 ==> t >= pow2((p - 1) as nat)
        }),
{
    let q = n / d;
    let s = excess(q, p);
    let c = d * pow2(s);
    lemma_excess_bounds(q, p);
    lemma_pow2_pos(s);
    assert(c > 0) by (nonlinear_arith)
        requires
            d > 0,
            pow2(s) > 0,
            c == d * pow2(s),
    ;
    lemma_div_denominator(n as int, d as int, pow2(s) as int);
    assert(n / c == q / pow2(s));
    lemma_pow2_adds(p, s);
    let u = q / pow2(s);
    lemma_fundamental_div_mod(q as int, pow2(s) as int);
    assert(u < pow2(p)) by (nonlinear_arith)
        requires
            q == pow2(s) * u + q % pow2(s),
            q % pow2(s) >= 0,
            q < pow2(p) * pow2(s),
            pow2(s) > 0,
    ;
    if s > 0 {
        lemma_pow2_adds((p - 1) as nat, s);
        assert((p - 1) as nat + s == (p + s - 1) as nat);
        lemma_div_is_ordered(pow2((p + s - 1) as nat) as int, q as int, pow2(s) as int);
        lemma_div_by_multiple(pow2((p - 1) as nat) as int, pow2(s) as int);
    }
}

/// Rounding keeps order.
pub proof fn lemma_code_monotone(n1: nat, d1: nat, n2: nat, d2: nat, p: nat)
    requires
        d1 > 0,
        d2 > 0,
        p >= 1,
        n1 * d2 <= n2 * d1,
    ensures
        code(n1, d1, p) <= code(n2, d2, p),
{
    let q1 = n1 / d1;
    let q2 = n2 / d2;
    let s1 = excess(q1, p);
    let s2 = excess(q2, p);
    let h = pow2((p - 1) as nat);
    let t1 = rne(n1, d1 * pow2(s1));
    let t2 = rne(n2, d2 * pow2(s2));
    lemma_pow2_unfold(p);
    lemma_fundamental_div_mod(n1 as int, d1 as int);
    lemma_fundamental_div_mod(n2 as int, d2 as int);
    assert(q1 <= q2) by (nonlinear_arith)
        requires
            n1 == d1 * q1 + n1 % d1,
            n2 == d2 * q2 + n2 % d2,
            n1 * d2 <= n2 * d1,
            n1 % d1 >= 0,
            0 <= n2 % d2 < d2,
            d1 > 0,
            d2 > 0,
    ;
    lemma_excess_bounds(q1, p);
    lemma_excess_bounds(q2, p);
    assert(s1 <= s2) by {
        if s1 > s2 {
            if p + s2 < p + s1 - 1 {
                lemma_pow2_strictly_increases(p + s2, (p + s1 - 1) as nat);
            }
        }
    }
    lemma_code_parts(n1, d1, p);
    lemma_code_parts(n2, d2, p);
    if s1 == s2 {
        let w = pow2(s1);
        assert(n1 * (d2 * w) <= n2 * (d1 * w)) by (nonlinear_arith)
            requires
                n1 * d2 <= n2 * d1,
                w >= 0,
        ;
        lemma_rne_monotone(n1, d1 * w, n2, d2 * w);
    } else {
        assert(s1 * h + 2 * h <= s2 * h + h) by (nonlinear_arith)
            requires
                s1 + 1 <= s2,
                h >= 0,
        ;
    }
}

/// Rounding moves a magnitude by no more than a part in 2^p, or half a unit.
pub proof fn lemma_code_error(n: nat, d: nat, p: nat)
    requires
        d > 0,
        p >= 1,
    ensures
        2 * (magnitude(code(n, d, p), p) * d) * pow2((p - 1) as nat) <= 2 * n * pow2(
            (p - 1) as nat,
        ) + n + d * pow2((p - 1) as nat),
        2 * n * pow2((p - 1) as nat) <= 2 * (magnitude(code(n, d, p), p) * d) * pow2(
            (p - 1) as nat,
        ) + n + d * pow2((p - 1) as nat),
{
    let q = n / d;
    let s = excess(q, p);
    let w = pow2(s);
    let h = pow2((p - 1) as nat);
    let c = d * w;
    let t = rne(n, c);
    lemma_code_parts(n, d, p);
    lemma_magnitude_parts(s, t, p);
    let m = t * w;
    lemma_pow2_pos(s);
    lemma_pow2_pos((p - 1) as nat);
    lemma_fundamental_div_mod(n as int, c as int);
    assert(2 * (t * c) <= 2 * n + c && 2 * n <= 2 * (t * c) + c) by (nonlinear_arith)
        requires
            n == c * (n / c) + n % c,
            0 <= n % c < c,
            (t == n / c && 2 * (n % c) <= c) || (t == n / c + 1 && 2 * (n % c) >= c),
    ;
    assert(t * c == m * d) by (nonlinear_arith)
        requires
            c == d * w,
            m == t * w,
    ;
    lemma_excess_bounds(q, p);
    lemma_fundamental_div_mod(n as int, d as int);
    if s > 0 {
        lemma_pow2_adds((p - 1) as nat, s);
        assert((p - 1) as nat + s == (p + s - 1) as nat);
        assert(c * h <= n) by (nonlinear_arith)
            requires
                c == d * w,
                q >= h * w,
                n == d * q + n % d,
                n % d >= 0,
                d > 0,
        ;
    } else {
        lemma2_to64();
        assert(c == d) by (nonlinear_arith)
            requires
                c == d * w,
                w == 1,
        ;
    }
    assert(2 * (m * d) * h <= 2 * n * h + c * h && 2 * n * h <= 2 * (m * d) * h + c * h)
        by (nonlinear_arith)
        requires
            2 * (m * d) <= 2 * n + c,
            2 * n <= 2 * (m * d) + c,
            h > 0,
    ;
    assert(c * h <= n + d * h) by (nonlinear_arith)
        requires
            c * h <= n || c == d,
            n >= 0,
            d > 0,
            h > 0,
    ;
}

/// Rounding a magnitude of at most `k` bits moves it by no more than half of
/// the last of the `p` bits that are kept.
pub proof fn lemma_code_near(n: nat, d: nat, k: nat, p: nat)
    requires
        d > 0,
        1 <= p <= k,
        n < pow2(k) * d,
    ensures
        2 * (magnitude(code(n, d, p), p) * d) <= 2 * n + d * pow2((k - p) as nat),
        2 * n <= 2 * (magnitude(code(n, d, p), p) * d) + d * pow2((k - p) as nat),
{
    let q = n / d;
    let s = excess(q, p);
    let w = pow2(s);
    let c = d * w;
    let t = rne(n, c);
    lemma_code_parts(n, d, p);
    lemma_magnitude_parts(s, t, p);
    let m = t * w;
    lemma_fundamental_div_mod(n as int, c as int);
    assert(2 * (t * c) <= 2 * n + c && 2 * n <= 2 * (t * c) + c) by (nonlinear_arith)
        requires
            n == c * (n / c) + n % c,
            0 <= n % c < c,
            (t == n / c && 2 * (n % c) <= c) || (t == n / c + 1 && 2 * (n % c) >= c),
    ;
    assert(t * c == m * d) by (nonlinear_arith)
        requires
            c == d * w,
            m == t * w,
    ;
    lemma_excess_bounds(q, p);
    lemma_fundamental_div_mod(n as int, d as int);
    assert(q < pow2(k)) by (nonlinear_arith)
        requires
            n == d * q + n % d,
            n % d >= 0,
            n < pow2(k) * d,
            d > 0,
    ;
    if s > k - p {
        if p + s - 1 > k {
            lemma_pow2_strictly_increases(k, (p + s - 1) as nat);
        }
    } else if s < k - p {
        lemma_pow2_strictly_increases(s, (k - p) as nat);
    }
    let top = pow2((k - p) as nat);
    assert(c <= d * top) by (nonlinear_arith)
        requires
            c == d * w,
            w <= top,
    ;
}

/// A term too small to reach the last kept bit of the other leaves it as it
/// is.
pub proof fn lemma_absorbed(a: nat, ea: nat, small: nat, p: nat)
    requires
        p >= 2,
        pow2((p - 1) as nat) <= a < pow2(p),
        ea >= 1,
        4 * small < pow2(ea),
    ensures
        code(a * pow2(ea) + small, 1, p) == ea * pow2((p - 1) as nat) + a,
        a * pow2(ea) >= small,
        code((a * pow2(ea) - small) as nat, 1, p) == ea * pow2((p - 1) as nat) + a,
{
    let d = pow2(ea);
    let g = pow2((p - 1) as nat);
    let n1 = a * d + small;
    lemma_pow2_pos(ea);
    lemma_pow2_pos((p - 1) as nat);
    lemma_pow2_unfold(p);
    lemma_pow2_adds((p - 1) as nat, ea);
    lemma_pow2_adds(p, ea);
    assert((p - 1) as nat + ea == (p + ea - 1) as nat);
    lemma_div_basics(n1 as int);
    assert(g * d <= a * d && a * d + d <= pow2(p) * d) by (nonlinear_arith)
        requires
            g <= a,
            a + 1 <= pow2(p),
            d > 0,
    ;
    lemma_excess_is(n1, p, ea);
    lemma_fundamental_div_mod_converse(n1 as int, d as int, a as int, small as int);
    assert(rne(n1, d) == a);
    assert(code(n1, 1, p) == ea * g + rne(n1, 1 * d));
    assert(a * d >= d) by (nonlinear_arith)
        requires
            a >= 1,
            d > 0,
    ;
    let n2 = (a * d - small) as nat;
    lemma_div_basics(n2 as int);
    if small == 0 {
        assert(n1 == n2);
    } else if a > g {
        assert(g * d + d <= a * d) by (nonlinear_arith)
            requires
                g + 1 <= a,
                d > 0,
        ;
        lemma_excess_is(n2, p, ea);
        assert(n2 == (a - 1) * d + (d - small)) by (nonlinear_arith)
            requires
                n2 == a * d - small,
        ;
        lemma_fundamental_div_mod_converse(n2 as int, d as int, a - 1, d - small);
        assert(rne(n2, d) == a);
        assert(code(n2, 1, p) == ea * g + rne(n2, 1 * d));
    } else {
        let s = (ea - 1) as nat;
        let h = pow2(s);
        lemma_pow2_unfold(ea);
        lemma_pow2_pos(s);
        lemma_pow2_adds(p, s);
        lemma_pow2_adds((p - 1) as nat, s);
        assert((p - 1) as nat + s == (p + s - 1) as nat);
        assert(p + s == (p - 1) as nat + ea);
        assert(g * d == pow2(p) * h) by (nonlinear_arith)
            requires
                pow2(p) == 2 * g,
                d == 2 * h,
        ;
        assert(g * h + small < pow2(p) * h) by (nonlinear_arith)
            requires
                pow2(p) == 2 * g,
                g >= 1,
                2 * small < h,
                small >= 0,
        ;
        lemma_excess_is(n2, p, s);
        let top = (pow2(p) - 1) as int;
        assert(n2 == top * h + (h - small)) by (nonlinear_arith)
            requires
                n2 == g * d - small,
                g * d == pow2(p) * h,
                top == pow2(p) - 1,
        ;
        lemma_fundamental_div_mod_converse(n2 as int, h as int, top, h - small);
        lemma_pow2_even(p);
        assert(rne(n2, h) == pow2(p));
        assert(code(n2, 1, p) == s * g + rne(n2, 1 * h));
        assert(s * g + pow2(p) == ea * g + g) by (nonlinear_arith)
            requires
                s == ea - 1,
                pow2(p) == 2 * g,
        ;
    }
}

proof fn lemma_pow2_even(p: nat)
    requires
        p >= 1,
    ensures
        pow2(p) % 2 == 0,
{
    lemma_pow2_unfold(p);
}

/// Significands and powers of two multiply apart; `u` is the exponent of the
/// unit.
pub proof fn lemma_times_scaled(a: nat, ea: nat, b: nat, eb: nat, u: nat, p: nat)
    ensures
        scaled_code(a * b, ea + eb - u, p) == code(
            (a * pow2(ea)) * (b * pow2(eb)),
            pow2(u),
            p,
        ),
{
    let x = a * b;
    let e = ea + eb;
    let k = e - u;
    lemma_pow2_adds(ea, eb);
    lemma_pow2_pos(e);
    lemma_pow2_pos(u);
    assert((a * pow2(ea)) * (b * pow2(eb)) == x * pow2(e)) by (nonlinear_arith)
        requires
            x == a * b,
            pow2(e) == pow2(ea) * pow2(eb),
    ;
    if k >= 0 {
        lemma_pow2_adds(k as nat, u);
        assert(x * pow2(e) == (x * pow2(k as nat)) * pow2(u)) by (nonlinear_arith)
            requires
                pow2(e) == pow2(k as nat) * pow2(u),
        ;
        lemma_code_scale(x * pow2(k as nat), 1, pow2(u), p);
        assert(1 * pow2(u) == pow2(u));
    } else {
        lemma_pow2_adds((-k) as nat, e);
        lemma_pow2_pos((-k) as nat);
        assert((-k) as nat + e == u);
        lemma_code_scale(x, pow2((-k) as nat), pow2(e), p);
    }
}

/// A quotient of scaled numbers from the quotient of their significands, the
/// first shifted up by `sh` bits.
pub proof fn lemma_over_scaled(
    a: nat,
    ea: nat,
    b: nat,
    eb: nat,
    sh: nat,
    q: nat,
    r: nat,
    u: nat,
    p: nat,
)
    requires
        p >= 1,
        b > 0,
        sh <= u,
        a * pow2(sh) == q * b + r,
        r < b,
        q >= pow2(p + 1),
    ensures
        b * pow2(eb) > 0,
        scaled_code(
            2 * q + (if r > 0 {
                1nat
            } else {
                0nat
            }),
            ea - eb - sh - 1 + u,
            p,
        ) == code((a * pow2(ea)) * pow2(u), b * pow2(eb), p),
{
    let n0 = a * pow2(sh);
    let j = ea - eb - sh + u;
    lemma_code_sticky(q, r, b, j, p);
    lemma_pow2_pos(eb);
    lemma_pow2_pos(u);
    assert(b * pow2(eb) > 0) by (nonlinear_arith)
        requires
            b > 0,
            pow2(eb) > 0,
    ;
    if j >= 0 {
        let jn = j as nat;
        lemma_pow2_adds(ea, u);
        lemma_pow2_adds(sh, jn);
        lemma_pow2_adds(sh + jn, eb);
        assert(ea + u == sh + jn + eb);
        assert((a * pow2(ea)) * pow2(u) == (n0 * pow2(jn)) * pow2(eb)) by (nonlinear_arith)
            requires
                n0 == a * pow2(sh),
                pow2(ea + u) == pow2(ea) * pow2(u),
                pow2(sh + jn) == pow2(sh) * pow2(jn),
                pow2(ea + u) == pow2(sh + jn) * pow2(eb),
        ;
        lemma_code_scale(n0 * pow2(jn), b, pow2(eb), p);
    } else {
        let i = (-j) as nat;
        let k = (ea + u - sh) as nat;
        let c = pow2(k);
        lemma_pow2_pos(i);
        lemma_pow2_pos(k);
        lemma_pow2_adds(ea, u);
        lemma_pow2_adds(sh, k);
        lemma_pow2_adds(i, k);
        assert(i + k == eb);
        assert(sh + k == ea + u);
        assert((a * pow2(ea)) * pow2(u) == n0 * c) by (nonlinear_arith)
            requires
                n0 == a * pow2(sh),
                pow2(ea + u) == pow2(ea) * pow2(u),
                pow2(ea + u) == pow2(sh) * c,
        ;
        assert(b * pow2(eb) == (b * pow2(i)) * c) by (nonlinear_arith)
            requires
                pow2(eb) == pow2(i) * c,
        ;
        assert(b * pow2(i) > 0) by (nonlinear_arith)
            requires
                b > 0,
                pow2(i) > 0,
        ;
        lemma_code_scale(n0, b * pow2(i), c, p);
    }
}

/// How far the magnitude `m` is from `n / d` units, times `d`.
pub open spec fn distance(m: nat, n: nat, d: nat) -> int {
    if m * d >= n {
        m * d - n
    } else {
        n - m * d
    }
}

/// Rounding is to nearest: no representable magnitude is closer.
pub proof fn law_code_is_nearest(n: nat, d: nat, p: nat, other: nat)
    requires
        d > 0,
        p >= 1,
    ensures
        distance(magnitude(code(n, d, p), p), n, d) <= distance(magnitude(other, p), n, d),
{
    let q = n / d;
    let s = excess(q, p);
    let w = pow2(s);
    let h = pow2((p - 1) as nat);
    let cw = d * w;
    let t = rne(n, cw);
    let c = code(n, d, p);
    lemma_code_parts(n, d, p);
    lemma_magnitude_parts(s, t, p);
    lemma_pow2_pos(s);
    lemma_pow2_pos((p - 1) as nat);
    lemma_pow2_unfold(p);
    let m = t * w;
    assert(m * d == t * cw) by (nonlinear_arith)
        requires
            m == t * w,
            cw == d * w,
    ;
    lemma_fundamental_div_mod(n as int, cw as int);
    assert(2 * (t * cw) <= 2 * n + cw && 2 * n <= 2 * (t * cw) + cw) by (nonlinear_arith)
        requires
            n == cw * (n / cw) + n % cw,
            0 <= n % cw < cw,
            (t == n / cw && 2 * (n % cw) <= cw) || (t == n / cw + 1 && 2 * (n % cw) >= cw),
    ;
    let mo = magnitude(other, p);
    if other > c {
        lemma_gap_above(s, t, p);
        if other > c + 1 {
            lemma_magnitude_increases(c + 1, other, p);
        }
        assert(mo * d >= m * d + cw) by (nonlinear_arith)
            requires
                mo >= m + w,
                cw == d * w,
        ;
    } else if other < c {
        if s > 0 && t == h {
            lemma_magnitude_increases(other, c, p);
            lemma_excess_bounds(q, p);
            lemma_pow2_adds((p - 1) as nat, s);
            assert((p - 1) as nat + s == (p + s - 1) as nat);
            lemma_fundamental_div_mod(n as int, d as int);
            assert(m * d <= n) by (nonlinear_arith)
                requires
                    m == h * w,
                    q >= h * w,
                    n == d * q + n % d,
                    n % d >= 0,
                    d > 0,
            ;
            assert(mo * d <= m * d) by (nonlinear_arith)
                requires
                    mo <= m,
            ;
        } else {
            assert(t >= 1) by {
                if t == 0 {
                    assert(s == 0);
                    assert(0 * h == 0) by (nonlinear_arith);
                }
            }
            lemma_magnitude_parts(s, (t - 1) as nat, p);
            if other < c - 1 {
                lemma_magnitude_increases(other, (c - 1) as nat, p);
            }
            assert((t - 1) * w == m - w) by (nonlinear_arith)
                requires
                    m == t * w,
            ;
            assert(mo * d + cw <= m * d) by (nonlinear_arith)
                requires
                    mo + w <= m,
                    cw == d * w,
            ;
        }
    }
}

/// The next larger magnitude is at least one step away.
proof fn lemma_gap_above(s: nat, t: nat, p: nat)
    requires
        p >= 1,
        t <= pow2(p),
        s > 0 ==> t >= pow2((p - 1) as nat),
    ensures
        magnitude(s * pow2((p - 1) as nat) + t + 1, p) >= t * pow2(s) + pow2(s),
{
    let h = pow2((p - 1) as nat);
    let w = pow2(s);
    lemma_pow2_pos((p - 1) as nat);
    lemma_pow2_pos(s);
    lemma_pow2_unfold(p);
    if t < pow2(p) {
        lemma_magnitude_parts(s, t + 1, p);
        assert((t + 1) * w == t * w + w) by (nonlinear_arith);
    } else {
        lemma_magnitude_parts(s + 1, h + 1, p);
        lemma_pow2_unfold(s + 1);
        assert((s + 1) * h + (h + 1) == s * h + t + 1) by (nonlinear_arith)
            requires
                t == 2 * h,
        ;
        assert((h + 1) * (2 * w) >= t * w + w) by (nonlinear_arith)
            requires
                t == 2 * h,
                w > 0,
        ;
    }
}

} // verus!
