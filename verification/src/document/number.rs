//! Floating-point numbers by their 64 bits: how they compare, and which of them an
//! integer becomes.
use vstd::prelude::*;

verus! {

/// The bits without the sign.
pub open spec fn magnitude(bits: u64) -> int {
    if bits < 0x8000_0000_0000_0000 {
        bits as int
    } else {
        bits - 0x8000_0000_0000_0000
    }
}

/// The place of a number in the total order of all bit patterns: from the negative
/// not-a-numbers up to the positive ones, with -0 before +0.
pub open spec fn total_place(bits: u64) -> int {
    if bits < 0x8000_0000_0000_0000 {
        magnitude(bits)
    } else {
        -1 - magnitude(bits)
    }
}

/// Whether the bits are those of a finite number: neither infinite nor not a number.
pub open spec fn is_finite_bits(bits: u64) -> bool {
    magnitude(bits) < 0x7FF0_0000_0000_0000
}

/// 2 to the power `n`.
pub open spec fn two_to(n: nat) -> nat
    decreases n,
{
    if n == 0 {
        1
    } else {
        2 * two_to((n - 1) as nat)
    }
}

/// The largest `e` with 2 to the power `e` no greater than `m`.
pub open spec fn log2(m: nat) -> nat
    decreases m,
{
    if m < 2 {
        0
    } else {
        1 + log2(m / 2)
    }
}

/// `m` divided by `d`, rounded to the nearest, and between two to the even one.
pub open spec fn round_half_even(m: nat, d: nat) -> nat {
    if 2 * (m % d) > d || (2 * (m % d) == d && (m / d) % 2 == 1) {
        m / d + 1
    } else {
        m / d
    }
}

/// The bits of the number nearest to `m`: 53 significant bits, of which the first is
/// carried by the exponent.
pub open spec fn bits_of_nat(m: nat) -> nat {
    if m == 0 {
        0
    } else {
        (log2(m) + 1022) * 0x10_0000_0000_0000 + significand(m)
    }
}

/// The 53 significant bits of `m`, rounded.
pub open spec fn significand(m: nat) -> nat {
    if log2(m) <= 52 {
        m * two_to((52 - log2(m)) as nat)
    } else {
        round_half_even(m, two_to((log2(m) - 52) as nat))
    }
}

/// The bits of the number nearest to `i`.
pub open spec fn bits_of_int(i: int) -> nat {
    if i < 0 {
        0x8000_0000_0000_0000 + bits_of_nat((-i) as nat)
    } else {
        bits_of_nat(i as nat)
    }
}

proof fn two_to_values()
    ensures
        two_to(52) == 0x10_0000_0000_0000,
        two_to(53) == 0x20_0000_0000_0000,
        two_to(64) == 0x1_0000_0000_0000_0000,
{
    reveal_with_fuel(two_to, 65);
}

proof fn two_to_sum(a: nat, b: nat)
    ensures
        two_to(a) * two_to(b) == two_to(a + b),
        two_to(a) > 0,
    decreases a,
{
    if a > 0 {
        two_to_sum((a - 1) as nat, b);
        let x = two_to((a - 1) as nat);
        let y = two_to(b);
        assert((2 * x) * y == 2 * (x * y)) by (nonlinear_arith);
    } else {
        assert(1 * two_to(b) == two_to(b));
    }
}

proof fn log2_bounds(m: nat)
    requires
        m > 0,
    ensures
        two_to(log2(m)) <= m < two_to(log2(m) + 1),
    decreases m,
{
    reveal_with_fuel(two_to, 2);
    if m >= 2 {
        log2_bounds(m / 2);
    }
}

proof fn two_to_grows(a: nat, b: nat)
    requires
        a < b,
    ensures
        two_to(a) < two_to(b),
    decreases b,
{
    two_to_sum(a, 0);
    if a + 1 < b {
        two_to_grows(a, (b - 1) as nat);
    }
}

/// The rounded significand has 53 bits, or is the power of two above them.
proof fn significand_bounds(m: nat)
    requires
        0 < m < 0x1_0000_0000_0000_0000,
    ensures
        log2(m) <= 63,
        0x10_0000_0000_0000 <= significand(m) <= 0x20_0000_0000_0000,
        bits_of_nat(m) < 0x7FF0_0000_0000_0000,
{
    two_to_values();
    log2_bounds(m);
    if log2(m) >= 64 {
        if log2(m) > 64 {
            two_to_grows(64, log2(m));
        }
    }
    let e = log2(m);
    if e <= 52 {
        let k = (52 - e) as nat;
        two_to_sum(e, k);
        two_to_sum(e + 1, k);
        let p = two_to(k);
        let lo = two_to(e);
        let hi = two_to(e + 1);
        two_to_sum(k, 0);
        assert(lo * p <= m * p < hi * p) by (nonlinear_arith)
            requires
                lo <= m < hi,
                p > 0,
        ;
    } else {
        let k = (e - 52) as nat;
        let d = two_to(k);
        two_to_sum(52, k);
        two_to_sum(53, k);
        two_to_sum(k, 0);
        let q = m / d;
        assert(0x10_0000_0000_0000 <= q < 0x20_0000_0000_0000) by (nonlinear_arith)
            requires
                q == m / d,
                d > 0,
                0x10_0000_0000_0000 * d <= m,
                m < 0x20_0000_0000_0000 * d,
        ;
    }
}

/// Of two numbers the greater has no fewer binary digits.
proof fn log2_grows(m: nat, n: nat)
    requires
        0 < m <= n,
    ensures
        log2(m) <= log2(n),
{
    log2_bounds(m);
    log2_bounds(n);
    if log2(n) + 1 < log2(m) {
        two_to_grows(log2(n) + 1, log2(m));
    }
}

/// Of two numbers the greater is not rounded to less.
proof fn rounding_grows(m: nat, n: nat, d: nat)
    requires
        m <= n,
        d > 0,
    ensures
        round_half_even(m, d) <= round_half_even(n, d),
{
    let (q, r, x, y) = (m / d, m % d, n / d, n % d);
    assert(q <= x) by (nonlinear_arith)
        requires
            q == m / d,
            x == n / d,
            m <= n,
            d > 0,
    ;
    assert(m == q * d + r && n == x * d + y) by (nonlinear_arith)
        requires
            q == m / d,
            x == n / d,
            r == m % d,
            y == n % d,
            d > 0,
    ;
}

/// Of two integers the greater does not become a smaller number.
pub proof fn greater_is_not_below(m: nat, n: nat)
    requires
        m <= n < 0x1_0000_0000_0000_0000,
    ensures
        bits_of_nat(m) <= bits_of_nat(n) < 0x7FF0_0000_0000_0000,
{
    if n > 0 {
        significand_bounds(n);
    }
    if m > 0 {
        significand_bounds(m);
        log2_grows(m, n);
        let (e, g) = (log2(m), log2(n));
        if e == g {
            if e <= 52 {
                let p = two_to((52 - e) as nat);
                assert(m * p <= n * p) by (nonlinear_arith)
                    requires
                        m <= n,
                ;
            } else {
                two_to_sum((e - 52) as nat, 0);
                rounding_grows(m, n, two_to((e - 52) as nat));
            }
        }
    }
}

/// As integers stand, so do the numbers that they become, but that close ones of more than 53
/// digits may become one.
pub proof fn integers_keep_their_order(i: i64, j: i64)
    requires
        i <= j,
    ensures
        total_place(bits_of_int(i as int) as u64) <= total_place(bits_of_int(j as int) as u64),
        bits_of_int(i as int) <= u64::MAX,
        bits_of_int(j as int) <= u64::MAX,
{
    let m = if i < 0 {
        -i
    } else {
        i as int
    } as nat;
    let n = if j < 0 {
        -j
    } else {
        j as int
    } as nat;
    greater_is_not_below(m, m);
    greater_is_not_below(n, n);
    if j < 0 {
        greater_is_not_below(n, m);
    } else if i >= 0 {
        greater_is_not_below(m, n);
    }
}

/// An integer becomes the nearest number: read as an exponent and 52 digits behind the first,
/// its bits are off by no more than half a unit in the last place, and by nothing where 53
/// digits are enough; just between two numbers it becomes the one with an even last digit. A
/// negative integer becomes the opposite of the positive one.
pub proof fn nearest_number(m: nat)
    requires
        0 < m < 0x1_0000_0000_0000_0000,
    ensures
        ({
            let b = bits_of_nat(m);
            let e = b / 0x10_0000_0000_0000 - 1023;
            let f = b % 0x10_0000_0000_0000;
            let v = (0x10_0000_0000_0000 + f) * two_to(e as nat);
            &&& 0 <= e <= 64
            &&& -two_to(e as nat) <= 2 * (v - m * 0x10_0000_0000_0000) <= two_to(e as nat)
            &&& m <= 0x20_0000_0000_0000 ==> v == m * 0x10_0000_0000_0000
            &&& 2 * (v - m * 0x10_0000_0000_0000) == two_to(e as nat) || 2 * (m * 0x10_0000_0000_0000 - v) == two_to(
                e as nat,
            ) ==> f % 2 == 0
        }),
        bits_of_int(m as int) == bits_of_nat(m),
        bits_of_int(-(m as int)) == 0x8000_0000_0000_0000 + bits_of_nat(m),
{
    two_to_values();
    log2_bounds(m);
    significand_bounds(m);
    let c: nat = 0x10_0000_0000_0000;
    let b = bits_of_nat(m);
    let g = log2(m);
    let sig = significand(m);
    let e = b / c - 1023;
    let f = b % c;
    if g <= 52 {
        let p = two_to((52 - g) as nat);
        let t = two_to(g);
        two_to_sum((52 - g) as nat, g);
        two_to_sum((52 - g) as nat, 0);
        let hi = two_to(g + 1);
        two_to_sum((52 - g) as nat, g + 1);
        assert(m * p < 0x20_0000_0000_0000) by (nonlinear_arith)
            requires
                m < hi,
                p > 0,
                p * hi == 0x20_0000_0000_0000,
        ;
        assert(sig == m * p);
        assert(e == g && c + f == sig);
        assert(sig * t == m * c) by (nonlinear_arith)
            requires
                sig == m * p,
                p * t == c,
        ;
        two_to_sum(g, 0);
    } else {
        let k = (g - 52) as nat;
        let d = two_to(k);
        let t = two_to(g);
        two_to_sum(52, k);
        two_to_sum(k, 0);
        let q = m / d;
        let r = m % d;
        assert(m == q * d + r && r < d) by (nonlinear_arith)
            requires
                q == m / d,
                r == m % d,
                d > 0,
        ;
        assert(t == c * d);
        if sig < 0x20_0000_0000_0000 {
            assert(e == g && c + f == sig);
            assert(sig * t == (sig * d) * c) by (nonlinear_arith)
                requires
                    t == c * d,
            ;
        } else {
            assert(e == g + 1 && f == 0);
            assert(two_to((g + 1) as nat) == 2 * t);
            assert((c + f) * (2 * t) == (sig * d) * c) by (nonlinear_arith)
                requires
                    t == c * d,
                    f == 0,
                    sig == 2 * c,
            ;
        }
        assert(sig == q || sig == q + 1);
        assert((q + 1) * d == q * d + d) by (nonlinear_arith);
        let v = sig * d;
        assert(-(d as int) <= 2 * (v - m) <= d);
        assert(2 * (v * c - m * c) == c * (2 * (v - m))) by (nonlinear_arith);
        assert(-(c * d) <= c * (2 * (v - m)) <= c * d) by (nonlinear_arith)
            requires
                -(d as int) <= 2 * (v - m) <= d,
                c > 0,
        ;
        if sig < 0x20_0000_0000_0000 && (c * (2 * (v - m)) == c * d || c * (2 * (v - m)) == -(c * d)) {
            assert(2 * (v - m) == d || 2 * (v - m) == -(d as int)) by (nonlinear_arith)
                requires
                    c * (2 * (v - m)) == c * d || c * (2 * (v - m)) == -(c * d),
                    c > 0,
            ;
            assert(2 * r == d);
            assert(sig % 2 == 0);
        }
        if m <= 0x20_0000_0000_0000 {
            if g > 53 {
                two_to_grows(53, g);
            }
            assert(g == 53);
            assert(m == 0x20_0000_0000_0000);
            assert(d == 2) by {
                reveal_with_fuel(two_to, 2);
            }
        }
    }
}

/// The bits of the number nearest to `m`.
fn nat_to_bits(m: u64) -> (bits: u64)
    ensures
        bits as nat == bits_of_nat(m as nat),
        bits < 0x7FF0_0000_0000_0000,
{
    if m == 0 {
        return 0;
    }
    proof {
        significand_bounds(m as nat);
        two_to_values();
        log2_bounds(m as nat);
    }
    let mut e: u64 = 0;
    let mut x: u64 = m;
    while x >= 2
        invariant
            e as nat + log2(x as nat) == log2(m as nat),
            log2(m as nat) <= 63,
        decreases x,
    {
        x = x / 2;
        e = e + 1;
    }
    if e <= 52 {
        let mut k: u64 = 52 - e;
        let mut s: u64 = m;
        proof {
            assert(m as nat * two_to(k as nat) <= 0x20_0000_0000_0000);
        }
        while k > 0
            invariant
                k <= 52,
                s as nat * two_to(k as nat) == significand(m as nat),
                significand(m as nat) <= 0x20_0000_0000_0000,
            decreases k,
        {
            proof {
                let p = two_to((k - 1) as nat);
                two_to_sum((k - 1) as nat, 0);
                assert(s as nat * (2 * p) == (2 * s as nat) * p) by (nonlinear_arith);
                assert((2 * s as nat) <= (2 * s as nat) * p) by (nonlinear_arith)
                    requires
                        p > 0,
                ;
            }
            s = 2 * s;
            k = k - 1;
        }
        proof {
            assert(two_to(0) == 1);
            assert(s as nat * 1 == s as nat);
        }
        (e + 1022) * 0x10_0000_0000_0000 + s
    } else {
        let k: u64 = e - 52;
        let mut d: u64 = 1;
        let mut i: u64 = 0;
        while i < k
            invariant
                i <= k <= 11,
                d as nat == two_to(i as nat),
                d <= 0x800,
            decreases k - i,
        {
            proof {
                assert(two_to(i as nat + 1) <= 0x800) by {
                    if i + 1 < 11 {
                        two_to_grows(i as nat + 1, 11);
                    }
                    reveal_with_fuel(two_to, 12);
                }
            }
            d = 2 * d;
            i = i + 1;
        }
        proof {
            two_to_sum(k as nat, 0);
        }
        let q: u64 = m / d;
        let r: u64 = m % d;
        let s: u64 = if 2 * r > d || (2 * r == d && q % 2 == 1) {
            q + 1
        } else {
            q
        };
        (e + 1022) * 0x10_0000_0000_0000 + s
    }
}

/// The bits of the number nearest to an unsigned integer.
pub fn unsigned_to_bits(m: u64) -> (bits: u64)
    ensures
        bits as nat == bits_of_int(m as int),
{
    nat_to_bits(m)
}

/// The bits of the number nearest to a signed integer.
pub fn signed_to_bits(i: i64) -> (bits: u64)
    ensures
        bits as nat == bits_of_int(i as int),
{
    if i >= 0 {
        nat_to_bits(i as u64)
    } else {
        let m: u64 = (-(i + 1)) as u64 + 1;
        0x8000_0000_0000_0000 + nat_to_bits(m)
    }
}

/// The bits without the sign.
pub fn magnitude_of(bits: u64) -> (m: u64)
    ensures
        m == magnitude(bits),
{
    if bits < 0x8000_0000_0000_0000 {
        bits
    } else {
        bits - 0x8000_0000_0000_0000
    }
}

} // verus!
