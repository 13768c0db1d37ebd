//! Numbers as digits.
use vstd::prelude::*;

verus! {

/// The character of a digit.
pub open spec fn digit(d: nat) -> char {
    if d < 10 {
        (48 + d) as char
    } else {
        (87 + d) as char
    }
}

/// The digits of `n` in base `base`, without leading zeros.
pub open spec fn digits(n: nat, base: nat) -> Seq<char>
    decreases n,
{
    if base < 2 || n < base {
        seq![digit(n)]
    } else {
        proof {
            assert(n / base < n) by (nonlinear_arith)
                requires
                    n >= base,
                    base >= 2,
            ;
        }
        digits(n / base, base).push(digit(n % base))
    }
}

/// The `width` last digits of `n` in base `base`.
pub open spec fn padded(n: nat, base: nat, width: nat) -> Seq<char>
    decreases width,
{
    if width == 0 {
        Seq::empty()
    } else {
        padded(n / base, base, (width - 1) as nat).push(digit(n % base))
    }
}

/// A padded number has the width that was asked for.
pub proof fn padded_len(n: nat, base: nat, width: nat)
    requires
        base > 0,
    ensures
        padded(n, base, width).len() == width,
    decreases width,
{
    if width > 0 {
        padded_len(n / base, base, (width - 1) as nat);
    }
}

/// A signed number: a minus before the digits of a negative one.
pub open spec fn signed_decimal(i: int) -> Seq<char> {
    if i < 0 {
        seq!['-'] + digits((-i) as nat, 10)
    } else {
        digits(i as nat, 10)
    }
}

/// Different numbers have different digits.
pub proof fn digits_differ(a: nat, b: nat)
    requires
        digits(a, 10) == digits(b, 10),
    ensures
        a == b,
    decreases a,
{
    digits_len(a);
    digits_len(b);
    let (s, t) = (digits(a, 10), digits(b, 10));
    assert(s.last() == t.last());
    if a < 10 && b < 10 {
        assert(s[0] == digit(a));
        assert(t[0] == digit(b));
    } else if a >= 10 && b >= 10 {
        assert(s.drop_last() =~= digits(a / 10, 10));
        assert(t.drop_last() =~= digits(b / 10, 10));
        digits_differ(a / 10, b / 10);
        assert(digit(a % 10) == digit(b % 10));
    } else if a < 10 {
        digits_len(b / 10);
    } else {
        digits_len(a / 10);
    }
}

/// There is at least one digit.
pub proof fn digits_len(a: nat)
    ensures
        digits(a, 10).len() > 0,
{
}

/// The character of a digit.
fn digit_char(d: u64) -> (c: char)
    requires
        d < 16,
    ensures
        c == digit(d as nat),
{
    let b: u8 = if d < 10 {
        48 + d as u8
    } else {
        87 + d as u8
    };
    b as char
}

/// Appends the digits of `n` in base `base`.
pub fn push_digits(out: &mut String, n: u64, base: u64)
    requires
        2 <= base <= 16,
    ensures
        final(out)@ == old(out)@ + digits(n as nat, base as nat),
    decreases n,
{
    let ghost before = out@;
    if n < base {
        out.push(digit_char(n));
        proof {
            assert(out@ =~= before + seq![digit(n as nat)]);
        }
    } else {
        proof {
            assert(n / base < n) by (nonlinear_arith)
                requires
                    n >= base,
                    base >= 2,
            ;
            assert(n % base < base) by (nonlinear_arith)
                requires
                    base >= 2,
            ;
        }
        push_digits(out, n / base, base);
        out.push(digit_char(n % base));
        proof {
            assert(out@ =~= before + digits(n as nat, base as nat));
        }
    }
}

/// Appends the `width` last digits of `n` in base `base`.
pub fn push_padded(out: &mut String, n: u64, base: u64, width: usize)
    requires
        2 <= base <= 16,
    ensures
        final(out)@ == old(out)@ + padded(n as nat, base as nat, width as nat),
    decreases width,
{
    let ghost before = out@;
    if width > 0 {
        proof {
            assert(n % base < base) by (nonlinear_arith)
                requires
                    base >= 2,
            ;
        }
        push_padded(out, n / base, base, width - 1);
        out.push(digit_char(n % base));
        proof {
            assert(out@ =~= before + padded(n as nat, base as nat, width as nat));
        }
    } else {
        proof {
            assert(out@ =~= before + Seq::empty());
        }
    }
}

/// Appends a signed number.
pub fn push_signed(out: &mut String, i: i64)
    ensures
        final(out)@ == old(out)@ + signed_decimal(i as int),
{
    let ghost before = out@;
    if i < 0 {
        out.push('-');
        let m: u64 = (-(i + 1)) as u64 + 1;
        push_digits(out, m, 10);
        proof {
            assert(out@ =~= before + signed_decimal(i as int));
        }
    } else {
        push_digits(out, i as u64, 10);
    }
}

/// What a digit counts: `0` to `9` and then `a` to `f`.
pub open spec fn digit_value(c: char) -> nat {
    if '0' <= c && c <= '9' {
        (c as nat - '0' as nat) as nat
    } else if 'a' <= c && c <= 'f' {
        (c as nat - 'a' as nat + 10) as nat
    } else {
        16
    }
}

/// The number that digits write, the last one counting least.
pub open spec fn read_digits(s: Seq<char>, base: nat) -> nat
    decreases s.len(),
{
    if s.len() == 0 {
        0
    } else {
        read_digits(s.drop_last(), base) * base + digit_value(s.last())
    }
}

/// The digits of a number are read as that number, each is below the base, and none but a lone
/// zero stands first as a zero.
pub proof fn digits_are_read(n: nat, base: nat)
    requires
        2 <= base <= 16,
    ensures
        read_digits(digits(n, base), base) == n,
        forall|i: int| 0 <= i < digits(n, base).len() ==> digit_value(#[trigger] digits(n, base)[i]) < base,
        digits(n, base)[0] == '0' ==> digits(n, base) == seq!['0'],
    decreases n,
{
    let d = digits(n, base);
    if n < base {
        assert(d == seq![digit(n)]);
        assert(d.drop_last() =~= Seq::<char>::empty());
        assert(read_digits(d.drop_last(), base) == 0);
        assert(0 * base == 0) by (nonlinear_arith);
    } else {
        let m = n / base;
        assert(m < n) by (nonlinear_arith)
            requires
                n >= base,
                base >= 2,
                m == n / base,
        ;
        assert(m >= 1) by (nonlinear_arith)
            requires
                n >= base,
                base >= 2,
                m == n / base,
        ;
        digits_are_read(m, base);
        assert(n % base < base) by (nonlinear_arith)
            requires
                base >= 2,
        ;
        assert(m * base + n % base == n) by (nonlinear_arith)
            requires
                base >= 2,
                m == n / base,
        ;
        let r = digits(m, base);
        assert(d == r.push(digit(n % base)));
        assert(d.drop_last() =~= r);
        digits_len_any(m, base);
        assert(d[0] == r[0]);
        if d[0] == '0' {
            assert(r.drop_last() =~= Seq::<char>::empty());
            assert(read_digits(r, base) == 0) by {
                assert(read_digits(r.drop_last(), base) == 0);
                assert(0 * base == 0) by (nonlinear_arith);
            }
        }
        assert forall|i: int| 0 <= i < d.len() implies digit_value(#[trigger] d[i]) < base by {
            if i < r.len() {
                assert(d[i] == r[i]);
            }
        }
    }
}

proof fn digits_len_any(n: nat, base: nat)
    requires
        2 <= base,
    ensures
        digits(n, base).len() > 0,
{
}

/// A number that fits its width is read back from its padded form.
pub proof fn padded_is_read(n: nat, base: nat, width: nat)
    requires
        2 <= base <= 16,
    ensures
        n < vstd::arithmetic::power::pow(base as int, width) ==> read_digits(padded(n, base, width), base) == n,
    decreases width,
{
    let p = padded(n, base, width);
    if width == 0 {
        vstd::arithmetic::power::lemma_pow0(base as int);
    } else {
        let m = n / base;
        padded_is_read(m, base, (width - 1) as nat);
        vstd::arithmetic::power::lemma_pow_adds(base as int, 1, (width - 1) as nat);
        vstd::arithmetic::power::lemma_pow1(base as int);
        let k = vstd::arithmetic::power::pow(base as int, (width - 1) as nat);
        assert(p.drop_last() =~= padded(m, base, (width - 1) as nat));
        assert(n % base < base) by (nonlinear_arith)
            requires
                base >= 2,
        ;
        assert(m * base + n % base == n) by (nonlinear_arith)
            requires
                base >= 2,
                m == n / base,
        ;
        if n < vstd::arithmetic::power::pow(base as int, width) {
            assert(m < k) by (nonlinear_arith)
                requires
                    n < base * k,
                    base >= 2,
                    m == n / base,
            ;
        }
    }
}

/// A signed number is written with a minus sign exactly where it is below zero, before the
/// digits of its amount.
pub proof fn signed_is_read(i: int)
    ensures
        i >= 0 ==> read_digits(signed_decimal(i), 10) == i && signed_decimal(i)[0] != '-',
        i < 0 ==> signed_decimal(i)[0] == '-' && read_digits(signed_decimal(i).drop_first(), 10) == -i,
{
    if i < 0 {
        digits_are_read((-i) as nat, 10);
        assert(signed_decimal(i).drop_first() =~= digits((-i) as nat, 10));
    } else {
        digits_are_read(i as nat, 10);
        digits_len_any(i as nat, 10);
        assert(digit_value(digits(i as nat, 10)[0]) < 10);
    }
}

} // verus!
