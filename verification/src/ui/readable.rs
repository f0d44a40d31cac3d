//! Sizes and times as the user reads them.

use crate::text;
use vstd::prelude::*;
use vstd::string::*;

verus! {

/// The nearest whole number to `n / d`; halfway the even one.
pub open spec fn nearest(n: nat, d: nat) -> nat {
    let q = n / d;
    let rest = n % d;
    if 2 * rest > d || (2 * rest == d && q % 2 == 1) {
        q + 1
    } else {
        q
    }
}

/// The distance between the numbers of 53 significant bits around `n`.
pub open spec fn grain(n: nat) -> nat
    decreases n,
{
    if n < 0x20_0000_0000_0000 {
        1
    } else {
        2 * grain(n / 2)
    }
}

/// The nearest number of 53 significant bits.
pub open spec fn to_53_bits(n: nat) -> nat {
    nearest(n, grain(n)) * grain(n)
}

/// The unit that a size is given in, as a power of 1024.
pub open spec fn unit_of(bytes: u64) -> nat {
    if bytes < 0x400 {
        0
    } else if bytes < 0x10_0000 {
        1
    } else if bytes < 0x4000_0000 {
        2
    } else if bytes < 0x100_0000_0000 {
        3
    } else {
        4
    }
}

/// The size of a unit.
pub open spec fn unit_size(unit: nat) -> nat {
    if unit == 0 {
        1
    } else if unit == 1 {
        0x400
    } else if unit == 2 {
        0x10_0000
    } else if unit == 3 {
        0x4000_0000
    } else {
        0x100_0000_0000
    }
}

/// The name of a unit.
pub open spec fn unit_name(unit: nat) -> Seq<char> {
    if unit == 0 {
        "B"@
    } else if unit == 1 {
        "KiB"@
    } else if unit == 2 {
        "MiB"@
    } else if unit == 3 {
        "GiB"@
    } else {
        "TiB"@
    }
}

/// A size in tenths of its unit, rounded.
pub open spec fn tenths_of(bytes: u64) -> nat {
    nearest(to_53_bits(bytes as nat) * 10, unit_size(unit_of(bytes)))
}

/// A size as the user reads it: whole bytes, or one decimal in the largest unit
/// that it reaches.
pub open spec fn size_text(bytes: u64) -> Seq<char> {
    let unit = unit_of(bytes);
    if unit == 0 {
        text::decimal(bytes as nat) + " B"@
    } else {
        let tenths = tenths_of(bytes);
        (text::decimal(tenths / 10).push('.') + text::decimal(tenths % 10)).push(' ') + unit_name(
            unit,
        )
    }
}

fn nearest_of(n: u128, d: u128) -> (r: u128)
    requires
        0 < d <= 0x1_0000_0000_0000_0000,
        n <= 0xffff_ffff_ffff_ffff_ffff,
    ensures
        r == nearest(n as nat, d as nat),
{
    let q: u128 = n / d;
    let rest: u128 = n % d;
    if 2 * rest > d || (2 * rest == d && q % 2 == 1) {
        assert(q <= n) by (nonlinear_arith)
            requires
                q == n / d,
                d > 0,
        ;
        q + 1
    } else {
        q
    }
}

fn grain_of(n: u64) -> (r: u128)
    ensures
        r == grain(n as nat),
        0 < r <= 0x1000,
{
    let mut left: u64 = n;
    let mut d: u128 = 1;
    while left >= 0x20_0000_0000_0000
        invariant
            0 < d <= 0x1000,
            d * left <= n,
            grain(n as nat) == d * grain(left as nat),
        decreases left,
    {
        assert(d <= 0x7ff) by (nonlinear_arith)
            requires
                d * left <= n,
                left >= 0x20_0000_0000_0000,
                n <= u64::MAX,
        ;
        proof {
            let g = grain((left / 2) as nat);
            assert(d * (2 * g) == (2 * d) * g) by (nonlinear_arith);
            assert((2 * d) * (left / 2) <= d * left) by (nonlinear_arith)
                requires
                    d > 0,
            ;
        }
        left = left / 2;
        d = 2 * d;
    }
    assert(grain(left as nat) == 1);
    assert(d * 1 == d);
    d
}

/// A size as the user reads it.
pub fn human_size(bytes: u64) -> (r: String)
    ensures
        r@ == size_text(bytes),
{
    if bytes < 0x400 {
        let mut out = text::decimal_of(bytes);
        out.append(" B");
        return out;
    }
    let (size, name): (u128, &str) = if bytes < 0x10_0000 {
        (0x400, "KiB")
    } else if bytes < 0x4000_0000 {
        (0x10_0000, "MiB")
    } else if bytes < 0x100_0000_0000 {
        (0x4000_0000, "GiB")
    } else {
        (0x100_0000_0000, "TiB")
    };
    let step: u128 = grain_of(bytes);
    let whole: u128 = nearest_of(bytes as u128, step);
    assert(whole <= bytes + 1) by {
        assert(bytes as nat / step as nat <= bytes as nat) by (nonlinear_arith)
            requires
                step > 0,
        ;
    }
    assert(whole * step <= 0x1_0000_0000_0000_1000) by {
        lemma_nearest_bound(bytes as nat, step as nat);
    }
    let rounded: u128 = whole * step;
    let tenths: u128 = nearest_of(rounded * 10, size);
    assert(tenths <= 0xffff_ffff_ffff_ffff) by {
        lemma_nearest_small(rounded as nat * 10, size as nat);
    }
    let tenths: u64 = tenths as u64;
    let mut out = text::decimal_of(tenths / 10);
    out.push('.');
    let digit = text::decimal_of(tenths % 10);
    out.append(digit.as_str());
    out.push(' ');
    out.append(name);
    out
}

proof fn lemma_nearest_bound(n: nat, d: nat)
    requires
        d > 0,
    ensures
        nearest(n, d) * d <= n + d,
{
    assert(n / d * d <= n) by (nonlinear_arith)
        requires
            d > 0,
    ;
    assert((n / d + 1) * d == n / d * d + d) by (nonlinear_arith);
}

proof fn lemma_nearest_small(n: nat, d: nat)
    requires
        d >= 0x400,
        n <= 0xa_0000_0000_0000_a000,
    ensures
        nearest(n, d) <= 0xffff_ffff_ffff_ffff,
{
    assert(n / d <= n / 0x400) by (nonlinear_arith)
        requires
            d >= 0x400,
    ;
}

/// Sizes of at most 53 bits are taken as they are.
pub proof fn law_small_sizes_are_exact(bytes: u64)
    requires
        bytes < 0x20_0000_0000_0000,
    ensures
        to_53_bits(bytes as nat) == bytes,
{
    let n = bytes as nat;
    assert(grain(n) == 1);
    assert(n / 1 == n && n % 1 == 0);
    assert(nearest(n, 1) == n);
    assert(nearest(n, grain(n)) * grain(n) == n);
}

/// A remaining time as the user reads it, in hours and minutes, minutes and
/// seconds, or seconds.
pub open spec fn eta_text(seconds: Option<u64>) -> Seq<char> {
    match seconds {
        None => "-"@,
        Some(s) => if s >= 3600 {
            (text::decimal((s / 3600) as nat) + "h "@ + text::decimal(
                (s % 3600 / 60) as nat,
            )).push('m')
        } else if s >= 60 {
            (text::decimal((s / 60) as nat) + "m "@ + text::decimal((s % 60) as nat)).push('s')
        } else {
            text::decimal(s as nat).push('s')
        },
    }
}

/// A remaining time as the user reads it, from whole seconds, or a dash where
/// none can be told.
pub fn human_eta(seconds: Option<u64>) -> (r: String)
    ensures
        r@ == eta_text(seconds),
{
    match seconds {
        None => "-".to_owned(),
        Some(s) => if s >= 3600 {
            let mut out = text::decimal_of(s / 3600);
            out.append("h ");
            let minutes = text::decimal_of(s % 3600 / 60);
            out.append(minutes.as_str());
            out.push('m');
            out
        } else if s >= 60 {
            let mut out = text::decimal_of(s / 60);
            out.append("m ");
            let rest = text::decimal_of(s % 60);
            out.append(rest.as_str());
            out.push('s');
            out
        } else {
            let mut out = text::decimal_of(s);
            out.push('s');
            out
        },
    }
}

/// A size is given in the largest unit of which it has one at least, bytes where it
/// has none, and no unit is more than 1024 of the one before.
pub proof fn law_unit_is_the_largest(bytes: u64)
    ensures
        unit_of(bytes) <= 4,
        unit_size(unit_of(bytes)) <= bytes || unit_of(bytes) == 0,
        unit_of(bytes) < 4 ==> bytes < unit_size(unit_of(bytes) + 1),
        unit_size(0) == 1,
        forall|u: nat| u < 4 ==> unit_size(u + 1) == 1024 * #[trigger] unit_size(u),
        unit_name(0) == "B"@,
        unit_name(1) == "KiB"@,
        unit_name(2) == "MiB"@,
        unit_name(3) == "GiB"@,
        unit_name(4) == "TiB"@,
{
    assert forall|u: nat| u < 4 implies unit_size(u + 1) == 1024 * #[trigger] unit_size(u) by {
        if u == 0 {
        } else if u == 1 {
        } else if u == 2 {
        } else {
        }
    }
}

/// The tenths that a size is given in are the nearest: they are off by half a tenth
/// of the unit at most.
pub proof fn law_tenths_are_the_nearest(bytes: u64)
    requires
        bytes < 0x20_0000_0000_0000,
    ensures
        ({
            let unit = unit_size(unit_of(bytes)) as int;
            let off = 10 * bytes - tenths_of(bytes) * unit;
            -unit <= 2 * off <= unit
        }),
{
    law_small_sizes_are_exact(bytes);
    let n = bytes as nat * 10;
    let d = unit_size(unit_of(bytes));
    let q = n / d;
    assert(n == q * d + n % d && 0 <= n % d < d) by (nonlinear_arith)
        requires
            q == n / d,
            d > 0,
    ;
    assert((q + 1) * d == q * d + d) by (nonlinear_arith);
}

/// The text of a size: whole bytes, or its tenths with a point before the last digit.
pub proof fn law_size_is_read_back(bytes: u64)
    ensures
        bytes < 1024 ==> size_text(bytes) == text::decimal(bytes as nat) + seq![' ', 'B'],
        bytes >= 1024 ==> size_text(bytes) == text::decimal(tenths_of(bytes) / 10) + seq!['.']
            + text::decimal(tenths_of(bytes) % 10) + seq![' '] + unit_name(unit_of(bytes)),
        text::value_of(text::decimal(bytes as nat)) == bytes,
        text::value_of(text::decimal(tenths_of(bytes) / 10)) * 10 + text::value_of(
            text::decimal(tenths_of(bytes) % 10),
        ) == tenths_of(bytes),
{
    reveal_strlit(" B");
    assert(" B"@ =~= seq![' ', 'B']);
    text::law_decimal_is_read_back(bytes as nat);
    text::law_decimal_is_read_back(tenths_of(bytes) / 10);
    text::law_decimal_is_read_back(tenths_of(bytes) % 10);
    if bytes >= 1024 {
        let t = tenths_of(bytes);
        assert(size_text(bytes) =~= text::decimal(t / 10) + seq!['.'] + text::decimal(t % 10)
            + seq![' '] + unit_name(unit_of(bytes)));
    }
}

/// A remaining time loses less than its smallest unit: nothing below an hour, and
/// less than a minute from there on.
pub proof fn law_eta_adds_up(s: u64)
    ensures
        eta_text(None) == "-"@,
        s < 60 ==> eta_text(Some(s)) == text::decimal(s as nat) + seq!['s'],
        60 <= s < 3600 ==> exists|m: nat, rest: nat|
            s == 60 * m + rest && rest < 60 && eta_text(Some(s)) == #[trigger] text::decimal(m)
                + "m "@ + #[trigger] text::decimal(rest) + seq!['s'],
        s >= 3600 ==> exists|h: nat, m: nat|
            3600 * h + 60 * m <= s < 3600 * h + 60 * m + 60 && m < 60 && eta_text(Some(s))
                == #[trigger] text::decimal(h) + "h "@ + #[trigger] text::decimal(m) + seq!['m'],
{
    if s < 60 {
        assert(eta_text(Some(s)) =~= text::decimal(s as nat) + seq!['s']);
    } else if s < 3600 {
        let (m, rest) = ((s / 60) as nat, (s % 60) as nat);
        assert(eta_text(Some(s)) =~= text::decimal(m) + "m "@ + text::decimal(rest) + seq!['s']);
        assert(s == 60 * m + rest && rest < 60);
    } else {
        let (h, m) = ((s / 3600) as nat, (s % 3600 / 60) as nat);
        assert(eta_text(Some(s)) =~= text::decimal(h) + "h "@ + text::decimal(m) + seq!['m']);
        assert(3600 * h + 60 * m <= s < 3600 * h + 60 * m + 60 && m < 60);
    }
}

} // verus!
