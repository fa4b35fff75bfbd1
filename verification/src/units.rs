//! Byte counts, rates and durations as people read them.

use vstd::prelude::*;

use crate::strings::push_str;
use crate::text::{decimal, digit_char, u64_to_decimal};

verus! {

pub open spec fn two_pow_53() -> nat {
    0x20_0000_0000_0000
}

/// `b` split as `q * p + rest` with `p` the power of two that leaves `q`
/// below 2^53, the precision of a double.
pub open spec fn significand(b: nat) -> (nat, nat)
    decreases b,
{
    if b < two_pow_53() {
        (b, 1)
    } else {
        let (q, p) = significand(b / 2);
        (q, 2 * p)
    }
}

/// The double nearest to `b`, ties to the even significand, as `b as f64`
/// converts an integer.
pub open spec fn nearest_double(b: nat) -> nat {
    if b < two_pow_53() {
        b
    } else {
        let (q, p) = significand(b);
        let r = b - q * p;
        if 2 * r > p || (2 * r == p && q % 2 == 1) {
            (q + 1) * p
        } else {
            q * p
        }
    }
}

/// `n / d` rounded to the nearest integer, ties to even.
pub open spec fn round_half_even(n: nat, d: nat) -> nat
    recommends
        d > 0,
{
    let q = n / d;
    let r = n % d;
    if 2 * r > d || (2 * r == d && q % 2 == 1) {
        q + 1
    } else {
        q
    }
}

/// The unit a byte count is shown in: B, KiB, MiB or GiB.
pub open spec fn byte_unit(b: nat) -> nat {
    if b >= 0x4000_0000 {
        3
    } else if b >= 0x10_0000 {
        2
    } else if b >= 0x400 {
        1
    } else {
        0
    }
}

pub open spec fn unit_size(u: nat) -> nat {
    if u == 3 {
        0x4000_0000
    } else if u == 2 {
        0x10_0000
    } else if u == 1 {
        0x400
    } else {
        1
    }
}

pub open spec fn unit_name(u: nat) -> Seq<char> {
    if u == 3 {
        "GiB"@
    } else if u == 2 {
        "MiB"@
    } else if u == 1 {
        "KiB"@
    } else {
        "B"@
    }
}

/// A byte count as `human_bytes` shows it: whole bytes below 1 KiB,
/// otherwise the count in the largest of KiB, MiB and GiB that it reaches,
/// with one decimal, rounded half to even from the count as a double.
pub open spec fn bytes_text(b: nat) -> Seq<char> {
    let u = byte_unit(b);
    if u == 0 {
        decimal(b) + " B"@
    } else {
        let t = round_half_even(10 * nearest_double(b), unit_size(u));
        decimal(t / 10) + "."@ + seq![digit_char(t % 10)] + " "@ + unit_name(u)
    }
}

proof fn lemma_significand(b: nat)
    ensures
        significand(b).1 >= 1,
        significand(b).0 < two_pow_53(),
        significand(b).0 * significand(b).1 <= b,
        b < significand(b).0 * significand(b).1 + significand(b).1,
        b >= two_pow_53() ==> significand(b).1 <= b,
    decreases b,
{
    if b >= two_pow_53() {
        let (q, p) = significand(b / 2);
        lemma_significand(b / 2);
        assert(q * (2 * p) == 2 * (q * p)) by (nonlinear_arith);
        if b / 2 >= two_pow_53() {
            assert(p <= b / 2);
        } else {
            assert(p == 1);
        }
    }
}

fn significand_of(b: u64) -> (r: (u64, u128))
    ensures
        r.0 as nat == significand(b as nat).0,
        r.1 as nat == significand(b as nat).1,
    decreases b,
{
    proof {
        lemma_significand(b as nat);
    }
    if b < 0x20_0000_0000_0000 {
        (b, 1)
    } else {
        let (q, p) = significand_of(b / 2);
        proof {
            lemma_significand((b / 2) as nat);
        }
        (q, 2 * p)
    }
}

/// A byte count for people: `512 B`, `1.0 KiB`, `22.5 MiB`.
pub fn human_bytes(bytes: u64) -> (s: String)
    ensures
        s@ == bytes_text(bytes as nat),
{
    let unit: u8 = if bytes >= 0x4000_0000 {
        3
    } else if bytes >= 0x10_0000 {
        2
    } else if bytes >= 0x400 {
        1
    } else {
        0
    };
    if unit == 0 {
        let mut s = u64_to_decimal(bytes);
        push_str(&mut s, " B");
        return s;
    }
    let near: u128 = if bytes < 0x20_0000_0000_0000 {
        bytes as u128
    } else {
        let (q, p) = significand_of(bytes);
        proof {
            lemma_significand(bytes as nat);
            assert(q * p <= bytes);
        }
        let r = bytes as u128 - q as u128 * p;
        assert((q as u128 + 1) * p == q as u128 * p + p) by (nonlinear_arith);
        if 2 * r > p || (2 * r == p && q % 2 == 1) {
            (q as u128 + 1) * p
        } else {
            q as u128 * p
        }
    };
    assert(near == nearest_double(bytes as nat));
    assert(near <= 2 * (bytes as u128));
    let size: u128 = if unit == 3 {
        0x4000_0000
    } else if unit == 2 {
        0x10_0000
    } else {
        0x400
    };
    let n: u128 = 10 * near;
    let q = n / size;
    let r = n % size;
    let t: u128 = if 2 * r > size || (2 * r == size && q % 2 == 1) {
        q + 1
    } else {
        q
    };
    assert(t == round_half_even(10 * nearest_double(bytes as nat), unit_size(unit as nat)));
    assert(q <= n / 1024) by (nonlinear_arith)
        requires
            q == n / size,
            size >= 1024,
    ;
    let whole = t / 10;
    let tenth = t % 10;
    let mut s = u64_to_decimal(whole as u64);
    push_str(&mut s, ".");
    s.push(crate::text::digit_of(tenth as u64));
    push_str(&mut s, " ");
    if unit == 3 {
        push_str(&mut s, "GiB");
    } else if unit == 2 {
        push_str(&mut s, "MiB");
    } else {
        push_str(&mut s, "KiB");
    }
    assert(s@ =~= bytes_text(bytes as nat));
    s
}

/// A number of tenths as shown with one decimal: `12.5` for 125.
pub open spec fn tenths_text(t: nat) -> Seq<char> {
    decimal(t / 10) + "."@ + seq![digit_char(t % 10)]
}

/// Rounding `n / d` to the nearest whole number, ties to even, lands within
/// half of `d` of `n`.
proof fn lemma_round_half_even_near(n: nat, d: nat)
    requires
        d > 0,
    ensures
        2 * (round_half_even(n, d) * d) <= 2 * n + d,
        2 * n <= 2 * (round_half_even(n, d) * d) + d,
{
    let q = n / d;
    let r = n % d;
    vstd::arithmetic::div_mod::lemma_fundamental_div_mod(n as int, d as int);
    assert((q + 1) * d == q * d + d) by (nonlinear_arith);
}

proof fn lemma_bytes_in_unit(b: nat, size: nat, name: Seq<char>)
    requires
        byte_unit(b) > 0,
        unit_size(byte_unit(b)) == size,
        " "@ + unit_name(byte_unit(b)) == name,
    ensures
        bytes_text(b) == tenths_text(round_half_even(10 * nearest_double(b), size)) + name,
        b < two_pow_53() ==> 2 * (round_half_even(10 * nearest_double(b), size) * size) <= 20 * b + size,
        b < two_pow_53() ==> 20 * b <= 2 * (round_half_even(10 * nearest_double(b), size) * size) + size,
{
    let t = round_half_even(10 * nearest_double(b), size);
    assert(bytes_text(b) =~= tenths_text(t) + (" "@ + unit_name(byte_unit(b))));
    lemma_round_half_even_near(10 * nearest_double(b), size);
}

/// The unit `human_bytes` shows a count in is the largest of B, KiB, MiB and
/// GiB that the count reaches: below 1024 bytes the count itself in bytes;
/// otherwise a number with one decimal that, times the unit (1024, 1024^2 or
/// 1024^3 bytes), comes within half a tenth of a unit of the count (for
/// counts that a double holds exactly).
pub proof fn law_bytes_text_units(b: nat)
    ensures
        b < 0x400 ==> bytes_text(b) == decimal(b) + " B"@,
        0x400 <= b < 0x10_0000 ==> exists|t: nat|
            bytes_text(b) == #[trigger] tenths_text(t) + " KiB"@ && 2 * (t * 0x400) <= 20 * b + 0x400 && 20
                * b <= 2 * (t * 0x400) + 0x400,
        0x10_0000 <= b < 0x4000_0000 ==> exists|t: nat|
            bytes_text(b) == #[trigger] tenths_text(t) + " MiB"@ && 2 * (t * 0x10_0000) <= 20 * b + 0x10_0000
                && 20 * b <= 2 * (t * 0x10_0000) + 0x10_0000,
        0x4000_0000 <= b ==> exists|t: nat|
            bytes_text(b) == #[trigger] tenths_text(t) + " GiB"@ && (b < two_pow_53() ==> 2 * (t
                * 0x4000_0000) <= 20 * b + 0x4000_0000 && 20 * b <= 2 * (t * 0x4000_0000) + 0x4000_0000),
{
    reveal_strlit(" ");
    reveal_strlit("B");
    reveal_strlit(" B");
    reveal_strlit("KiB");
    reveal_strlit(" KiB");
    reveal_strlit("MiB");
    reveal_strlit(" MiB");
    reveal_strlit("GiB");
    reveal_strlit(" GiB");
    if 0x400 <= b < 0x10_0000 {
        assert(" "@ + "KiB"@ =~= " KiB"@);
        lemma_bytes_in_unit(b, 0x400, " KiB"@);
        let t = round_half_even(10 * nearest_double(b), 0x400);
        assert(tenths_text(t) + " KiB"@ == bytes_text(b));
    } else if 0x10_0000 <= b < 0x4000_0000 {
        assert(" "@ + "MiB"@ =~= " MiB"@);
        lemma_bytes_in_unit(b, 0x10_0000, " MiB"@);
        let t = round_half_even(10 * nearest_double(b), 0x10_0000);
        assert(tenths_text(t) + " MiB"@ == bytes_text(b));
    } else if 0x4000_0000 <= b {
        assert(" "@ + "GiB"@ =~= " GiB"@);
        lemma_bytes_in_unit(b, 0x4000_0000, " GiB"@);
        let t = round_half_even(10 * nearest_double(b), 0x4000_0000);
        assert(tenths_text(t) + " GiB"@ == bytes_text(b));
    }
}

/// `n` with at least two digits.
pub open spec fn two_digits(n: nat) -> Seq<char> {
    if n < 10 {
        "0"@ + decimal(n)
    } else {
        decimal(n)
    }
}

fn push_two_digits(s: &mut String, n: u64)
    ensures
        final(s)@ == old(s)@ + two_digits(n as nat),
{
    if n < 10 {
        push_str(s, "0");
    }
    let d = u64_to_decimal(n);
    push_str(s, d.as_str());
}

/// Minutes and seconds, each at least two digits: `07m05s`.
pub open spec fn duration_text(secs: nat) -> Seq<char> {
    two_digits(secs / 60) + "m"@ + two_digits(secs % 60) + "s"@
}

/// An elapsed time as minutes and seconds, each at least two digits: `07m05s`.
pub fn human_duration(secs: u64) -> (s: String)
    ensures
        s@ == duration_text(secs as nat),
{
    let mut s = String::new();
    push_two_digits(&mut s, secs / 60);
    push_str(&mut s, "m");
    push_two_digits(&mut s, secs % 60);
    push_str(&mut s, "s");
    s
}

/// A transfer rate: `--` for nothing transferred or less than 50 ms taken,
/// otherwise the whole bytes per second, at most `u64::MAX`, as
/// `human_bytes` shows them, and `/s`.
pub open spec fn rate_text(bytes: nat, nanos: nat) -> Seq<char> {
    if nanos < 50_000_000 || bytes == 0 {
        "--"@
    } else {
        let per_sec = bytes * 1_000_000_000 / nanos;
        bytes_text(if per_sec > u64::MAX { u64::MAX as nat } else { per_sec }) + "/s"@
    }
}

/// The rate of `bytes` transferred over `secs` seconds and `nanos`
/// nanoseconds.
pub fn rate(bytes: u64, secs: u64, nanos: u32) -> (s: String)
    requires
        nanos < 1_000_000_000,
    ensures
        s@ == rate_text(bytes as nat, (secs * 1_000_000_000 + nanos) as nat),
{
    let total: u128 = secs as u128 * 1_000_000_000 + nanos as u128;
    if total < 50_000_000 || bytes == 0 {
        let mut s = String::new();
        push_str(&mut s, "--");
        return s;
    }
    let per_sec: u128 = bytes as u128 * 1_000_000_000 / total;
    let shown: u64 = if per_sec > 0xffff_ffff_ffff_ffff {
        0xffff_ffff_ffff_ffff
    } else {
        per_sec as u64
    };
    let mut s = human_bytes(shown);
    push_str(&mut s, "/s");
    s
}

} // verus!
