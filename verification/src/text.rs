//! Character-level helpers shared by the parsers and formatters.

use vstd::prelude::*;

verus! {

pub assume_specification[ String::push ](s: &mut String, ch: char)
    ensures
        final(s)@ == old(s)@.push(ch),
;

/// A three-way comparison result.
#[derive(PartialEq, Eq, Structural, Clone, Copy, Debug)]
pub enum Order {
    Less,
    Equal,
    Greater,
}

pub open spec fn reverse_order(o: Order) -> Order {
    match o {
        Order::Less => Order::Greater,
        Order::Equal => Order::Equal,
        Order::Greater => Order::Less,
    }
}

pub open spec fn int_order(a: int, b: int) -> Order {
    if a < b {
        Order::Less
    } else if a == b {
        Order::Equal
    } else {
        Order::Greater
    }
}

/// Lexicographic order of two character sequences by code point, a proper
/// prefix coming first. This is also the byte order of their UTF-8 encodings.
pub open spec fn lex_order(a: Seq<char>, b: Seq<char>) -> Order
    decreases a.len(),
{
    if a.len() == 0 {
        if b.len() == 0 {
            Order::Equal
        } else {
            Order::Less
        }
    } else if b.len() == 0 {
        Order::Greater
    } else if a[0] == b[0] {
        lex_order(a.drop_first(), b.drop_first())
    } else if (a[0] as int) < (b[0] as int) {
        Order::Less
    } else {
        Order::Greater
    }
}

pub proof fn lemma_lex_order_antisymmetric(a: Seq<char>, b: Seq<char>)
    ensures
        lex_order(b, a) == reverse_order(lex_order(a, b)),
        lex_order(a, b) == Order::Equal <==> a == b,
    decreases a.len(),
{
    if a.len() > 0 && b.len() > 0 && a[0] == b[0] {
        lemma_lex_order_antisymmetric(a.drop_first(), b.drop_first());
        if a.drop_first() == b.drop_first() {
            assert(a =~= seq![a[0]] + a.drop_first());
            assert(b =~= seq![b[0]] + b.drop_first());
        }
        if a == b {
            assert(a.drop_first() =~= b.drop_first());
        }
    } else if a.len() > 0 && b.len() > 0 {
        assert((a[0] as int) != (b[0] as int));
    } else if a.len() == 0 && b.len() == 0 {
        assert(a =~= b);
    }
}

/// Lexicographic order is transitive.
pub proof fn lemma_lex_order_transitive(a: Seq<char>, b: Seq<char>, c: Seq<char>)
    requires
        lex_order(a, b) == Order::Less,
        lex_order(b, c) == Order::Less,
    ensures
        lex_order(a, c) == Order::Less,
    decreases a.len(),
{
    if a.len() > 0 && b.len() > 0 && c.len() > 0 && a[0] == b[0] && b[0] == c[0] {
        lemma_lex_order_transitive(a.drop_first(), b.drop_first(), c.drop_first());
    }
}

/// The characters of `s`.
pub fn chars_of(s: &str) -> (v: Vec<char>)
    ensures
        v@ == s@,
{
    broadcast use vstd::string::group_string_axioms;

    let mut v: Vec<char> = Vec::new();
    for c in iter: s.chars()
        invariant
            iter.seq() == s@,
            v@ == iter.seq().take(iter.index() as int),
    {
        v.push(c);
    }
    v
}

/// A string holding exactly the characters of `v`.
pub fn string_of(v: &Vec<char>) -> (s: String)
    ensures
        s@ == v@,
{
    let mut s = String::new();
    let mut i: usize = 0;
    while i < v.len()
        invariant
            i <= v.len(),
            s@ == v@.take(i as int),
        decreases v.len() - i,
    {
        s.push(v[i]);
        i = i + 1;
        assert(s@ == v@.take(i as int));
    }
    assert(v@.take(v.len() as int) == v@);
    s
}

/// Appends the characters of `v` to `s`.
pub fn push_chars(s: &mut String, v: &Vec<char>)
    ensures
        final(s)@ == old(s)@ + v@,
{
    let mut i: usize = 0;
    while i < v.len()
        invariant
            i <= v.len(),
            s@ == old(s)@ + v@.take(i as int),
        decreases v.len() - i,
    {
        s.push(v[i]);
        i = i + 1;
        assert(s@ == old(s)@ + v@.take(i as int));
    }
    assert(v@.take(v.len() as int) == v@);
}

/// Whether two strings hold the same characters.
pub fn str_eq(a: &str, b: &str) -> (r: bool)
    ensures
        r == (a@ == b@),
{
    let x = chars_of(a);
    let y = chars_of(b);
    chars_eq(&x, &y)
}

pub fn chars_eq(x: &Vec<char>, y: &Vec<char>) -> (r: bool)
    ensures
        r == (x@ == y@),
{
    if x.len() != y.len() {
        return false;
    }
    let mut i: usize = 0;
    while i < x.len()
        invariant
            x.len() == y.len(),
            i <= x.len(),
            forall|k: int| 0 <= k < i ==> x@[k] == y@[k],
        decreases x.len() - i,
    {
        if x[i] != y[i] {
            return false;
        }
        i = i + 1;
    }
    assert(x@ == y@);
    true
}

/// Lexicographic comparison of two strings by code point.
pub fn str_order(a: &str, b: &str) -> (o: Order)
    ensures
        o == lex_order(a@, b@),
{
    let x = chars_of(a);
    let y = chars_of(b);
    chars_order(&x, &y)
}

pub fn chars_order(x: &Vec<char>, y: &Vec<char>) -> (o: Order)
    ensures
        o == lex_order(x@, y@),
{
    let mut i: usize = 0;
    assert(x@.skip(0) == x@);
    assert(y@.skip(0) == y@);
    while i < x.len() && i < y.len()
        invariant
            i <= x.len(),
            i <= y.len(),
            x@.take(i as int) == y@.take(i as int),
            lex_order(x@, y@) == lex_order(x@.skip(i as int), y@.skip(i as int)),
        decreases x.len() - i,
    {
        let ghost xs = x@.skip(i as int);
        let ghost ys = y@.skip(i as int);
        if x[i] != y[i] {
            assert(xs[0] == x@[i as int]);
            assert(ys[0] == y@[i as int]);
            if x[i] < y[i] {
                return Order::Less;
            } else {
                return Order::Greater;
            }
        }
        assert(xs.drop_first() == x@.skip(i + 1));
        assert(ys.drop_first() == y@.skip(i + 1));
        assert(x@.take(i + 1) == x@.take(i as int).push(x@[i as int]));
        assert(y@.take(i + 1) == y@.take(i as int).push(y@[i as int]));
        i = i + 1;
    }
    if i < x.len() {
        Order::Greater
    } else if i < y.len() {
        Order::Less
    } else {
        Order::Equal
    }
}

/// The value of a decimal digit character.
pub open spec fn digit_value(c: char) -> nat {
    ((c as u32) - ('0' as u32)) as nat
}

pub open spec fn is_digit(c: char) -> bool {
    '0' <= c && c <= '9'
}

pub open spec fn digit_char(d: nat) -> char
    recommends
        d < 10,
{
    ((d + ('0' as u32)) as u32) as char
}

/// The decimal representation of `n`, without leading zeros ("0" for zero).
pub open spec fn decimal(n: nat) -> Seq<char>
    decreases n,
{
    if n < 10 {
        seq![digit_char(n)]
    } else {
        decimal(n / 10).push(digit_char(n % 10))
    }
}

/// The value of a sequence of decimal digits.
pub open spec fn digits_value(s: Seq<char>) -> nat
    decreases s.len(),
{
    if s.len() == 0 {
        0
    } else {
        digits_value(s.drop_last()) * 10 + digit_value(s.last())
    }
}

pub open spec fn all_digits(s: Seq<char>) -> bool {
    forall|i: int| 0 <= i < s.len() ==> is_digit(#[trigger] s[i])
}

pub fn is_ascii_digit(c: char) -> (b: bool)
    ensures
        b == is_digit(c),
{
    '0' <= c && c <= '9'
}

pub fn digit_of(d: u64) -> (c: char)
    requires
        d < 10,
    ensures
        c == digit_char(d as nat),
        is_digit(c),
        digit_value(c) == d,
{
    let code: u8 = (d as u8) + 48;
    code as char
}

/// The decimal representation of `n`.
pub fn u64_to_decimal(n: u64) -> (s: String)
    ensures
        s@ == decimal(n as nat),
    decreases n,
{
    if n < 10 {
        let mut s = String::new();
        s.push(digit_of(n));
        assert(s@ == seq![digit_char(n as nat)]);
        s
    } else {
        let mut s = u64_to_decimal(n / 10);
        s.push(digit_of(n % 10));
        s
    }
}

/// The decimal representation of `n`.
pub fn usize_to_decimal(n: usize) -> (s: String)
    ensures
        s@ == decimal(n as nat),
{
    u64_to_decimal(n as u64)
}

/// Parses a string of decimal digits as a `u64`, which fails on anything
/// else and on values past `u64::MAX`.
pub fn parse_u64_digits(v: &Vec<char>) -> (r: Option<u64>)
    ensures
        r == (if v@.len() > 0 && all_digits(v@) && digits_value(v@) <= u64::MAX {
            Some(digits_value(v@) as u64)
        } else {
            None::<u64>
        }),
{
    if v.len() == 0 {
        return None;
    }
    let mut value: u64 = 0;
    let mut i: usize = 0;
    while i < v.len()
        invariant
            i <= v.len(),
            all_digits(v@.take(i as int)),
            value == digits_value(v@.take(i as int)),
        decreases v.len() - i,
    {
        let c = v[i];
        assert(v@.take(i + 1).drop_last() == v@.take(i as int));
        if !is_ascii_digit(c) {
            assert(!all_digits(v@));
            return None;
        }
        let d: u64 = ((c as u32) - 48) as u64;
        if value > (u64::MAX - d) / 10 {
            proof {
                lemma_digits_value_prefix_bound(v@, i + 1);
            }
            return None;
        }
        value = value * 10 + d;
        i = i + 1;
    }
    assert(v@.take(v.len() as int) == v@);
    Some(value)
}

/// A digit sequence is worth at least as much as any of its prefixes.
pub proof fn lemma_digits_value_prefix_bound(s: Seq<char>, n: int)
    requires
        0 <= n <= s.len(),
    ensures
        digits_value(s.take(n)) <= digits_value(s),
    decreases s.len() - n,
{
    if n < s.len() {
        lemma_digits_value_prefix_bound(s, n + 1);
        assert(s.take(n + 1).drop_last() == s.take(n));
    } else {
        assert(s.take(n) == s);
    }
}


pub open spec fn pow10(k: nat) -> nat
    decreases k,
{
    if k == 0 {
        1
    } else {
        10 * pow10((k - 1) as nat)
    }
}

proof fn lemma_decimal_len_pow(n: nat, k: nat)
    requires
        k >= 1,
        n < pow10(k),
    ensures
        decimal(n).len() <= k,
    decreases k,
{
    if n >= 10 {
        assert(k >= 2) by {
            if k == 1 {
                assert(pow10(1) == 10 * pow10(0));
            }
        }
        assert(pow10(k) == 10 * pow10((k - 1) as nat));
        lemma_decimal_len_pow(n / 10, (k - 1) as nat);
    }
}

/// A `u64` has at most 20 decimal digits.
pub proof fn lemma_decimal_len_bound(n: nat)
    requires
        n <= u64::MAX,
    ensures
        1 <= decimal(n).len() <= 20,
{
    reveal_with_fuel(pow10, 21);
    assert(pow10(20) == 100_000_000_000_000_000_000);
    lemma_decimal_len_pow(n, 20);
}

/// A `u32` as `str::parse` reads one: decimal digits, optionally after a
/// `+`; nothing else, and nothing past `u32::MAX`.
pub open spec fn parsed_u32(s: Seq<char>) -> Option<nat> {
    let digits = if s.len() > 1 && s[0] == '+' {
        s.drop_first()
    } else {
        s
    };
    if digits.len() > 0 && all_digits(digits) && digits_value(digits) <= u32::MAX {
        Some(digits_value(digits))
    } else {
        None
    }
}

/// Reads `s` as a `u32` the way `str::parse` does.
pub fn parse_u32_text(s: &str) -> (r: Option<u32>)
    ensures
        r matches Some(n) ==> parsed_u32(s@) == Some(n as nat),
        r is None ==> parsed_u32(s@) is None,
{
    let cs = chars_of(s);
    let digits: Vec<char> = if cs.len() > 1 && cs[0] == '+' {
        let mut d: Vec<char> = Vec::new();
        let mut k: usize = 1;
        while k < cs.len()
            invariant
                1 <= k <= cs@.len(),
                d@ == cs@.subrange(1, k as int),
            decreases cs@.len() - k,
        {
            d.push(cs[k]);
            k = k + 1;
            assert(d@ =~= cs@.subrange(1, k as int));
        }
        assert(d@ =~= s@.drop_first());
        d
    } else {
        cs
    };
    match parse_u64_digits(&digits) {
        Some(n) => if n <= 0xffff_ffff {
            Some(n as u32)
        } else {
            None
        },
        None => None,
    }
}

/// The decimal representation of a signed integer: a `-` before the digits
/// of a negative one.
pub open spec fn signed_decimal(v: int) -> Seq<char> {
    if v < 0 {
        seq!['-'] + decimal((-v) as nat)
    } else {
        decimal(v as nat)
    }
}

/// The decimal representation of `v`.
pub fn i32_to_decimal(v: i32) -> (s: String)
    ensures
        s@ == signed_decimal(v as int),
{
    if v < 0 {
        let magnitude: u64 = (0i64 - (v as i64)) as u64;
        let digits = u64_to_decimal(magnitude);
        let mut s = String::new();
        s.push('-');
        crate::strings::push_str(&mut s, digits.as_str());
        assert(s@ == seq!['-'] + decimal((-v) as nat));
        s
    } else {
        u64_to_decimal(v as u64)
    }
}

/// The decimal digits of `n` read back as `n`.
pub proof fn lemma_decimal_digits(n: nat)
    ensures
        decimal(n).len() > 0,
        all_digits(decimal(n)),
        digits_value(decimal(n)) == n,
    decreases n,
{
    let d = n % 10;
    let c = digit_char(d);
    assert(is_digit(c) && digit_value(c) == d) by {
        assert(d < 10);
        assert(((d + 48) as u32) as char as u32 == d + 48);
    }
    if n >= 10 {
        lemma_decimal_digits(n / 10);
        let s = decimal(n / 10);
        assert(decimal(n) == s.push(c));
        assert(decimal(n).drop_last() == s);
        assert(decimal(n).last() == c);
        assert(digits_value(decimal(n)) == digits_value(s) * 10 + digit_value(c));
        assert((n / 10) * 10 + n % 10 == n);
        assert forall|i: int| 0 <= i < decimal(n).len() implies is_digit(#[trigger] decimal(n)[i]) by {
            if i < s.len() {
                assert(decimal(n)[i] == s[i]);
            }
        }
    } else {
        assert(decimal(n).drop_last() =~= Seq::<char>::empty());
        assert(decimal(n).last() == c);
        assert(digits_value(decimal(n)) == digits_value(Seq::<char>::empty()) * 10 + digit_value(c));
    }
}

/// An `i32` as `str::parse` reads one: decimal digits, optionally after a
/// `+` or a `-`; nothing else, and nothing outside the range of `i32`.
pub open spec fn parsed_i32(s: Seq<char>) -> Option<int> {
    let signed = s.len() > 1 && (s[0] == '+' || s[0] == '-');
    let digits = if signed {
        s.drop_first()
    } else {
        s
    };
    let value = if signed && s[0] == '-' {
        -(digits_value(digits) as int)
    } else {
        digits_value(digits) as int
    };
    if digits.len() > 0 && all_digits(digits) && i32::MIN <= value <= i32::MAX {
        Some(value)
    } else {
        None
    }
}

/// The decimal representation of an `i32` reads back as that `i32`.
pub proof fn lemma_signed_decimal_parses(v: i32)
    ensures
        parsed_i32(signed_decimal(v as int)) == Some(v as int),
{
    let m: nat = if v < 0 {
        (-v) as nat
    } else {
        v as nat
    };
    lemma_decimal_digits(m);
    let t = signed_decimal(v as int);
    if v < 0 {
        assert(t.drop_first() =~= decimal(m));
        assert(is_digit(decimal(m)[0]));
    } else {
        assert(is_digit(t[0]));
    }
}

/// Reads `s` as an `i32` the way `str::parse` does.
pub fn parse_i32_text(s: &str) -> (r: Option<i32>)
    ensures
        r matches Some(n) ==> parsed_i32(s@) == Some(n as int),
        r is None ==> parsed_i32(s@) is None,
{
    let cs = chars_of(s);
    let signed = cs.len() > 1 && (cs[0] == '+' || cs[0] == '-');
    let negative = signed && cs[0] == '-';
    let digits: Vec<char> = if signed {
        let mut d: Vec<char> = Vec::new();
        let mut k: usize = 1;
        while k < cs.len()
            invariant
                1 <= k <= cs@.len(),
                d@ == cs@.subrange(1, k as int),
            decreases cs@.len() - k,
        {
            d.push(cs[k]);
            k = k + 1;
            assert(d@ =~= cs@.subrange(1, k as int));
        }
        assert(d@ =~= s@.drop_first());
        d
    } else {
        cs
    };
    match parse_u64_digits(&digits) {
        Some(n) => {
            if negative {
                if n <= 0x8000_0000 {
                    Some((0i64 - (n as i64)) as i32)
                } else {
                    None
                }
            } else if n <= 0x7fff_ffff {
                Some(n as i32)
            } else {
                None
            }
        },
        None => None,
    }
}

/// A `u64` as `str::parse` reads one: decimal digits, optionally after a
/// `+`; nothing else, and nothing past `u64::MAX`.
pub open spec fn parsed_u64(s: Seq<char>) -> Option<nat> {
    let digits = if s.len() > 1 && s[0] == '+' {
        s.drop_first()
    } else {
        s
    };
    if digits.len() > 0 && all_digits(digits) && digits_value(digits) <= u64::MAX {
        Some(digits_value(digits))
    } else {
        None
    }
}

/// Reads `s` as a `u64` the way `str::parse` does.
pub fn parse_u64_text(s: &str) -> (r: Option<u64>)
    ensures
        r matches Some(n) ==> parsed_u64(s@) == Some(n as nat),
        r is None ==> parsed_u64(s@) is None,
{
    let cs = chars_of(s);
    if cs.len() > 1 && cs[0] == '+' {
        let mut d: Vec<char> = Vec::new();
        let mut k: usize = 1;
        while k < cs.len()
            invariant
                1 <= k <= cs@.len(),
                d@ == cs@.subrange(1, k as int),
            decreases cs@.len() - k,
        {
            d.push(cs[k]);
            k = k + 1;
            assert(d@ =~= cs@.subrange(1, k as int));
        }
        assert(d@ =~= s@.drop_first());
        parse_u64_digits(&d)
    } else {
        parse_u64_digits(&cs)
    }
}

} // verus!
