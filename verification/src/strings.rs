//! Line splitting, trimming and searching on strings, each stated over the
//! string's characters.

use vstd::prelude::*;

use crate::text::{chars_eq, chars_of};

verus! {

/// Unicode `White_Space`, as `char::is_whitespace` tests it.
pub open spec fn is_whitespace(c: char) -> bool {
    ||| ('\u{9}' <= c && c <= '\u{d}')
    ||| c == ' '
    ||| c == '\u{85}'
    ||| c == '\u{a0}'
    ||| c == '\u{1680}'
    ||| ('\u{2000}' <= c && c <= '\u{200a}')
    ||| c == '\u{2028}'
    ||| c == '\u{2029}'
    ||| c == '\u{202f}'
    ||| c == '\u{205f}'
    ||| c == '\u{3000}'
}

pub fn char_is_whitespace(c: char) -> (b: bool)
    ensures
        b == is_whitespace(c),
{
    ('\u{9}' <= c && c <= '\u{d}') || c == ' ' || c == '\u{85}' || c == '\u{a0}' || c == '\u{1680}'
        || ('\u{2000}' <= c && c <= '\u{200a}') || c == '\u{2028}' || c == '\u{2029}' || c
        == '\u{202f}' || c == '\u{205f}' || c == '\u{3000}'
}

pub open spec fn is_ascii_digit(c: char) -> bool {
    '0' <= c && c <= '9'
}

pub open spec fn is_ascii_alphabetic(c: char) -> bool {
    ('a' <= c && c <= 'z') || ('A' <= c && c <= 'Z')
}

pub open spec fn is_ascii_alphanumeric(c: char) -> bool {
    is_ascii_digit(c) || is_ascii_alphabetic(c)
}

pub fn char_is_ascii_digit(c: char) -> (b: bool)
    ensures
        b == is_ascii_digit(c),
{
    '0' <= c && c <= '9'
}

pub fn char_is_ascii_alphabetic(c: char) -> (b: bool)
    ensures
        b == is_ascii_alphabetic(c),
{
    ('a' <= c && c <= 'z') || ('A' <= c && c <= 'Z')
}

pub fn char_is_ascii_alphanumeric(c: char) -> (b: bool)
    ensures
        b == is_ascii_alphanumeric(c),
{
    char_is_ascii_digit(c) || char_is_ascii_alphabetic(c)
}

/// How many whitespace characters `s` starts with.
pub open spec fn leading_ws(s: Seq<char>) -> nat
    decreases s.len(),
{
    if s.len() > 0 && is_whitespace(s[0]) {
        1 + leading_ws(s.drop_first())
    } else {
        0
    }
}

/// How many whitespace characters `s` ends with.
pub open spec fn trailing_ws(s: Seq<char>) -> nat
    decreases s.len(),
{
    if s.len() > 0 && is_whitespace(s.last()) {
        1 + trailing_ws(s.drop_last())
    } else {
        0
    }
}

pub proof fn lemma_leading_ws(s: Seq<char>, k: int)
    requires
        0 <= k <= s.len(),
        forall|i: int| 0 <= i < k ==> is_whitespace(#[trigger] s[i]),
    ensures
        leading_ws(s) == k + leading_ws(s.skip(k)),
        leading_ws(s) <= s.len(),
    decreases k,
{
    if k > 0 {
        assert forall|i: int| 0 <= i < k - 1 implies is_whitespace(#[trigger] s.drop_first()[i]) by {
            assert(s.drop_first()[i] == s[i + 1]);
        }
        lemma_leading_ws(s.drop_first(), k - 1);
        assert(s.drop_first().skip(k - 1) == s.skip(k));
    } else {
        assert(s.skip(0) == s);
        lemma_leading_ws_bound(s);
    }
}

pub proof fn lemma_leading_ws_bound(s: Seq<char>)
    ensures
        leading_ws(s) <= s.len(),
    decreases s.len(),
{
    if s.len() > 0 && is_whitespace(s[0]) {
        lemma_leading_ws_bound(s.drop_first());
    }
}

pub proof fn lemma_trailing_ws(s: Seq<char>, k: int)
    requires
        0 <= k <= s.len(),
        forall|i: int| s.len() - k <= i < s.len() ==> is_whitespace(#[trigger] s[i]),
    ensures
        trailing_ws(s) == k + trailing_ws(s.take(s.len() - k)),
    decreases k,
{
    if k > 0 {
        assert forall|i: int| s.len() - k <= i < s.len() - 1 implies is_whitespace(#[trigger] s.drop_last()[i]) by {
            assert(s.drop_last()[i] == s[i]);
        }
        lemma_trailing_ws(s.drop_last(), k - 1);
        assert(s.drop_last().take(s.len() - k) == s.take(s.len() - k));
    } else {
        assert(s.take(s.len() as int) == s);
    }
}

/// `s` without its leading and trailing whitespace, as `str::trim` leaves it.
pub open spec fn trimmed(s: Seq<char>) -> Seq<char> {
    let front = s.skip(leading_ws(s) as int);
    front.take(front.len() - trailing_ws(front))
}

pub proof fn lemma_trailing_ws_bound(s: Seq<char>)
    ensures
        trailing_ws(s) <= s.len(),
    decreases s.len(),
{
    if s.len() > 0 && is_whitespace(s.last()) {
        lemma_trailing_ws_bound(s.drop_last());
    }
}

/// `s` without its leading and trailing whitespace.
pub fn trim(s: &str) -> (r: &str)
    ensures
        r@ == trimmed(s@),
{
    let cs = chars_of(s);
    let n = cs.len();
    let mut a: usize = 0;
    while a < n && char_is_whitespace(cs[a])
        invariant
            a <= n,
            n == cs@.len(),
            cs@ == s@,
            forall|i: int| 0 <= i < a ==> is_whitespace(#[trigger] s@[i]),
        decreases n - a,
    {
        a = a + 1;
    }
    proof {
        lemma_leading_ws(s@, a as int);
        if a < n {
            assert(s@.skip(a as int)[0] == s@[a as int]);
        }
    }
    let ghost front = s@.skip(a as int);
    let mut b: usize = n;
    while b > a && char_is_whitespace(cs[b - 1])
        invariant
            a <= b <= n,
            n == cs@.len(),
            cs@ == s@,
            front == s@.skip(a as int),
            forall|i: int| b <= i < n ==> is_whitespace(#[trigger] s@[i]),
        decreases b,
    {
        b = b - 1;
    }
    proof {
        assert forall|i: int| front.len() - (n - b) <= i < front.len() implies is_whitespace(#[trigger] front[i]) by {
            assert(front[i] == s@[i + a]);
        }
        lemma_trailing_ws(front, (n - b) as int);
        let rest = front.take(front.len() - (n - b));
        if rest.len() > 0 {
            assert(rest.last() == s@[b - 1]);
        }
    }
    s.substring_char(a, b)
}

/// Whether `needle` occurs in `hay` at `at`.
pub open spec fn occurs_at(hay: Seq<char>, needle: Seq<char>, at: int) -> bool {
    0 <= at && at + needle.len() <= hay.len() && hay.subrange(at, at + needle.len()) == needle
}

pub open spec fn contains_text(hay: Seq<char>, needle: Seq<char>) -> bool {
    exists|at: int| occurs_at(hay, needle, at)
}

pub open spec fn starts_with(s: Seq<char>, p: Seq<char>) -> bool {
    p.len() <= s.len() && s.take(p.len() as int) == p
}

pub open spec fn ends_with(s: Seq<char>, p: Seq<char>) -> bool {
    p.len() <= s.len() && s.skip(s.len() - p.len()) == p
}

/// Whether `needle` occurs in `hay` at `at`.
pub fn occurs_at_exec(hay: &Vec<char>, needle: &Vec<char>, at: usize) -> (b: bool)
    ensures
        b == occurs_at(hay@, needle@, at as int),
{
    let hl = hay.len();
    if at > hl || needle.len() > hl - at {
        return false;
    }
    let mut k: usize = 0;
    while k < needle.len()
        invariant
            hl == hay@.len(),
            at + needle@.len() <= hay@.len(),
            k <= needle@.len(),
            forall|i: int| 0 <= i < k ==> hay@[at + i] == needle@[i],
        decreases needle@.len() - k,
    {
        if hay[at + k] != needle[k] {
            assert(hay@.subrange(at as int, at + needle@.len())[k as int] != needle@[k as int]);
            return false;
        }
        k = k + 1;
    }
    assert(hay@.subrange(at as int, at + needle@.len()) =~= needle@);
    true
}

/// The first position at or after `from` where `needle` occurs in `hay`.
pub fn find_from(hay: &Vec<char>, needle: &Vec<char>, from: usize) -> (r: Option<usize>)
    ensures
        match r {
            Some(at) => from <= at && occurs_at(hay@, needle@, at as int) && forall|j: int|
                from <= j < at ==> !occurs_at(hay@, needle@, j),
            None => forall|j: int| from <= j ==> !occurs_at(hay@, needle@, j),
        },
{
    let hl = hay.len();
    if from > hl {
        return None;
    }
    let mut at = from;
    while at < hl
        invariant
            hl == hay@.len(),
            from <= at <= hl,
            forall|j: int| from <= j < at ==> !occurs_at(hay@, needle@, j),
        decreases hl - at,
    {
        if occurs_at_exec(hay, needle, at) {
            return Some(at);
        }
        at = at + 1;
    }
    if occurs_at_exec(hay, needle, hl) {
        return Some(hl);
    }
    None
}

/// Whether `needle` occurs anywhere in `hay`.
pub fn contains(hay: &str, needle: &str) -> (b: bool)
    ensures
        b == contains_text(hay@, needle@),
{
    let h = chars_of(hay);
    let n = chars_of(needle);
    match find_from(&h, &n, 0) {
        Some(_) => true,
        None => false,
    }
}

/// Whether `s` starts with `p`.
pub fn starts_with_text(s: &str, p: &str) -> (b: bool)
    ensures
        b == starts_with(s@, p@),
{
    let h = chars_of(s);
    let n = chars_of(p);
    let b = occurs_at_exec(&h, &n, 0);
    proof {
        if n@.len() <= h@.len() {
            assert(h@.subrange(0, n@.len() as int) == h@.take(n@.len() as int));
        }
    }
    b
}

/// Whether `s` ends with `p`.
pub fn ends_with_text(s: &str, p: &str) -> (b: bool)
    ensures
        b == ends_with(s@, p@),
{
    let h = chars_of(s);
    let n = chars_of(p);
    if n.len() > h.len() {
        return false;
    }
    let b = occurs_at_exec(&h, &n, h.len() - n.len());
    proof {
        assert(h@.subrange(h@.len() - n@.len(), h@.len() as int) == h@.skip(h@.len() - n@.len()));
    }
    b
}

/// The first `\n` in `s`, if any.
pub open spec fn first_newline(s: Seq<char>) -> int
    decreases s.len(),
{
    if s.len() == 0 {
        -1
    } else if s[0] == '\n' {
        0
    } else if first_newline(s.drop_first()) < 0 {
        -1
    } else {
        1 + first_newline(s.drop_first())
    }
}

/// A line without the `\r` of a `\r\n` ending.
pub open spec fn strip_cr(line: Seq<char>) -> Seq<char> {
    if line.len() > 0 && line.last() == '\r' {
        line.drop_last()
    } else {
        line
    }
}

/// The lines of `s` as `str::lines` splits it: at each `\n`, with a `\r`
/// before it dropped, and no empty line after a final `\n`.
pub open spec fn lines_of(s: Seq<char>) -> Seq<Seq<char>>
    decreases s.len(),
{
    let i = first_newline(s);
    if s.len() == 0 {
        seq![]
    } else if i < 0 {
        seq![s]
    } else {
        proof {
            lemma_first_newline_bound(s);
        }
        seq![strip_cr(s.take(i))] + lines_of(s.skip(i + 1))
    }
}

pub proof fn lemma_first_newline_bound(s: Seq<char>)
    ensures
        -1 <= first_newline(s) < s.len(),
        first_newline(s) >= 0 ==> s[first_newline(s)] == '\n',
    decreases s.len(),
{
    if s.len() > 0 && s[0] != '\n' {
        lemma_first_newline_bound(s.drop_first());
    }
}

pub proof fn lemma_first_newline(s: Seq<char>, k: int)
    requires
        0 <= k <= s.len(),
        forall|j: int| 0 <= j < k ==> s[j] != '\n',
    ensures
        k < s.len() && s[k] == '\n' ==> first_newline(s) == k,
        k == s.len() ==> first_newline(s) == -1,
    decreases k,
{
    if k > 0 {
        assert forall|j: int| 0 <= j < k - 1 implies s.drop_first()[j] != '\n' by {
            assert(s.drop_first()[j] == s[j + 1]);
        }
        lemma_first_newline(s.drop_first(), k - 1);
        if k < s.len() {
            assert(s.drop_first()[k - 1] == s[k]);
        }
    }
}

pub open spec fn str_views<'a>(v: Seq<&'a str>) -> Seq<Seq<char>> {
    v.map_values(|x: &'a str| x@)
}

/// The lines of `s`, as `str::lines` splits it.
pub fn lines(s: &str) -> (r: Vec<&str>)
    ensures
        str_views(r@) == lines_of(s@),
{
    let cs = chars_of(s);
    let n = cs.len();
    let mut r: Vec<&str> = Vec::new();
    let mut start: usize = 0;
    assert(s@.skip(0) == s@);
    while start < n
        invariant
            start <= n,
            n == s@.len(),
            cs@ == s@,
            str_views(r@) + lines_of(s@.skip(start as int)) == lines_of(s@),
        decreases n - start,
    {
        let ghost rest = s@.skip(start as int);
        let mut end = start;
        while end < n && cs[end] != '\n'
            invariant
                start <= end <= n,
                n == s@.len(),
                cs@ == s@,
                forall|j: int| start <= j < end ==> s@[j] != '\n',
            decreases n - end,
        {
            end = end + 1;
        }
        proof {
            assert forall|j: int| 0 <= j < end - start implies rest[j] != '\n' by {
                assert(rest[j] == s@[start + j]);
            }
            if end < n {
                assert(rest[end - start] == s@[end as int]);
            }
            lemma_first_newline(rest, end - start);
        }
        let mut line_end = end;
        if end < n && end > start && cs[end - 1] == '\r' {
            line_end = end - 1;
        }
        let line = s.substring_char(start, line_end);
        let ghost before = str_views(r@);
        r.push(line);
        proof {
            assert(str_views(r@) == before.push(line@));
            assert(rest.take(end - start) =~= s@.subrange(start as int, end as int));
            if end < n {
                assert(line@ == strip_cr(rest.take(end - start)));
                assert(rest.skip(end - start + 1) == s@.skip(end + 1));
                assert(lines_of(rest) == seq![line@] + lines_of(s@.skip(end + 1)));
            } else {
                assert(line@ == rest);
                assert(lines_of(rest) == seq![line@]);
                assert(s@.skip(n as int) =~= Seq::<char>::empty());
            }
        }
        if end < n {
            start = end + 1;
            assert(str_views(r@) + lines_of(s@.skip(start as int)) =~= lines_of(s@));
        } else {
            start = n;
            assert(lines_of(s@.skip(start as int)) =~= Seq::<Seq<char>>::empty());
            assert(str_views(r@) + lines_of(s@.skip(start as int)) =~= lines_of(s@));
        }
    }
    assert(s@.skip(start as int) =~= Seq::<char>::empty());
    assert(str_views(r@) + Seq::<Seq<char>>::empty() == str_views(r@));
    r
}

/// Joins the texts with `sep` between them.
pub open spec fn joined(parts: Seq<Seq<char>>, sep: Seq<char>) -> Seq<char>
    decreases parts.len(),
{
    if parts.len() == 0 {
        seq![]
    } else if parts.len() == 1 {
        parts[0]
    } else {
        joined(parts.drop_last(), sep) + sep + parts.last()
    }
}

/// Appends every character of `t` to `s`.
pub fn push_str(s: &mut String, t: &str)
    ensures
        final(s)@ == old(s)@ + t@,
{
    let cs = chars_of(t);
    crate::text::push_chars(s, &cs);
}

} // verus!
