//! Diffs of two system-closure snapshots: which packages changed, came or
//! went, with each package's versions counted.

use vstd::prelude::*;

use crate::strings::{contains, contains_text, push_str};
use crate::text::{Order, all_digits, chars_of, digits_value, lex_order, parse_u64_digits, str_eq, str_order};

verus! {

/// Whether `char::is_numeric` holds of a character.
pub uninterp spec fn unicode_numeric(c: char) -> bool;

/// `char::is_numeric`: whether the character's general category is one for
/// numbers. The contract names the result and says nothing more.
#[verifier::external_body]
fn char_is_numeric(c: char) -> (b: bool)
    ensures
        b == unicode_numeric(c),
{
    c.is_numeric()
}

/// One part of a version: a number or a run of other characters.
pub enum PartView {
    Num(nat),
    Str(Seq<char>),
}

/// Where a version's scan stands: the pending run of numeric and of other
/// characters, and the parts so far.
pub struct ScanState {
    pub num: Seq<char>,
    pub text: Seq<char>,
    pub parts: Seq<PartView>,
}

/// The pending number as a part: kept when it is ASCII digits worth at most
/// `u64::MAX`, dropped otherwise.
pub open spec fn flush_num(st: ScanState) -> ScanState {
    if st.num.len() == 0 {
        st
    } else if all_digits(st.num) && digits_value(st.num) <= u64::MAX {
        ScanState { num: seq![], parts: st.parts.push(PartView::Num(digits_value(st.num))), ..st }
    } else {
        ScanState { num: seq![], ..st }
    }
}

pub open spec fn flush_text(st: ScanState) -> ScanState {
    if st.text.len() == 0 {
        st
    } else {
        ScanState { text: seq![], parts: st.parts.push(PartView::Str(st.text)), ..st }
    }
}

/// One character of a version: numeric characters gather into numbers, `.`,
/// `-` and `_` separate, anything else gathers into text.
pub open spec fn scan_char(st: ScanState, c: char) -> ScanState {
    if unicode_numeric(c) {
        let st = flush_text(st);
        ScanState { num: st.num.push(c), ..st }
    } else if c == '.' || c == '-' || c == '_' {
        flush_text(flush_num(st))
    } else {
        let st = flush_num(st);
        ScanState { text: st.text.push(c), ..st }
    }
}

pub open spec fn scan_chars(s: Seq<char>) -> ScanState
    decreases s.len(),
{
    if s.len() == 0 {
        ScanState { num: seq![], text: seq![], parts: seq![] }
    } else {
        scan_char(scan_chars(s.drop_last()), s.last())
    }
}

/// The parts of a version, in order.
pub open spec fn version_parts(s: Seq<char>) -> Seq<PartView> {
    flush_text(flush_num(scan_chars(s))).parts
}

/// Numbers before text; numbers by value, text by code points.
pub open spec fn part_order(a: PartView, b: PartView) -> Order {
    match (a, b) {
        (PartView::Num(x), PartView::Num(y)) => crate::text::int_order(x as int, y as int),
        (PartView::Num(_), PartView::Str(_)) => Order::Less,
        (PartView::Str(_), PartView::Num(_)) => Order::Greater,
        (PartView::Str(x), PartView::Str(y)) => lex_order(x, y),
    }
}

/// Lexicographic order of part lists.
pub open spec fn parts_order(a: Seq<PartView>, b: Seq<PartView>) -> Order
    decreases a.len(),
{
    if a.len() == 0 {
        if b.len() == 0 {
            Order::Equal
        } else {
            Order::Less
        }
    } else if b.len() == 0 {
        Order::Greater
    } else if part_order(a[0], b[0]) != Order::Equal {
        part_order(a[0], b[0])
    } else {
        parts_order(a.drop_first(), b.drop_first())
    }
}

pub open spec fn versions_order(a: Seq<char>, b: Seq<char>) -> Order {
    parts_order(version_parts(a), version_parts(b))
}

proof fn lemma_parts_order_converse(a: Seq<PartView>, b: Seq<PartView>)
    ensures
        parts_order(b, a) == crate::text::reverse_order(parts_order(a, b)),
    decreases a.len(),
{
    if a.len() > 0 && b.len() > 0 {
        match (a[0], b[0]) {
            (PartView::Str(x), PartView::Str(y)) => {
                crate::text::lemma_lex_order_antisymmetric(x, y);
            },
            _ => {},
        }
        lemma_parts_order_converse(a.drop_first(), b.drop_first());
    }
}

/// Comparing two closure versions the other way round gives the opposite
/// answer, and a version is equal to itself.
pub proof fn law_versions_order_converse(a: Seq<char>, b: Seq<char>)
    ensures
        versions_order(b, a) == crate::text::reverse_order(versions_order(a, b)),
        versions_order(a, a) == Order::Equal,
{
    lemma_parts_order_converse(version_parts(a), version_parts(b));
    lemma_parts_order_converse(version_parts(a), version_parts(a));
}

/// A version whose parts run on past all the parts of another orders above
/// it: `1.0` is below `1.0.1`, whatever follows.
pub proof fn law_prefix_orders_below(a: Seq<PartView>, extra: Seq<PartView>)
    requires
        extra.len() > 0,
    ensures
        parts_order(a, a + extra) == Order::Less,
        parts_order(a + extra, a) == Order::Greater,
    decreases a.len(),
{
    if a.len() == 0 {
        assert(a + extra =~= extra);
    } else {
        match a[0] {
            PartView::Str(x) => {
                crate::text::lemma_lex_order_antisymmetric(x, x);
            },
            _ => {},
        }
        assert((a + extra)[0] == a[0]);
        assert((a + extra).drop_first() =~= a.drop_first() + extra);
        law_prefix_orders_below(a.drop_first(), extra);
    }
}

/// The same for version texts: when the parts of `b` are those of `a` with
/// more after them, `a` orders below `b`.
pub proof fn law_longer_version_orders_above(a: Seq<char>, b: Seq<char>, extra: Seq<PartView>)
    requires
        extra.len() > 0,
        version_parts(b) == version_parts(a) + extra,
    ensures
        versions_order(a, b) == Order::Less,
        versions_order(b, a) == Order::Greater,
{
    law_prefix_orders_below(version_parts(a), extra);
}

/// A part of a version.
pub enum Part {
    Num(u64),
    Str(Vec<char>),
}

pub open spec fn part_view(p: Part) -> PartView {
    match p {
        Part::Num(n) => PartView::Num(n as nat),
        Part::Str(s) => PartView::Str(s@),
    }
}

pub open spec fn part_views(ps: Seq<Part>) -> Seq<PartView> {
    ps.map_values(|p: Part| part_view(p))
}

fn flush_num_exec(num: &mut Vec<char>, parts: &mut Vec<Part>, text: &Vec<char>)
    ensures
        ({
            let st = flush_num(ScanState { num: old(num)@, text: text@, parts: part_views(old(parts)@) });
            final(num)@ == st.num && part_views(final(parts)@) == st.parts
        }),
{
    if num.len() > 0 {
        match parse_u64_digits(num) {
            Some(n) => {
                let ghost p0 = part_views(parts@);
                parts.push(Part::Num(n));
                assert(part_views(parts@) =~= p0.push(PartView::Num(n as nat)));
            },
            None => {},
        }
        *num = Vec::new();
    }
}

fn flush_text_exec(text: &mut Vec<char>, parts: &mut Vec<Part>, num: &Vec<char>)
    ensures
        ({
            let st = flush_text(ScanState { num: num@, text: old(text)@, parts: part_views(old(parts)@) });
            final(text)@ == st.text && part_views(final(parts)@) == st.parts
        }),
{
    if text.len() > 0 {
        let ghost p0 = part_views(parts@);
        let ghost t0 = text@;
        let mut t: Vec<char> = Vec::new();
        std::mem::swap(&mut t, text);
        parts.push(Part::Str(t));
        assert(part_views(parts@) =~= p0.push(PartView::Str(t0)));
    }
}

/// The parts of a version string.
pub fn parse_parts(s: &str) -> (parts: Vec<Part>)
    ensures
        part_views(parts@) == version_parts(s@),
{
    let cs = chars_of(s);
    let mut num: Vec<char> = Vec::new();
    let mut text: Vec<char> = Vec::new();
    let mut parts: Vec<Part> = Vec::new();
    let mut i: usize = 0;
    assert(part_views(parts@) =~= seq![]);
    while i < cs.len()
        invariant
            i <= cs@.len(),
            cs@ == s@,
            scan_chars(s@.take(i as int)) == (ScanState { num: num@, text: text@, parts: part_views(parts@) }),
        decreases cs@.len() - i,
    {
        let c = cs[i];
        assert(s@.take(i + 1).drop_last() == s@.take(i as int));
        assert(s@.take(i + 1).last() == c);
        if char_is_numeric(c) {
            flush_text_exec(&mut text, &mut parts, &num);
            num.push(c);
        } else if c == '.' || c == '-' || c == '_' {
            flush_num_exec(&mut num, &mut parts, &text);
            flush_text_exec(&mut text, &mut parts, &num);
        } else {
            flush_num_exec(&mut num, &mut parts, &text);
            text.push(c);
        }
        i = i + 1;
    }
    assert(s@.take(cs@.len() as int) == s@);
    flush_num_exec(&mut num, &mut parts, &text);
    flush_text_exec(&mut text, &mut parts, &num);
    parts
}

fn compare_part(a: &Part, b: &Part) -> (o: Order)
    ensures
        o == part_order(part_view(*a), part_view(*b)),
{
    match (a, b) {
        (Part::Num(x), Part::Num(y)) => if *x < *y {
            Order::Less
        } else if *x == *y {
            Order::Equal
        } else {
            Order::Greater
        },
        (Part::Num(_), Part::Str(_)) => Order::Less,
        (Part::Str(_), Part::Num(_)) => Order::Greater,
        (Part::Str(x), Part::Str(y)) => crate::text::chars_order(x, y),
    }
}

/// Compares two version strings part by part: numbers by value and before
/// text, text by code points, a version that runs out first coming first.
pub fn compare_versions(a: &str, b: &str) -> (o: Order)
    ensures
        o == versions_order(a@, b@),
{
    let x = parse_parts(a);
    let y = parse_parts(b);
    let ghost xv = part_views(x@);
    let ghost yv = part_views(y@);
    let mut i: usize = 0;
    assert(xv.skip(0) == xv && yv.skip(0) == yv);
    while i < x.len() && i < y.len()
        invariant
            i <= x@.len(),
            i <= y@.len(),
            xv == part_views(x@),
            yv == part_views(y@),
            xv == version_parts(a@),
            yv == version_parts(b@),
            parts_order(xv, yv) == parts_order(xv.skip(i as int), yv.skip(i as int)),
        decreases x@.len() - i,
    {
        assert(xv.skip(i as int)[0] == part_view(x@[i as int]));
        assert(yv.skip(i as int)[0] == part_view(y@[i as int]));
        let o = compare_part(&x[i], &y[i]);
        if o != Order::Equal {
            assert(xv.skip(i as int).len() > 0 && yv.skip(i as int).len() > 0);
            assert(parts_order(xv.skip(i as int), yv.skip(i as int)) == o);
            assert(parts_order(xv, yv) == o);
            assert(xv == version_parts(a@));
            assert(yv == version_parts(b@));
            return o;
        }
        assert(xv.skip(i as int).drop_first() == xv.skip(i + 1));
        assert(yv.skip(i as int).drop_first() == yv.skip(i + 1));
        i = i + 1;
    }
    if i < x.len() {
        Order::Greater
    } else if i < y.len() {
        Order::Less
    } else {
        Order::Equal
    }
}

/// The direction of a changed package.
#[derive(Debug, Clone, Copy, PartialEq, Eq, Structural)]
pub enum ChangeStatus {
    Upgraded,
    Downgraded,
    UpgradeDowngrade,
}

impl ChangeStatus {
    pub fn symbol(self) -> (c: char)
        ensures
            c == match self {
                ChangeStatus::Upgraded => 'U',
                ChangeStatus::Downgraded => 'D',
                ChangeStatus::UpgradeDowngrade => 'C',
            },
    {
        match self {
            ChangeStatus::Upgraded => 'U',
            ChangeStatus::Downgraded => 'D',
            ChangeStatus::UpgradeDowngrade => 'C',
        }
    }
}

pub open spec fn text_views(v: Seq<String>) -> Seq<Seq<char>> {
    v.map_values(|s: String| s@)
}

/// The direction of a change from the versions only the old closure has to
/// those only the new one has: with one side empty, mixed; otherwise by the
/// pairs of an old and a new version, upward, downward or both.
pub open spec fn change_from_unique(old_only: Seq<Seq<char>>, new_only: Seq<Seq<char>>) -> ChangeStatus {
    if old_only.len() == 0 || new_only.len() == 0 {
        ChangeStatus::UpgradeDowngrade
    } else {
        let up = exists|i: int, j: int|
            0 <= i < old_only.len() && 0 <= j < new_only.len() && versions_order(old_only[i], new_only[j])
                == Order::Less;
        let down = exists|i: int, j: int|
            0 <= i < old_only.len() && 0 <= j < new_only.len() && versions_order(old_only[i], new_only[j])
                == Order::Greater;
        if up && !down {
            ChangeStatus::Upgraded
        } else if down && !up {
            ChangeStatus::Downgraded
        } else {
            ChangeStatus::UpgradeDowngrade
        }
    }
}

/// The direction of a change from the versions unique to each side.
pub fn determine_change_status_from_unique(unique_old: &[String], unique_new: &[String], has_common: bool) -> (s:
    ChangeStatus)
    ensures
        s == change_from_unique(text_views(unique_old@), text_views(unique_new@)),
{
    let ghost ov = text_views(unique_old@);
    let ghost nv = text_views(unique_new@);
    if unique_old.len() == 0 || unique_new.len() == 0 {
        return ChangeStatus::UpgradeDowngrade;
    }
    let mut up = false;
    let mut down = false;
    let mut i: usize = 0;
    while i < unique_old.len()
        invariant
            i <= unique_old@.len(),
            ov == text_views(unique_old@),
            nv == text_views(unique_new@),
            unique_new@.len() > 0,
            up ==> exists|a: int, b: int|
                0 <= a < ov.len() && 0 <= b < nv.len() && versions_order(ov[a], nv[b]) == Order::Less,
            down ==> exists|a: int, b: int|
                0 <= a < ov.len() && 0 <= b < nv.len() && versions_order(ov[a], nv[b]) == Order::Greater,
            forall|a: int, b: int|
                0 <= a < i && 0 <= b < nv.len() ==> #[trigger] versions_order(ov[a], nv[b]) != Order::Less
                    || up,
            forall|a: int, b: int|
                0 <= a < i && 0 <= b < nv.len() ==> #[trigger] versions_order(ov[a], nv[b]) != Order::Greater
                    || down,
        decreases unique_old@.len() - i,
    {
        let mut j: usize = 0;
        while j < unique_new.len()
            invariant
                i < unique_old@.len(),
                j <= unique_new@.len(),
                ov == text_views(unique_old@),
                nv == text_views(unique_new@),
                up ==> exists|a: int, b: int|
                    0 <= a < ov.len() && 0 <= b < nv.len() && versions_order(ov[a], nv[b]) == Order::Less,
                down ==> exists|a: int, b: int|
                    0 <= a < ov.len() && 0 <= b < nv.len() && versions_order(ov[a], nv[b]) == Order::Greater,
                forall|a: int, b: int|
                    (0 <= a < i && 0 <= b < nv.len()) || (a == i && 0 <= b < j) ==> #[trigger] versions_order(
                        ov[a],
                        nv[b],
                    ) != Order::Less || up,
                forall|a: int, b: int|
                    (0 <= a < i && 0 <= b < nv.len()) || (a == i && 0 <= b < j) ==> #[trigger] versions_order(
                        ov[a],
                        nv[b],
                    ) != Order::Greater || down,
            decreases unique_new@.len() - j,
        {
            let o = compare_versions(unique_old[i].as_str(), unique_new[j].as_str());
            assert(ov[i as int] == unique_old@[i as int]@ && nv[j as int] == unique_new@[j as int]@);
            match o {
                Order::Less => {
                    up = true;
                },
                Order::Greater => {
                    down = true;
                },
                Order::Equal => {},
            }
            if up && down {
                return ChangeStatus::UpgradeDowngrade;
            }
            j = j + 1;
        }
        i = i + 1;
    }
    if up && !down {
        ChangeStatus::Upgraded
    } else if down && !up {
        ChangeStatus::Downgraded
    } else {
        ChangeStatus::UpgradeDowngrade
    }
}

/// A version with how many times the closure holds it.
#[derive(Debug, Clone)]
pub struct VersionWithCount {
    pub version: String,
    pub count: usize,
}

pub open spec fn counted_views(v: Seq<VersionWithCount>) -> Seq<(Seq<char>, nat)> {
    v.map_values(|x: VersionWithCount| (x.version@, x.count as nat))
}

/// One entry of a version list: the version, and ` ×n` for a count above one.
pub open spec fn counted_text(v: (Seq<char>, nat)) -> Seq<char> {
    v.0 + if v.1 > 1 {
        " \u{d7}"@ + crate::text::decimal(v.1)
    } else {
        seq![]
    }
}

/// The first two versions, then `<others>` for any more.
pub open spec fn listed(v: Seq<(Seq<char>, nat)>) -> Seq<char>
    decreases v.len(),
{
    if v.len() == 0 {
        seq![]
    } else if v.len() == 1 {
        counted_text(v[0])
    } else if v.len() == 2 {
        counted_text(v[0]) + ", "@ + counted_text(v[1])
    } else {
        counted_text(v[0]) + ", "@ + counted_text(v[1]) + ", <others>"@
    }
}

/// A package's versions as shown: the first two, `<others>` for more or for
/// versions both closures share, commas between.
pub open spec fn versions_text(v: Seq<(Seq<char>, nat)>, has_common: bool) -> Seq<char> {
    let r = listed(v);
    if has_common && !contains_text(r, "<others>"@) {
        if r.len() > 0 {
            r + ", <others>"@
        } else {
            "<others>"@
        }
    } else {
        r
    }
}

fn push_counted(s: &mut String, v: &VersionWithCount)
    ensures
        final(s)@ == old(s)@ + counted_text((v.version@, v.count as nat)),
{
    push_str(s, v.version.as_str());
    if v.count > 1 {
        push_str(s, " \u{d7}");
        let n = crate::text::usize_to_decimal(v.count);
        push_str(s, n.as_str());
    }
}

/// Shows a package's versions: the first two with their counts, then
/// `<others>` for any more, and `<others>` too when the closures share
/// versions.
pub fn format_versions_with_counts(versions: &[VersionWithCount], has_common: bool) -> (s: String)
    ensures
        s@ == versions_text(counted_views(versions@), has_common),
{
    let ghost v = counted_views(versions@);
    let mut result = String::new();
    let n = versions.len();
    if n >= 1 {
        assert(v[0] == (versions@[0].version@, versions@[0].count as nat));
        push_counted(&mut result, &versions[0]);
    }
    if n >= 2 {
        assert(v[1] == (versions@[1].version@, versions@[1].count as nat));
        push_str(&mut result, ", ");
        push_counted(&mut result, &versions[1]);
    }
    if n >= 3 {
        push_str(&mut result, ", <others>");
    }
    assert(result@ == listed(v));
    if has_common && !contains(result.as_str(), "<others>") {
        if result.unicode_len() > 0 {
            push_str(&mut result, ", <others>");
        } else {
            push_str(&mut result, "<others>");
        }
    }
    result
}


/// `s` without trailing `/`s.
pub open spec fn without_trailing_slashes(s: Seq<char>) -> Seq<char>
    decreases s.len(),
{
    if s.len() > 0 && s.last() == '/' {
        without_trailing_slashes(s.drop_last())
    } else {
        s
    }
}

/// The final component of a path, as `Path::file_name` gives it: none for a
/// path ending in `..` or without components; `.` components do not count.
pub open spec fn file_name_of(s: Seq<char>) -> Option<Seq<char>>
    decreases s.len(),
{
    let t = without_trailing_slashes(s);
    let last = crate::changelog::last_segment(t);
    if t.len() == 0 {
        None
    } else if last == "."@ {
        proof {
            lemma_without_trailing_slashes_len(s);
            lemma_last_segment_len(t);
            reveal_strlit(".");
        }
        file_name_of(t.take(t.len() - 1))
    } else if last == ".."@ {
        None
    } else {
        Some(last)
    }
}

pub proof fn lemma_without_trailing_slashes_len(s: Seq<char>)
    ensures
        without_trailing_slashes(s).len() <= s.len(),
        without_trailing_slashes(s) == s.take(without_trailing_slashes(s).len() as int),
        without_trailing_slashes(s).len() > 0 ==> without_trailing_slashes(s).last() != '/',
    decreases s.len(),
{
    if s.len() > 0 && s.last() == '/' {
        lemma_without_trailing_slashes_len(s.drop_last());
        assert(s.drop_last().take(without_trailing_slashes(s).len() as int) == s.take(
            without_trailing_slashes(s).len() as int,
        ));
    } else {
        assert(s.take(s.len() as int) == s);
    }
}

pub proof fn lemma_last_segment_len(s: Seq<char>)
    ensures
        crate::changelog::last_segment(s).len() <= s.len(),
        crate::changelog::last_segment(s) == s.skip(s.len() - crate::changelog::last_segment(s).len()),
    decreases s.len(),
{
    if s.len() > 0 && s.last() != '/' {
        lemma_last_segment_len(s.drop_last());
        let l = crate::changelog::last_segment(s.drop_last());
        assert(s.skip(s.len() - l.len() - 1) =~= s.drop_last().skip(s.len() - 1 - l.len()).push(s.last()));
    } else if s.len() > 0 {
        assert(s.skip(s.len() as int) =~= Seq::<char>::empty());
    }
}

/// The final component of a path.
pub fn file_name<'a>(path: &'a str) -> (r: Option<&'a str>)
    ensures
        match r {
            Some(n) => file_name_of(path@) == Some(n@),
            None => file_name_of(path@) is None,
        },
    decreases path@.len(),
{
    let cs = chars_of(path);
    let mut end = cs.len();
    assert(path@.take(end as int) == path@);
    while end > 0 && cs[end - 1] == '/'
        invariant
            end <= cs@.len(),
            cs@ == path@,
            without_trailing_slashes(path@) == without_trailing_slashes(path@.take(end as int)),
        decreases end,
    {
        assert(path@.take(end as int).drop_last() == path@.take(end - 1));
        end = end - 1;
    }
    let t = path.substring_char(0, end);
    assert(t@ == path@.take(end as int));
    assert(without_trailing_slashes(path@) == t@);
    if end == 0 {
        return None;
    }
    let mut start = end;
    assert(t@.take(end as int) == t@);
    assert(t@.skip(end as int) =~= Seq::<char>::empty());
    while start > 0 && cs[start - 1] != '/'
        invariant
            start <= end,
            end <= cs@.len(),
            cs@ == path@,
            t@ == path@.take(end as int),
            crate::changelog::last_segment(t@) == crate::changelog::last_segment(t@.take(start as int))
                + t@.skip(start as int),
        decreases start,
    {
        assert(t@.take(start as int).drop_last() == t@.take(start - 1));
        assert(t@.take(start as int).last() == t@[start - 1]);
        assert(t@.skip(start - 1) == seq![t@[start - 1]] + t@.skip(start as int));
        start = start - 1;
    }
    proof {
        if start > 0 {
            assert(t@.take(start as int).last() == '/');
        }
        assert(crate::changelog::last_segment(t@.take(start as int)) =~= Seq::<char>::empty());
    }
    let last = t.substring_char(start, end);
    assert(last@ =~= crate::changelog::last_segment(t@));
    proof {
        reveal_strlit(".");
        reveal_strlit("..");
    }
    if str_eq(last, ".") {
        proof {
            lemma_without_trailing_slashes_len(path@);
        }
        let shorter = path.substring_char(0, end - 1);
        assert(shorter@ =~= t@.take(t@.len() - 1));
        return file_name(shorter);
    }
    if str_eq(last, "..") {
        return None;
    }
    Some(last)
}

pub type Counts = Seq<(Seq<char>, nat)>;

/// `counts` with one more of `v`.
pub open spec fn bump(counts: Counts, v: Seq<char>) -> Counts {
    let i = key_index(counts, v);
    if i >= 0 {
        counts.update(i, (v, counts[i].1 + 1))
    } else {
        counts.push((v, 1nat))
    }
}

/// Where key `k` is, or -1.
pub open spec fn key_index<V>(s: Seq<(Seq<char>, V)>, k: Seq<char>) -> int
    decreases s.len(),
{
    if s.len() == 0 {
        -1
    } else if key_index(s.drop_last(), k) >= 0 {
        key_index(s.drop_last(), k)
    } else if s.last().0 == k {
        s.len() - 1
    } else {
        -1
    }
}

/// The packages with one more of version `v` of `name`.
pub open spec fn bump_package(pkgs: Seq<(Seq<char>, Counts)>, name: Seq<char>, v: Seq<char>) -> Seq<(Seq<char>, Counts)> {
    let i = key_index(pkgs, name);
    if i >= 0 {
        pkgs.update(i, (name, bump(pkgs[i].1, v)))
    } else {
        pkgs.push((name, seq![(v, 1nat)]))
    }
}

pub open spec fn none_text() -> Seq<char> {
    "<none>"@
}

/// The name after the 33rd byte of a component, read back from its bytes.
pub open spec fn after_hash_bytes(b: Seq<char>) -> Seq<char> {
    vstd::utf8::decode_utf8(vstd::utf8::encode_utf8(b).skip(33))
}

/// Whether a component takes the hash-stripping fallback: longer than 33
/// bytes with a `-` as its 33rd character.
pub open spec fn hash_like(b: Seq<char>) -> bool {
    vstd::utf8::encode_utf8(b).len() > 33 && b.len() > 32 && b[32] == '-'
}

/// The package and version a closure path counts toward: derivations are
/// skipped; a store path gives its name and version (`<none>` without one);
/// any other path counts its last component, less a hash-like prefix, as a
/// package without a version.
pub open spec fn path_entry(p: Seq<char>) -> Option<(Seq<char>, Seq<char>)> {
    if crate::strings::ends_with(p, ".drv"@) {
        None
    } else {
        match crate::storepath::store_path_parts(p) {
            Some((n, v)) => Some(
                (
                    n,
                    match v {
                        Some(x) => x,
                        None => none_text(),
                    },
                ),
            ),
            None => match file_name_of(p) {
                Some(b) => Some((if hash_like(b) { after_hash_bytes(b) } else { b }, none_text())),
                None => None,
            },
        }
    }
}

pub open spec fn packages_of(paths: Seq<Seq<char>>) -> Seq<(Seq<char>, Counts)>
    decreases paths.len(),
{
    if paths.len() == 0 {
        seq![]
    } else {
        let r = packages_of(paths.drop_last());
        match path_entry(paths.last()) {
            Some((n, v)) => bump_package(r, n, v),
            None => r,
        }
    }
}

/// Whether a path can be read: short enough, and where its last component
/// is hash-like, split at a character boundary.
pub open spec fn path_readable(p: Seq<char>) -> bool {
    &&& p.len() + 64 <= usize::MAX
    &&& match file_name_of(p) {
        Some(b) => hash_like(b) ==> vstd::utf8::is_char_boundary(vstd::utf8::encode_utf8(b), 33),
        None => true,
    }
}

pub open spec fn counts_view(c: Seq<(String, usize)>) -> Counts {
    c.map_values(|e: (String, usize)| (e.0@, e.1 as nat))
}

pub open spec fn packages_view(p: Seq<(String, Vec<(String, usize)>)>) -> Seq<(Seq<char>, Counts)> {
    p.map_values(|e: (String, Vec<(String, usize)>)| (e.0@, counts_view(e.1@)))
}

pub proof fn lemma_key_index<V>(s: Seq<(Seq<char>, V)>, k: Seq<char>)
    ensures
        -1 <= key_index(s, k) < s.len(),
        key_index(s, k) >= 0 ==> s[key_index(s, k)].0 == k,
        key_index(s, k) < 0 ==> forall|j: int| 0 <= j < s.len() ==> #[trigger] s[j].0 != k,
    decreases s.len(),
{
    if s.len() > 0 {
        lemma_key_index(s.drop_last(), k);
        assert forall|j: int| 0 <= j < s.len() - 1 implies #[trigger] s[j].0 == s.drop_last()[j].0 by {}
    }
}

fn find_key<V>(s: &Vec<(String, V)>, k: &str) -> (r: Option<usize>)
    ensures
        match r {
            Some(i) => i < s@.len() && key_index(s@.map_values(|e: (String, V)| (e.0@, e.1)), k@) == i as int,
            None => key_index(s@.map_values(|e: (String, V)| (e.0@, e.1)), k@) < 0,
        },
{
    let ghost sv = s@.map_values(|e: (String, V)| (e.0@, e.1));
    let mut i: usize = 0;
    while i < s.len()
        invariant
            i <= s@.len(),
            sv == s@.map_values(|e: (String, V)| (e.0@, e.1)),
            key_index(sv.take(i as int), k@) < 0,
        decreases s@.len() - i,
    {
        assert(sv.take(i + 1).drop_last() == sv.take(i as int));
        assert(sv.take(i + 1).last() == sv[i as int]);
        if str_eq(s[i].0.as_str(), k) {
            proof {
                lemma_key_index_prefix(sv, k@, i + 1);
            }
            return Some(i);
        }
        i = i + 1;
    }
    assert(sv.take(s@.len() as int) == sv);
    None
}

pub proof fn lemma_key_index_prefix<V>(s: Seq<(Seq<char>, V)>, k: Seq<char>, n: int)
    requires
        0 <= n <= s.len(),
        key_index(s.take(n), k) >= 0,
    ensures
        key_index(s, k) == key_index(s.take(n), k),
    decreases s.len() - n,
{
    if n < s.len() {
        assert(s.take(n + 1).drop_last() == s.take(n));
        lemma_key_index_prefix(s, k, n + 1);
    } else {
        assert(s.take(n) == s);
    }
}

proof fn lemma_key_index_same_keys<A, B>(s1: Seq<(Seq<char>, A)>, s2: Seq<(Seq<char>, B)>, k: Seq<char>)
    requires
        s1.len() == s2.len(),
        forall|j: int| 0 <= j < s1.len() ==> #[trigger] s1[j].0 == s2[j].0,
    ensures
        key_index(s1, k) == key_index(s2, k),
    decreases s1.len(),
{
    if s1.len() > 0 {
        lemma_key_index_same_keys(s1.drop_last(), s2.drop_last(), k);
    }
}

fn bump_exec(counts: &mut Vec<(String, usize)>, v: &str, bound: usize)
    requires
        bound >= 1,
        forall|j: int| 0 <= j < old(counts)@.len() ==> #[trigger] old(counts)@[j].1 < bound,
    ensures
        counts_view(final(counts)@) == bump(counts_view(old(counts)@), v@),
        forall|j: int| 0 <= j < final(counts)@.len() ==> #[trigger] final(counts)@[j].1 <= bound,
{
    let ghost c0 = counts_view(counts@);
    proof {
        assert(counts@.map_values(|e: (String, usize)| (e.0@, e.1)).map_values(|e: (Seq<char>, usize)| (e.0, e.1 as nat)) =~= c0);
    }
    match find_key(counts, v) {
        Some(i) => {
            proof {
                lemma_key_index_same_keys(c0, counts@.map_values(|e: (String, usize)| (e.0@, e.1)), v@);
                lemma_key_index(c0, v@);
                assert(key_index(c0, v@) == i);
            }
            let ghost before = counts@;
            let (name, n) = counts.remove(i);
            assert(n == before[i as int].1);
            counts.insert(i, (name, n + 1));
            proof {
                assert(counts_view(counts@) =~= c0.update(i as int, (v@, c0[i as int].1 + 1)));
                assert forall|j: int| 0 <= j < counts@.len() implies #[trigger] counts@[j].1 <= bound by {
                    if j != i {
                        assert(counts@[j] == before[j]);
                    }
                }
            }
        },
        None => {
            proof {
                lemma_key_index_same_keys(c0, counts@.map_values(|e: (String, usize)| (e.0@, e.1)), v@);
            }
            let ghost before = counts@;
            counts.push((v.to_owned(), 1));
            assert(forall|j: int| 0 <= j < before.len() ==> counts@[j] == before[j]);
            assert(counts_view(counts@) =~= c0.push((v@, 1nat)));
        },
    }
}


fn bump_package_exec(pkgs: &mut Vec<(String, Vec<(String, usize)>)>, name: &str, v: &str, bound: usize)
    requires
        bound >= 1,
        forall|a: int, j: int|
            0 <= a < old(pkgs)@.len() && 0 <= j < old(pkgs)@[a].1@.len() ==> #[trigger] old(pkgs)@[a].1@[j].1 < bound,
    ensures
        packages_view(final(pkgs)@) == bump_package(packages_view(old(pkgs)@), name@, v@),
        forall|a: int, j: int|
            0 <= a < final(pkgs)@.len() && 0 <= j < final(pkgs)@[a].1@.len() ==> #[trigger] final(pkgs)@[a].1@[j].1
                <= bound,
{
    let ghost p0 = packages_view(pkgs@);
    let ghost before = pkgs@;
    proof {
        lemma_key_index_same_keys(p0, pkgs@.map_values(|e: (String, Vec<(String, usize)>)| (e.0@, e.1)), name@);
        lemma_key_index(p0, name@);
    }
    match find_key(pkgs, name) {
        Some(i) => {
            let (n, mut counts) = pkgs.remove(i);
            assert(counts@ == before[i as int].1@);
            bump_exec(&mut counts, v, bound);
            pkgs.insert(i, (n, counts));
            proof {
                assert(packages_view(pkgs@) =~= p0.update(i as int, (name@, bump(p0[i as int].1, v@))));
                assert forall|a: int, j: int|
                    0 <= a < pkgs@.len() && 0 <= j < pkgs@[a].1@.len() implies #[trigger] pkgs@[a].1@[j].1 <= bound by {
                    if a != i {
                        assert(pkgs@[a] == before[a]);
                    }
                }
            }
        },
        None => {
            let mut counts: Vec<(String, usize)> = Vec::new();
            counts.push((v.to_owned(), 1));
            pkgs.push((name.to_owned(), counts));
            proof {
                assert(counts_view(counts@) =~= seq![(v@, 1nat)]);
                assert(packages_view(pkgs@) =~= p0.push((name@, seq![(v@, 1nat)])));
                assert forall|a: int, j: int|
                    0 <= a < pkgs@.len() && 0 <= j < pkgs@[a].1@.len() implies #[trigger] pkgs@[a].1@[j].1 <= bound by {
                    if a < before.len() {
                        assert(pkgs@[a] == before[a]);
                    }
                }
            }
        },
    }
}

/// Whether a closure path can be read: the check `parse_paths` needs of
/// each path.
pub fn path_is_readable(p: &str) -> (b: bool)
    ensures
        b == path_readable(p@),
{
    let n = p.unicode_len();
    if n > usize::MAX - 64 {
        return false;
    }
    match file_name(p) {
        Some(b) => {
            let hashy = b.as_bytes().len() > 33 && b.unicode_len() > 32 && b.get_char(32) == '-';
            if hashy {
                b.is_char_boundary(33)
            } else {
                true
            }
        },
        None => true,
    }
}

/// Counts the packages of a closure by name and version: every path but a
/// derivation counts once toward its package's version, in the order the
/// names and versions first occur.
pub fn parse_paths(paths: &[String]) -> (r: Vec<(String, Vec<(String, usize)>)>)
    requires
        forall|k: int| 0 <= k < paths@.len() ==> path_readable(#[trigger] paths@[k]@),
    ensures
        packages_view(r@) == packages_of(text_views(paths@)),
{
    let ghost pv = text_views(paths@);
    let mut pkgs: Vec<(String, Vec<(String, usize)>)> = Vec::new();
    assert(packages_view(pkgs@) =~= seq![]);
    let mut k: usize = 0;
    while k < paths.len()
        invariant
            k <= paths@.len(),
            pv == text_views(paths@),
            forall|j: int| 0 <= j < paths@.len() ==> path_readable(#[trigger] paths@[j]@),
            packages_view(pkgs@) == packages_of(pv.take(k as int)),
            forall|a: int, j: int|
                0 <= a < pkgs@.len() && 0 <= j < pkgs@[a].1@.len() ==> #[trigger] pkgs@[a].1@[j].1 <= k,
        decreases paths@.len() - k,
    {
        let path = paths[k].as_str();
        assert(pv.take(k + 1).drop_last() == pv.take(k as int));
        assert(pv.take(k + 1).last() == path@);
        assert(path_readable(paths@[k as int]@));
        let bound = k + 1;
        if !crate::strings::ends_with_text(path, ".drv") {
            match crate::storepath::parse_store_path(path) {
                Ok((name, version)) => {
                    match version {
                        Some(v) => bump_package_exec(&mut pkgs, name.as_str(), v.as_str(), bound),
                        None => {
                            let none = "<none>";
                            bump_package_exec(&mut pkgs, name.as_str(), none, bound);
                        },
                    }
                },
                Err(_) => {
                    match file_name(path) {
                        Some(b) => {
                            let none = "<none>";
                            let hashy = b.as_bytes().len() > 33 && b.unicode_len() > 32 && b.get_char(32) == '-';
                            if hashy {
                                let (_, rest) = b.split_at(33);
                                proof {
                                    broadcast use vstd::utf8::encode_utf8_decode_utf8;
                                    assert(vstd::utf8::encode_utf8(b@).skip(33) =~= vstd::utf8::encode_utf8(rest@));
                                    assert(rest@ == vstd::utf8::decode_utf8(vstd::utf8::encode_utf8(rest@)));
                                    assert(rest@ == after_hash_bytes(b@));
                                    assert(hash_like(b@));
                                    assert(path_entry(path@) == Some((rest@, none@)));
                                }
                                bump_package_exec(&mut pkgs, rest, none, bound);
                            } else {
                                assert(!hash_like(b@));
                                assert(path_entry(path@) == Some((b@, none@)));
                                bump_package_exec(&mut pkgs, b, none, bound);
                            }
                        },
                        None => {},
                    }
                },
            }
        }
        k = k + 1;
    }
    assert(pv.take(paths@.len() as int) == pv);
    pkgs
}


/// The names of the system packages among store paths, each once, in the
/// order of their first path; a path that does not read as a store path
/// (or is too long to read) names none.
pub open spec fn system_names(paths: Seq<Seq<char>>) -> Seq<Seq<char>>
    decreases paths.len(),
{
    if paths.len() == 0 {
        seq![]
    } else {
        let before = system_names(paths.drop_last());
        let p = paths.last();
        if p.len() + 64 <= usize::MAX && crate::storepath::store_path_parts(p) is Some
            && !before.contains(crate::storepath::store_path_parts(p).unwrap().0) {
            before.push(crate::storepath::store_path_parts(p).unwrap().0)
        } else {
            before
        }
    }
}

/// The names of the system packages that the store paths of a system's
/// packages read as, each once.
pub fn system_package_names(paths: &Vec<String>) -> (r: Vec<String>)
    ensures
        text_views(r@) == system_names(text_views(paths@)),
{
    let ghost pv = text_views(paths@);
    let mut r: Vec<String> = Vec::new();
    let mut k: usize = 0;
    while k < paths.len()
        invariant
            k <= paths@.len(),
            pv == text_views(paths@),
            text_views(r@) == system_names(pv.take(k as int)),
        decreases paths@.len() - k,
    {
        let path = paths[k].as_str();
        assert(pv.take(k + 1).drop_last() == pv.take(k as int));
        assert(pv.take(k + 1).last() == path@);
        let n = path.unicode_len();
        if n <= usize::MAX - 64 {
            match crate::storepath::parse_store_path(path) {
                Ok((name, _)) => {
                    let known = crate::diff::contains_name(r.as_slice(), name.as_str());
                    proof {
                        let names = text_views(r@);
                        if known {
                            let i = choose|i: int| 0 <= i < r@.len() && #[trigger] r@[i]@ == name@;
                            assert(names[i] == name@);
                        } else {
                            assert forall|i: int| 0 <= i < names.len() implies names[i] != name@ by {
                                assert(names[i] == r@[i]@);
                            }
                        }
                    }
                    if !known {
                        let ghost before = text_views(r@);
                        r.push(name);
                        assert(text_views(r@) =~= before.push(name@));
                    }
                },
                Err(_) => {},
            }
        }
        k = k + 1;
    }
    assert(pv.take(paths@.len() as int) == pv);
    r
}

/// A snapshot of a system closure: its path, each package's versions with
/// their counts, and the names of the system packages.
#[derive(Debug, Clone)]
pub struct Snapshot {
    pub system_path: String,
    pub packages: Vec<(String, Vec<(String, usize)>)>,
    pub system_packages: Vec<String>,
}

/// How a package differs between two snapshots.
#[derive(Debug, Clone, Copy, PartialEq, Eq, Structural)]
pub enum SnapshotStatus {
    Changed(ChangeStatus),
    Added,
    Removed,
}

pub open spec fn snapshot_symbol(s: SnapshotStatus) -> char {
    match s {
        SnapshotStatus::Changed(ChangeStatus::Upgraded) => 'U',
        SnapshotStatus::Changed(ChangeStatus::Downgraded) => 'D',
        SnapshotStatus::Changed(ChangeStatus::UpgradeDowngrade) => 'C',
        SnapshotStatus::Added => 'A',
        SnapshotStatus::Removed => 'R',
    }
}

/// The count of version `v`, zero where it is absent.
pub open spec fn count_of(c: Counts, v: Seq<char>) -> nat {
    let i = key_index(c, v);
    if i >= 0 {
        c[i].1
    } else {
        0
    }
}

/// Two version maps are equal: the same versions with the same counts.
pub open spec fn same_counts(a: Counts, b: Counts) -> bool {
    &&& a.len() == b.len()
    &&& forall|j: int| 0 <= j < a.len() ==> key_index(b, #[trigger] a[j].0) >= 0 && count_of(b, a[j].0) == a[j].1
}

/// Whether the keys of a list are distinct.
pub open spec fn distinct_keys<V>(s: Seq<(Seq<char>, V)>) -> bool {
    forall|i: int, j: int| 0 <= i < j < s.len() ==> s[i].0 != s[j].0
}

/// The versions one side has more of, by how many more, in the order of `a`.
pub open spec fn surplus(a: Counts, b: Counts) -> Counts
    decreases a.len(),
{
    if a.len() == 0 {
        seq![]
    } else {
        let r = surplus(a.drop_last(), b);
        let (v, c) = a.last();
        if c > count_of(b, v) {
            r.push((v, (c - count_of(b, v)) as nat))
        } else {
            r
        }
    }
}

/// The version texts of a count list.
pub open spec fn versions_of(c: Counts) -> Seq<Seq<char>> {
    c.map_values(|x: (Seq<char>, nat)| x.0)
}

pub open spec fn version_count_after(a: (Seq<char>, nat), b: (Seq<char>, nat)) -> bool {
    lex_order(a.0, b.0) == Order::Greater
}

/// Versions sorted by their text.
pub open spec fn sorted_counts(c: Counts) -> Counts {
    crate::sorting::insertion_sorted(c, |a: (Seq<char>, nat), b: (Seq<char>, nat)| version_count_after(a, b))
}

/// One package's entry of a snapshot diff.
pub struct PackageDiff {
    pub name: Seq<char>,
    pub old_unique: Counts,
    pub new_unique: Counts,
    pub has_common: bool,
    pub status: SnapshotStatus,
    pub selection: crate::diff::DerivationSelectionStatus,
}

pub open spec fn lookup(p: Seq<(Seq<char>, Counts)>, name: Seq<char>) -> Option<Counts> {
    let i = key_index(p, name);
    if i >= 0 {
        Some(p[i].1)
    } else {
        None
    }
}

/// The diff of one package: changed when both snapshots have it with other
/// counts (each side keeps the versions it has more of, and the two sides
/// share versions when some version is in both), added or removed when one
/// side lacks it, nothing otherwise.
pub open spec fn package_diff(
    name: Seq<char>,
    old: Option<Counts>,
    new: Option<Counts>,
    old_sys: Seq<String>,
    new_sys: Seq<String>,
) -> Option<PackageDiff> {
    let selection = crate::diff::selection_of(
        crate::diff::names_contain(old_sys, name),
        crate::diff::names_contain(new_sys, name),
    );
    match (old, new) {
        (Some(o), Some(n)) => if same_counts(o, n) {
            None
        } else {
            let uo = sorted_counts(surplus(o, n));
            let un = sorted_counts(surplus(n, o));
            let common = exists|j: int| 0 <= j < o.len() && #[trigger] o[j].1 > 0 && count_of(n, o[j].0) > 0;
            Some(
                PackageDiff {
                    name,
                    old_unique: uo,
                    new_unique: un,
                    has_common: common,
                    status: SnapshotStatus::Changed(
                        change_from_unique(versions_of(uo), versions_of(un)),
                    ),
                    selection,
                },
            )
        },
        (None, Some(n)) => Some(
            PackageDiff { name, old_unique: seq![], new_unique: n, has_common: false, status: SnapshotStatus::Added, selection },
        ),
        (Some(o), None) => Some(
            PackageDiff { name, old_unique: o, new_unique: seq![], has_common: false, status: SnapshotStatus::Removed, selection },
        ),
        (None, None) => None,
    }
}

pub open spec fn names_of(p: Seq<(Seq<char>, Counts)>) -> Seq<Seq<char>> {
    p.map_values(|e: (Seq<char>, Counts)| e.0)
}

/// Every package name of either snapshot once: the old ones, then the new
/// ones the old snapshot lacks.
pub open spec fn all_names(o: Seq<(Seq<char>, Counts)>, n: Seq<(Seq<char>, Counts)>) -> Seq<Seq<char>> {
    names_of(o) + names_of(n).filter(|x: Seq<char>| key_index(o, x) < 0)
}

pub open spec fn name_after(a: Seq<char>, b: Seq<char>) -> bool {
    lex_order(a, b) == Order::Greater
}

pub open spec fn diffs_for(
    names: Seq<Seq<char>>,
    o: Seq<(Seq<char>, Counts)>,
    n: Seq<(Seq<char>, Counts)>,
    old_sys: Seq<String>,
    new_sys: Seq<String>,
) -> Seq<PackageDiff>
    decreases names.len(),
{
    if names.len() == 0 {
        seq![]
    } else {
        let r = diffs_for(names.drop_last(), o, n, old_sys, new_sys);
        match package_diff(names.last(), lookup(o, names.last()), lookup(n, names.last()), old_sys, new_sys) {
            Some(d) => r.push(d),
            None => r,
        }
    }
}

/// The diffs of two snapshots, by package name.
pub open spec fn snapshot_diffs(old: SnapshotView, new: SnapshotView) -> Seq<PackageDiff> {
    let names = crate::sorting::insertion_sorted(all_names(old.1, new.1), |a: Seq<char>, b: Seq<char>| name_after(a, b));
    diffs_for(names, old.1, new.1, old.2, new.2)
}

pub type SnapshotView = (Seq<char>, Seq<(Seq<char>, Counts)>, Seq<String>);

pub open spec fn snapshot_view(s: Snapshot) -> SnapshotView {
    (s.system_path@, packages_view(s.packages@), s.system_packages@)
}

/// The `[status selection]` tag of a line.
pub open spec fn tag_text(d: PackageDiff) -> Seq<char> {
    seq!['[', snapshot_symbol(d.status), crate::diff::selection_symbol(d.selection), ']']
}

pub open spec fn diff_row(d: PackageDiff) -> Seq<char> {
    match d.status {
        SnapshotStatus::Changed(_) => tag_text(d) + " "@ + crate::diff::padded(d.name, 48) + " "@ + versions_text(
            d.old_unique,
            d.has_common,
        ) + " -> "@ + versions_text(d.new_unique, d.has_common),
        _ => tag_text(d) + " "@ + crate::diff::padded(d.name, 48) + " <none>"@,
    }
}

pub open spec fn is_changed(d: PackageDiff) -> bool {
    d.status is Changed
}

pub open spec fn is_added(d: PackageDiff) -> bool {
    d.status is Added
}

pub open spec fn is_removed(d: PackageDiff) -> bool {
    d.status is Removed
}

/// A section: its heading, its rows and an empty line, or nothing when it has
/// no rows.
pub open spec fn section(heading: Seq<char>, ds: Seq<PackageDiff>) -> Seq<Seq<char>> {
    if ds.len() == 0 {
        seq![]
    } else {
        seq![heading] + ds.map_values(|d: PackageDiff| diff_row(d)) + seq![seq![]]
    }
}

/// The report of a snapshot diff: both system paths, then the changed,
/// added and removed packages, then a closing note.
pub open spec fn snapshot_report(old: SnapshotView, new: SnapshotView) -> Seq<Seq<char>> {
    let ds = snapshot_diffs(old, new);
    seq!["<<< "@ + old.0, ">>> "@ + new.0, seq![]] + section("CHANGED"@, ds.filter(|d: PackageDiff| is_changed(d)))
        + section("ADDED"@, ds.filter(|d: PackageDiff| is_added(d))) + section(
        "REMOVED"@,
        ds.filter(|d: PackageDiff| is_removed(d)),
    ) + if ds.len() == 0 {
        seq!["No changes"@]
    } else {
        seq![seq![], "Note: SIZE/DIFF not available (requires built systems)"@]
    }
}


impl crate::sorting::Ranked for VersionWithCount {
    type Key = (Seq<char>, nat);

    open spec fn key(&self) -> (Seq<char>, nat) {
        (self.version@, self.count as nat)
    }

    open spec fn after(a: (Seq<char>, nat), b: (Seq<char>, nat)) -> bool {
        version_count_after(a, b)
    }

    fn goes_after(&self, other: &VersionWithCount) -> (b: bool) {
        str_order(self.version.as_str(), other.version.as_str()) == Order::Greater
    }
}

impl crate::sorting::Ranked for String {
    type Key = Seq<char>;

    open spec fn key(&self) -> Seq<char> {
        self@
    }

    open spec fn after(a: Seq<char>, b: Seq<char>) -> bool {
        name_after(a, b)
    }

    fn goes_after(&self, other: &String) -> (b: bool) {
        str_order(self.as_str(), other.as_str()) == Order::Greater
    }
}

fn count_in(c: &Vec<(String, usize)>, v: &str) -> (n: usize)
    ensures
        n == count_of(counts_view(c@), v@),
{
    proof {
        lemma_key_index_same_keys(counts_view(c@), c@.map_values(|e: (String, usize)| (e.0@, e.1)), v@);
        lemma_key_index(counts_view(c@), v@);
    }
    match find_key(c, v) {
        Some(i) => c[i].1,
        None => 0,
    }
}

fn same_counts_exec(a: &Vec<(String, usize)>, b: &Vec<(String, usize)>) -> (r: bool)
    ensures
        r == same_counts(counts_view(a@), counts_view(b@)),
{
    let ghost av = counts_view(a@);
    let ghost bv = counts_view(b@);
    if a.len() != b.len() {
        return false;
    }
    let mut j: usize = 0;
    while j < a.len()
        invariant
            j <= a@.len(),
            a@.len() == b@.len(),
            av == counts_view(a@),
            bv == counts_view(b@),
            forall|k: int| 0 <= k < j ==> key_index(bv, #[trigger] av[k].0) >= 0 && count_of(bv, av[k].0) == av[k].1,
        decreases a@.len() - j,
    {
        proof {
            lemma_key_index_same_keys(bv, b@.map_values(|e: (String, usize)| (e.0@, e.1)), a@[j as int].0@);
        }
        match find_key(b, a[j].0.as_str()) {
            Some(i) => {
                if b[i].1 != a[j].1 {
                    assert(count_of(bv, av[j as int].0) != av[j as int].1);
                    return false;
                }
            },
            None => {
                return false;
            },
        }
        j = j + 1;
    }
    true
}

fn surplus_exec(a: &Vec<(String, usize)>, b: &Vec<(String, usize)>) -> (r: Vec<VersionWithCount>)
    ensures
        counted_views(r@) == surplus(counts_view(a@), counts_view(b@)),
{
    let ghost av = counts_view(a@);
    let ghost bv = counts_view(b@);
    let mut r: Vec<VersionWithCount> = Vec::new();
    let mut j: usize = 0;
    while j < a.len()
        invariant
            j <= a@.len(),
            av == counts_view(a@),
            bv == counts_view(b@),
            counted_views(r@) == surplus(av.take(j as int), bv),
        decreases a@.len() - j,
    {
        assert(av.take(j + 1).drop_last() == av.take(j as int));
        assert(av.take(j + 1).last() == av[j as int]);
        let other = count_in(b, a[j].0.as_str());
        if a[j].1 > other {
            let ghost before = counted_views(r@);
            r.push(VersionWithCount { version: a[j].0.clone(), count: a[j].1 - other });
            assert(counted_views(r@) =~= before.push((av[j as int].0, (av[j as int].1 - other) as nat)));
        }
        j = j + 1;
    }
    assert(av.take(a@.len() as int) == av);
    r
}

fn shares_version_exec(a: &Vec<(String, usize)>, b: &Vec<(String, usize)>) -> (r: bool)
    ensures
        r == exists|j: int|
            0 <= j < counts_view(a@).len() && #[trigger] counts_view(a@)[j].1 > 0 && count_of(
                counts_view(b@),
                counts_view(a@)[j].0,
            ) > 0,
{
    let ghost av = counts_view(a@);
    let ghost bv = counts_view(b@);
    let mut j: usize = 0;
    while j < a.len()
        invariant
            j <= a@.len(),
            av == counts_view(a@),
            bv == counts_view(b@),
            forall|k: int| 0 <= k < j ==> !(#[trigger] av[k].1 > 0 && count_of(bv, av[k].0) > 0),
        decreases a@.len() - j,
    {
        if a[j].1 > 0 && count_in(b, a[j].0.as_str()) > 0 {
            assert(av[j as int].1 > 0);
            return true;
        }
        j = j + 1;
    }
    false
}

fn version_texts(v: &Vec<VersionWithCount>) -> (r: Vec<String>)
    ensures
        text_views(r@) == versions_of(counted_views(v@)),
{
    let mut r: Vec<String> = Vec::new();
    let mut j: usize = 0;
    while j < v.len()
        invariant
            j <= v@.len(),
            text_views(r@) == versions_of(counted_views(v@)).take(j as int),
        decreases v@.len() - j,
    {
        let ghost before = text_views(r@);
        let t = v[j].version.clone();
        r.push(t);
        assert(text_views(r@) =~= before.push(v@[j as int].version@));
        assert(text_views(r@) =~= versions_of(counted_views(v@)).take(j + 1));
        j = j + 1;
    }
    assert(versions_of(counted_views(v@)).take(v@.len() as int) =~= versions_of(counted_views(v@)));
    r
}

fn sort_counts(v: &mut Vec<VersionWithCount>)
    ensures
        counted_views(final(v)@) == sorted_counts(counted_views(old(v)@)),
{
    crate::sorting::insertion_sort(v);
    proof {
        assert(counted_views(v@) =~= crate::sorting::keys(v@));
        assert(counted_views(old(v)@) =~= crate::sorting::keys(old(v)@));
        assert(crate::sorting::after_fn::<VersionWithCount>() == (|a: (Seq<char>, nat), b: (Seq<char>, nat)|
            version_count_after(a, b)));
    }
}

fn counts_to_list(c: &Vec<(String, usize)>) -> (r: Vec<VersionWithCount>)
    ensures
        counted_views(r@) == counts_view(c@),
{
    let mut r: Vec<VersionWithCount> = Vec::new();
    let mut j: usize = 0;
    while j < c.len()
        invariant
            j <= c@.len(),
            counted_views(r@) == counts_view(c@).take(j as int),
        decreases c@.len() - j,
    {
        let ghost before = counted_views(r@);
        let t = c[j].0.clone();
        r.push(VersionWithCount { version: t, count: c[j].1 });
        assert(counted_views(r@) =~= before.push((c@[j as int].0@, c@[j as int].1 as nat)));
        assert(counted_views(r@) =~= counts_view(c@).take(j + 1));
        j = j + 1;
    }
    assert(counts_view(c@).take(c@.len() as int) == counts_view(c@));
    r
}

/// One package's entry of a snapshot diff.
pub struct SnapshotDiff {
    pub name: String,
    pub old_unique: Vec<VersionWithCount>,
    pub new_unique: Vec<VersionWithCount>,
    pub has_common: bool,
    pub status: SnapshotStatus,
    pub selection: crate::diff::DerivationSelectionStatus,
}

pub open spec fn snapshot_diff_view(d: SnapshotDiff) -> PackageDiff {
    PackageDiff {
        name: d.name@,
        old_unique: counted_views(d.old_unique@),
        new_unique: counted_views(d.new_unique@),
        has_common: d.has_common,
        status: d.status,
        selection: d.selection,
    }
}

fn package_diff_exec(name: &str, old: &Snapshot, new: &Snapshot) -> (r: Option<SnapshotDiff>)
    ensures
        match r {
            Some(d) => package_diff(
                name@,
                lookup(packages_view(old.packages@), name@),
                lookup(packages_view(new.packages@), name@),
                old.system_packages@,
                new.system_packages@,
            ) == Some(snapshot_diff_view(d)),
            None => package_diff(
                name@,
                lookup(packages_view(old.packages@), name@),
                lookup(packages_view(new.packages@), name@),
                old.system_packages@,
                new.system_packages@,
            ) is None,
        },
{
    let ghost op = packages_view(old.packages@);
    let ghost np = packages_view(new.packages@);
    proof {
        lemma_key_index_same_keys(op, old.packages@.map_values(|e: (String, Vec<(String, usize)>)| (e.0@, e.1)), name@);
        lemma_key_index_same_keys(np, new.packages@.map_values(|e: (String, Vec<(String, usize)>)| (e.0@, e.1)), name@);
    }
    let selection = crate::diff::DerivationSelectionStatus::from_names(
        name,
        old.system_packages.as_slice(),
        new.system_packages.as_slice(),
    );
    match (find_key(&old.packages, name), find_key(&new.packages, name)) {
        (Some(i), Some(j)) => {
            let o = &old.packages[i].1;
            let n = &new.packages[j].1;
            assert(lookup(op, name@) == Some(counts_view(o@)));
            assert(lookup(np, name@) == Some(counts_view(n@)));
            if same_counts_exec(o, n) {
                return None;
            }
            let mut uo = surplus_exec(o, n);
            let mut un = surplus_exec(n, o);
            sort_counts(&mut uo);
            sort_counts(&mut un);
            let common = shares_version_exec(o, n);
            let uo_v = version_texts(&uo);
            let un_v = version_texts(&un);
            let cs = determine_change_status_from_unique(uo_v.as_slice(), un_v.as_slice(), common);
            let ghost ov = counts_view(o@);
            let ghost nv = counts_view(n@);
            assert(!same_counts(ov, nv));
            assert(counted_views(uo@) == sorted_counts(surplus(ov, nv)));
            assert(counted_views(un@) == sorted_counts(surplus(nv, ov)));
            assert(cs == change_from_unique(versions_of(counted_views(uo@)), versions_of(counted_views(un@))));
            assert(common == exists|k: int| 0 <= k < ov.len() && #[trigger] ov[k].1 > 0 && count_of(nv, ov[k].0) > 0);
            let r = SnapshotDiff {
                name: name.to_owned(),
                old_unique: uo,
                new_unique: un,
                has_common: common,
                status: SnapshotStatus::Changed(cs),
                selection,
            };
            assert(snapshot_diff_view(r).name == name@);
            assert(snapshot_diff_view(r).selection == crate::diff::selection_of(
                crate::diff::names_contain(old.system_packages@, name@),
                crate::diff::names_contain(new.system_packages@, name@),
            ));
            assert(package_diff(name@, Some(ov), Some(nv), old.system_packages@, new.system_packages@) == Some(snapshot_diff_view(r)));
            Some(r)
        },
        (None, Some(j)) => {
            assert(lookup(op, name@) is None);
            assert(lookup(np, name@) == Some(counts_view(new.packages@[j as int].1@)));
            let empty: Vec<VersionWithCount> = Vec::new();
            assert(counted_views(empty@) =~= seq![]);
            Some(
            SnapshotDiff {
                name: name.to_owned(),
                old_unique: empty,
                new_unique: counts_to_list(&new.packages[j].1),
                has_common: false,
                status: SnapshotStatus::Added,
                selection,
            },
        )
        },
        (Some(i), None) => {
            assert(lookup(np, name@) is None);
            assert(lookup(op, name@) == Some(counts_view(old.packages@[i as int].1@)));
            Some(
            SnapshotDiff {
                name: name.to_owned(),
                old_unique: counts_to_list(&old.packages[i].1),
                new_unique: {
                    let empty: Vec<VersionWithCount> = Vec::new();
                    assert(counted_views(empty@) =~= seq![]);
                    empty
                },
                has_common: false,
                status: SnapshotStatus::Removed,
                selection,
            },
        )
        },
        (None, None) => {
            assert(lookup(op, name@) is None && lookup(np, name@) is None);
            None
        },
    }
}


fn all_names_exec(old: &Snapshot, new: &Snapshot) -> (r: Vec<String>)
    ensures
        text_views(r@) == all_names(packages_view(old.packages@), packages_view(new.packages@)),
{
    let ghost op = packages_view(old.packages@);
    let ghost np = packages_view(new.packages@);
    let ghost pred = |x: Seq<char>| key_index(op, x) < 0;
    let mut r: Vec<String> = Vec::new();
    let mut k: usize = 0;
    while k < old.packages.len()
        invariant
            k <= old.packages@.len(),
            op == packages_view(old.packages@),
            text_views(r@) == names_of(op).take(k as int),
        decreases old.packages@.len() - k,
    {
        let ghost before = text_views(r@);
        let t = old.packages[k].0.clone();
        r.push(t);
        assert(text_views(r@) =~= before.push(op[k as int].0));
        assert(text_views(r@) =~= names_of(op).take(k + 1));
        k = k + 1;
    }
    assert(names_of(op).take(old.packages@.len() as int) =~= names_of(op));
    let ghost base = text_views(r@);
    let mut k: usize = 0;
    while k < new.packages.len()
        invariant
            k <= new.packages@.len(),
            op == packages_view(old.packages@),
            np == packages_view(new.packages@),
            pred == (|x: Seq<char>| key_index(op, x) < 0),
            text_views(r@) == base + names_of(np).take(k as int).filter(pred),
        decreases new.packages@.len() - k,
    {
        let ghost nk = np[k as int].0;
        proof {
            assert(names_of(np).take(k + 1) == names_of(np).take(k as int).push(nk));
            names_of(np).take(k as int).lemma_filter_push(nk, pred);
            lemma_key_index_same_keys(op, old.packages@.map_values(|e: (String, Vec<(String, usize)>)| (e.0@, e.1)), nk);
        }
        match find_key(&old.packages, new.packages[k].0.as_str()) {
            Some(_) => {},
            None => {
                let ghost before = text_views(r@);
                let t = new.packages[k].0.clone();
                r.push(t);
                assert(text_views(r@) =~= before.push(nk));
            },
        }
        assert(text_views(r@) =~= base + names_of(np).take(k + 1).filter(pred));
        k = k + 1;
    }
    assert(names_of(np).take(new.packages@.len() as int) =~= names_of(np));
    r
}

fn tag_of(d: &SnapshotDiff) -> (s: String)
    ensures
        s@ == tag_text(snapshot_diff_view(*d)),
{
    let mut s = String::new();
    s.push('[');
    let c = match d.status {
        SnapshotStatus::Changed(cs) => cs.symbol(),
        SnapshotStatus::Added => 'A',
        SnapshotStatus::Removed => 'R',
    };
    s.push(c);
    s.push(d.selection.symbol());
    s.push(']');
    assert(s@ =~= tag_text(snapshot_diff_view(*d)));
    s
}

fn row_of(d: &SnapshotDiff) -> (s: String)
    ensures
        s@ == diff_row(snapshot_diff_view(*d)),
{
    let mut s = tag_of(d);
    push_str(&mut s, " ");
    let name = crate::diff::pad_name(d.name.as_str(), 48);
    push_str(&mut s, name.as_str());
    match d.status {
        SnapshotStatus::Changed(_) => {
            push_str(&mut s, " ");
            let a = format_versions_with_counts(d.old_unique.as_slice(), d.has_common);
            push_str(&mut s, a.as_str());
            push_str(&mut s, " -> ");
            let b = format_versions_with_counts(d.new_unique.as_slice(), d.has_common);
            push_str(&mut s, b.as_str());
        },
        _ => {
            push_str(&mut s, " <none>");
        },
    }
    s
}

fn push_line(lines: &mut Vec<String>, t: &str)
    ensures
        text_views(final(lines)@) == text_views(old(lines)@).push(t@),
{
    let ghost before = text_views(lines@);
    lines.push(t.to_owned());
    assert(text_views(lines@) =~= before.push(t@));
}

fn push_section(lines: &mut Vec<String>, heading: &str, rows: Vec<String>)
    ensures
        text_views(final(lines)@) == text_views(old(lines)@) + if rows@.len() == 0 {
            seq![]
        } else {
            seq![heading@] + text_views(rows@) + seq![seq![]]
        },
{
    let ghost l0 = text_views(lines@);
    if rows.len() == 0 {
        assert(text_views(lines@) =~= l0 + Seq::<Seq<char>>::empty());
        return;
    }
    push_line(lines, heading);
    let ghost l1 = text_views(lines@);
    let mut rows = rows;
    let ghost rv = text_views(rows@);
    lines.append(&mut rows);
    assert(text_views(lines@) =~= l1 + rv);
    push_line(lines, "");
    proof {
        reveal_strlit("");
        assert(""@ =~= Seq::<char>::empty());
        assert(text_views(lines@) =~= l0 + (seq![heading@] + rv + seq![seq![]]));
    }
}

/// Every package of a snapshot lists each of its versions once.
pub open spec fn versions_distinct(s: SnapshotView) -> bool {
    forall|k: int| 0 <= k < s.1.len() ==> distinct_keys(#[trigger] s.1[k].1)
}

proof fn lemma_distinct_key_index<V>(s: Seq<(Seq<char>, V)>, j: int)
    requires
        distinct_keys(s),
        0 <= j < s.len(),
    ensures
        key_index(s, s[j].0) == j,
{
    lemma_key_index(s, s[j].0);
}

/// A version list with distinct versions holds the same counts as itself.
proof fn lemma_same_counts_self(c: Counts)
    requires
        distinct_keys(c),
    ensures
        same_counts(c, c),
{
    assert forall|j: int| 0 <= j < c.len() implies key_index(c, #[trigger] c[j].0) >= 0 && count_of(
        c,
        c[j].0,
    ) == c[j].1 by {
        lemma_distinct_key_index(c, j);
    }
}

proof fn lemma_diffs_for_self(
    names: Seq<Seq<char>>,
    o: Seq<(Seq<char>, Counts)>,
    old_sys: Seq<String>,
    new_sys: Seq<String>,
)
    requires
        forall|k: int| 0 <= k < o.len() ==> distinct_keys(#[trigger] o[k].1),
    ensures
        diffs_for(names, o, o, old_sys, new_sys) == Seq::<PackageDiff>::empty(),
    decreases names.len(),
{
    if names.len() > 0 {
        lemma_diffs_for_self(names.drop_last(), o, old_sys, new_sys);
        let i = key_index(o, names.last());
        lemma_key_index(o, names.last());
        if i >= 0 {
            lemma_same_counts_self(o[i].1);
        }
    }
}

/// A snapshot diffed against itself shows no changes: no package differs,
/// and the report is the two headers and `No changes`.
pub proof fn law_snapshot_against_itself(s: SnapshotView)
    requires
        versions_distinct(s),
    ensures
        snapshot_diffs(s, s) == Seq::<PackageDiff>::empty(),
        snapshot_report(s, s) == seq!["<<< "@ + s.0, ">>> "@ + s.0, seq![], "No changes"@],
{
    let names = crate::sorting::insertion_sorted(all_names(s.1, s.1), |a: Seq<char>, b: Seq<char>| name_after(a, b));
    lemma_diffs_for_self(names, s.1, s.2, s.2);
    let ds = snapshot_diffs(s, s);
    reveal_with_fuel(Seq::<PackageDiff>::filter, 1);
    assert(ds.filter(|d: PackageDiff| is_changed(d)) =~= Seq::<PackageDiff>::empty());
    assert(ds.filter(|d: PackageDiff| is_added(d)) =~= Seq::<PackageDiff>::empty());
    assert(ds.filter(|d: PackageDiff| is_removed(d)) =~= Seq::<PackageDiff>::empty());
    assert(snapshot_report(s, s) =~= seq!["<<< "@ + s.0, ">>> "@ + s.0, seq![], "No changes"@]);
}

/// The report of how two closure snapshots differ: both system paths, then
/// the changed packages (with the versions each side has more of), the added
/// and the removed ones, each section sorted by name, then a closing note or
/// `No changes`.
pub fn diff_snapshots(old: &Snapshot, new: &Snapshot) -> (lines: Vec<String>)
    ensures
        text_views(lines@) == snapshot_report(snapshot_view(*old), snapshot_view(*new)),
{
    let ghost ov = snapshot_view(*old);
    let ghost nv = snapshot_view(*new);
    let mut names = all_names_exec(old, new);
    let ghost unsorted = text_views(names@);
    assert(crate::sorting::keys(names@) =~= unsorted);
    crate::sorting::insertion_sort(&mut names);
    proof {
        assert(crate::sorting::keys(names@) =~= text_views(names@));
        assert(crate::sorting::after_fn::<String>() == (|a: Seq<char>, b: Seq<char>| name_after(a, b)));
    }
    let ghost sorted = text_views(names@);
    let mut changed: Vec<String> = Vec::new();
    let mut added: Vec<String> = Vec::new();
    let mut removed: Vec<String> = Vec::new();
    let mut total: usize = 0;
    let ghost mut ds: Seq<PackageDiff> = seq![];
    let mut k: usize = 0;
    while k < names.len()
        invariant
            k <= names@.len(),
            sorted == text_views(names@),
            ds == diffs_for(sorted.take(k as int), ov.1, nv.1, ov.2, nv.2),
            ov == snapshot_view(*old),
            nv == snapshot_view(*new),
            total == ds.len(),
            total <= k,
            text_views(changed@) == ds.filter(|d: PackageDiff| is_changed(d)).map_values(|d: PackageDiff| diff_row(d)),
            text_views(added@) == ds.filter(|d: PackageDiff| is_added(d)).map_values(|d: PackageDiff| diff_row(d)),
            text_views(removed@) == ds.filter(|d: PackageDiff| is_removed(d)).map_values(|d: PackageDiff| diff_row(d)),
        decreases names@.len() - k,
    {
        proof {
            assert(sorted.take(k + 1).drop_last() == sorted.take(k as int));
            assert(sorted.take(k + 1).last() == names@[k as int]@);
        }
        match package_diff_exec(names[k].as_str(), old, new) {
            Some(d) => {
                let row = row_of(&d);
                let ghost dv = snapshot_diff_view(d);
                proof {
                    ds.lemma_filter_push(dv, |d: PackageDiff| is_changed(d));
                    ds.lemma_filter_push(dv, |d: PackageDiff| is_added(d));
                    ds.lemma_filter_push(dv, |d: PackageDiff| is_removed(d));
                }
                let ghost (c0, a0, r0) = (text_views(changed@), text_views(added@), text_views(removed@));
                match d.status {
                    SnapshotStatus::Changed(_) => {
                        changed.push(row);
                        assert(text_views(changed@) =~= c0.push(diff_row(dv)));
                    },
                    SnapshotStatus::Added => {
                        added.push(row);
                        assert(text_views(added@) =~= a0.push(diff_row(dv)));
                    },
                    SnapshotStatus::Removed => {
                        removed.push(row);
                        assert(text_views(removed@) =~= r0.push(diff_row(dv)));
                    },
                }
                proof {
                    let nds = ds.push(dv);
                    assert(nds.filter(|d: PackageDiff| is_changed(d)).map_values(|d: PackageDiff| diff_row(d))
                        =~= if is_changed(dv) { c0.push(diff_row(dv)) } else { c0 });
                    assert(nds.filter(|d: PackageDiff| is_added(d)).map_values(|d: PackageDiff| diff_row(d))
                        =~= if is_added(dv) { a0.push(diff_row(dv)) } else { a0 });
                    assert(nds.filter(|d: PackageDiff| is_removed(d)).map_values(|d: PackageDiff| diff_row(d))
                        =~= if is_removed(dv) { r0.push(diff_row(dv)) } else { r0 });
                    ds = nds;
                }
                total = total + 1;
            },
            None => {},
        }
        k = k + 1;
    }
    proof {
        assert(sorted.take(names@.len() as int) == sorted);
    }
    proof {
        assert(ds == snapshot_diffs(ov, nv));
        reveal_strlit("");
    }
    let ghost ch = ds.filter(|d: PackageDiff| is_changed(d));
    let ghost ad = ds.filter(|d: PackageDiff| is_added(d));
    let ghost rm = ds.filter(|d: PackageDiff| is_removed(d));
    let mut lines: Vec<String> = Vec::new();
    let mut first = String::new();
    push_str(&mut first, "<<< ");
    push_str(&mut first, old.system_path.as_str());
    let mut second = String::new();
    push_str(&mut second, ">>> ");
    push_str(&mut second, new.system_path.as_str());
    let ghost (f0, s0) = (first@, second@);
    assert(f0 =~= "<<< "@ + ov.0);
    assert(s0 =~= ">>> "@ + nv.0);
    lines.push(first);
    lines.push(second);
    assert(text_views(lines@) =~= seq![f0, s0]);
    proof {
        reveal_strlit("");
        assert(""@ =~= Seq::<char>::empty());
    }
    push_line(&mut lines, "");
    let ghost head = text_views(lines@);
    assert(head =~= seq!["<<< "@ + ov.0, ">>> "@ + nv.0, seq![]]);
    push_section(&mut lines, "CHANGED", changed);
    let ghost l1 = text_views(lines@);
    assert(l1 =~= head + section("CHANGED"@, ch));
    push_section(&mut lines, "ADDED", added);
    let ghost l2 = text_views(lines@);
    assert(l2 =~= head + section("CHANGED"@, ch) + section("ADDED"@, ad));
    push_section(&mut lines, "REMOVED", removed);
    let ghost l3 = text_views(lines@);
    assert(l3 =~= head + section("CHANGED"@, ch) + section("ADDED"@, ad) + section("REMOVED"@, rm));
    if total == 0 {
        push_line(&mut lines, "No changes");
    } else {
        push_line(&mut lines, "");
        push_line(&mut lines, "Note: SIZE/DIFF not available (requires built systems)");
    }
    proof {
        let tail: Seq<Seq<char>> = if ds.len() == 0 {
            seq!["No changes"@]
        } else {
            seq![seq![], "Note: SIZE/DIFF not available (requires built systems)"@]
        };
        assert(text_views(lines@) =~= l3 + tail);
    }
    lines
}

} // verus!
