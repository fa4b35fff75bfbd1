//! Package diffs between two closures: which packages were added, removed or
//! changed, and whether each change is an upgrade, a downgrade or both.

use vstd::prelude::*;

use crate::matching::{
    EitherOrBoth, VersionView, both_count, entry_view, left_sides, match_version_lists, pairing_fits,
    pairing_views, right_sides, version_pairing,
};
use crate::sorting::{
    Ranked, after_fn, insertion_sort, insertion_sorted, keys, lemma_insertion_sorted_contains,
    sort_versions, sorted_versions, version_views,
};
use crate::text::{Order, chars_of, int_order, lex_order, str_eq, str_order, usize_to_decimal};
use crate::style::{Color, Segment, Style, append_segments, char_segment, color_style, colored, plain, segment, segment_views};
use crate::version::{Version, VersionPiece, components_of, piece_views, pieces_of, same_piece, version_order};

verus! {

/// The direction of a change between two sets of versions.
#[derive(Debug, Clone, Copy, PartialEq, Eq, Structural)]
pub enum Change {
    UpgradeDowngrade,
    Upgraded,
    Downgraded,
}

/// How a package differs between the two closures.
#[derive(Debug, Clone, Copy, PartialEq, Eq, Structural)]
pub enum DiffStatus {
    Changed(Change),
    Added,
    Removed,
}

/// Whether the package is a system package, and whether that changed.
#[derive(Debug, Clone, Copy, PartialEq, Eq, Structural)]
pub enum DerivationSelectionStatus {
    /// The derivation is a system package, status unchanged.
    Selected,
    /// The derivation was not a system package before but is now.
    NewlySelected,
    /// The derivation is and was a dependency.
    Unselected,
    /// The derivation was a system package before but is not anymore.
    NewlyUnselected,
}

/// The section a status is listed in: changed, then added, then removed.
pub open spec fn status_rank(s: DiffStatus) -> int {
    match s {
        DiffStatus::Changed(_) => 0,
        DiffStatus::Added => 1,
        DiffStatus::Removed => 2,
    }
}

impl DiffStatus {
    /// Orders statuses by section; all changes are one section.
    pub fn compare(&self, other: &DiffStatus) -> (o: Order)
        ensures
            o == int_order(status_rank(*self), status_rank(*other)),
    {
        let a: u8 = match self {
            DiffStatus::Changed(_) => 0,
            DiffStatus::Added => 1,
            DiffStatus::Removed => 2,
        };
        let b: u8 = match other {
            DiffStatus::Changed(_) => 0,
            DiffStatus::Added => 1,
            DiffStatus::Removed => 2,
        };
        if a < b {
            Order::Less
        } else if a == b {
            Order::Equal
        } else {
            Order::Greater
        }
    }

    /// The letter shown for the status.
    pub fn symbol(self) -> (c: char)
        ensures
            c == status_symbol(self),
    {
        match self {
            DiffStatus::Changed(Change::UpgradeDowngrade) => 'C',
            DiffStatus::Changed(Change::Upgraded) => 'U',
            DiffStatus::Changed(Change::Downgraded) => 'D',
            DiffStatus::Added => 'A',
            DiffStatus::Removed => 'R',
        }
    }

    /// The style the letter is shown in.
    pub fn style(self) -> (s: Style)
        ensures
            s == status_style(self),
    {
        let color = match self {
            DiffStatus::Changed(Change::UpgradeDowngrade) => Color::Yellow,
            DiffStatus::Changed(Change::Upgraded) => Color::BrightCyan,
            DiffStatus::Changed(Change::Downgraded) => Color::Magenta,
            DiffStatus::Added => Color::Green,
            DiffStatus::Removed => Color::Red,
        };
        Style { color, bold: true, italic: false }
    }
}

pub open spec fn status_symbol(s: DiffStatus) -> char {
    match s {
        DiffStatus::Changed(Change::UpgradeDowngrade) => 'C',
        DiffStatus::Changed(Change::Upgraded) => 'U',
        DiffStatus::Changed(Change::Downgraded) => 'D',
        DiffStatus::Added => 'A',
        DiffStatus::Removed => 'R',
    }
}

pub open spec fn status_style(s: DiffStatus) -> Style {
    Style {
        color: match s {
            DiffStatus::Changed(Change::UpgradeDowngrade) => Color::Yellow,
            DiffStatus::Changed(Change::Upgraded) => Color::BrightCyan,
            DiffStatus::Changed(Change::Downgraded) => Color::Magenta,
            DiffStatus::Added => Color::Green,
            DiffStatus::Removed => Color::Red,
        },
        bold: true,
        italic: false,
    }
}

/// Whether `name` is one of `names`.
pub open spec fn names_contain(names: Seq<String>, name: Seq<char>) -> bool {
    exists|i: int| 0 <= i < names.len() && #[trigger] names[i]@ == name
}

pub open spec fn selection_of(was: bool, is: bool) -> DerivationSelectionStatus {
    if was && is {
        DerivationSelectionStatus::Selected
    } else if was {
        DerivationSelectionStatus::NewlyUnselected
    } else if is {
        DerivationSelectionStatus::NewlySelected
    } else {
        DerivationSelectionStatus::Unselected
    }
}

/// Whether `name` is one of `names`.
pub fn contains_name(names: &[String], name: &str) -> (b: bool)
    ensures
        b == names_contain(names@, name@),
{
    let mut i: usize = 0;
    while i < names.len()
        invariant
            i <= names@.len(),
            forall|k: int| 0 <= k < i ==> names@[k]@ != name@,
        decreases names@.len() - i,
    {
        if str_eq(names[i].as_str(), name) {
            return true;
        }
        i = i + 1;
    }
    false
}

/// A package's mark follows whether it is a system package before and after:
/// one that became a system package is newly selected (`+`), one that stopped
/// being one is newly unselected (`-`), one that is one on both sides is
/// selected (`*`) and one that is one on neither side is unselected (`.`).
pub proof fn law_selection_follows_system_packages(old: Seq<String>, new: Seq<String>, name: Seq<char>)
    ensures
        (forall|i: int| 0 <= i < old.len() ==> #[trigger] old[i]@ != name) && (exists|j: int|
            0 <= j < new.len() && #[trigger] new[j]@ == name) ==> selection_of(
            names_contain(old, name),
            names_contain(new, name),
        ) == DerivationSelectionStatus::NewlySelected,
        (exists|i: int| 0 <= i < old.len() && #[trigger] old[i]@ == name) && (forall|j: int|
            0 <= j < new.len() ==> #[trigger] new[j]@ != name) ==> selection_of(
            names_contain(old, name),
            names_contain(new, name),
        ) == DerivationSelectionStatus::NewlyUnselected,
        (exists|i: int| 0 <= i < old.len() && #[trigger] old[i]@ == name) && (exists|j: int|
            0 <= j < new.len() && #[trigger] new[j]@ == name) ==> selection_of(
            names_contain(old, name),
            names_contain(new, name),
        ) == DerivationSelectionStatus::Selected,
        (forall|i: int| 0 <= i < old.len() ==> #[trigger] old[i]@ != name) && (forall|j: int|
            0 <= j < new.len() ==> #[trigger] new[j]@ != name) ==> selection_of(
            names_contain(old, name),
            names_contain(new, name),
        ) == DerivationSelectionStatus::Unselected,
{
}

impl DerivationSelectionStatus {
    /// The status of `name` from the system packages before and after.
    pub fn from_names(name: &str, old: &[String], new: &[String]) -> (s: DerivationSelectionStatus)
        ensures
            s == selection_of(names_contain(old@, name@), names_contain(new@, name@)),
            names_contain(old@, name@) && names_contain(new@, name@) ==> s == DerivationSelectionStatus::Selected,
            !names_contain(old@, name@) && names_contain(new@, name@) ==> s == DerivationSelectionStatus::NewlySelected,
            names_contain(old@, name@) && !names_contain(new@, name@) ==> s == DerivationSelectionStatus::NewlyUnselected,
            !names_contain(old@, name@) && !names_contain(new@, name@) ==> s == DerivationSelectionStatus::Unselected,
    {
        proof {
            law_selection_follows_system_packages(old@, new@, name@);
        }
        match (contains_name(old, name), contains_name(new, name)) {
            (true, true) => DerivationSelectionStatus::Selected,
            (true, false) => DerivationSelectionStatus::NewlyUnselected,
            (false, true) => DerivationSelectionStatus::NewlySelected,
            (false, false) => DerivationSelectionStatus::Unselected,
        }
    }

    /// The mark shown for the status.
    pub fn symbol(self) -> (c: char)
        ensures
            c == selection_symbol(self),
    {
        match self {
            DerivationSelectionStatus::Selected => '*',
            DerivationSelectionStatus::NewlySelected => '+',
            DerivationSelectionStatus::Unselected => '.',
            DerivationSelectionStatus::NewlyUnselected => '-',
        }
    }

    /// The style of the mark, which the package name is shown in too.
    pub fn style(self) -> (s: Style)
        ensures
            s == selection_style(self),
    {
        let bold = match self {
            DerivationSelectionStatus::Selected => true,
            DerivationSelectionStatus::NewlySelected => true,
            _ => false,
        };
        Style { color: Color::Plain, bold, italic: false }
    }
}

pub open spec fn selection_symbol(s: DerivationSelectionStatus) -> char {
    match s {
        DerivationSelectionStatus::Selected => '*',
        DerivationSelectionStatus::NewlySelected => '+',
        DerivationSelectionStatus::Unselected => '.',
        DerivationSelectionStatus::NewlyUnselected => '-',
    }
}

pub open spec fn selection_style(s: DerivationSelectionStatus) -> Style {
    Style {
        color: Color::Plain,
        bold: s is Selected || s is NewlySelected,
        italic: false,
    }
}

/// The difference of one package between the two closures.
#[derive(Debug)]
pub struct Diff {
    pub name: String,
    pub old: Vec<Version>,
    pub new: Vec<Version>,
    pub status: DiffStatus,
    pub selection: DerivationSelectionStatus,
    pub has_common_versions: bool,
}

pub struct DiffView {
    pub name: Seq<char>,
    pub old: Seq<VersionView>,
    pub new: Seq<VersionView>,
    pub status: DiffStatus,
    pub selection: DerivationSelectionStatus,
    pub has_common_versions: bool,
}

impl View for Diff {
    type V = DiffView;

    open spec fn view(&self) -> DiffView {
        DiffView {
            name: self.name@,
            old: version_views(self.old@),
            new: version_views(self.new@),
            status: self.status,
            selection: self.selection,
            has_common_versions: self.has_common_versions,
        }
    }
}

pub open spec fn diff_views(s: Seq<Diff>) -> Seq<DiffView> {
    s.map_values(|d: Diff| d@)
}

impl Default for Diff {
    fn default() -> (d: Diff)
        ensures
            d.name@ == Seq::<char>::empty(),
            d.old@.len() == 0,
            d.new@.len() == 0,
            d.status == DiffStatus::Changed(Change::UpgradeDowngrade),
            d.selection == DerivationSelectionStatus::Unselected,
            !d.has_common_versions,
    {
        Diff {
            name: String::new(),
            old: Vec::new(),
            new: Vec::new(),
            status: DiffStatus::Changed(Change::UpgradeDowngrade),
            selection: DerivationSelectionStatus::Unselected,
            has_common_versions: false,
        }
    }
}

/// Whether two version lists hold the same versions in the same order.
pub fn same_versions(a: &Vec<Version>, b: &Vec<Version>) -> (r: bool)
    ensures
        r == (version_views(a@) == version_views(b@)),
{
    if a.len() != b.len() {
        proof {
            assert(version_views(a@).len() != version_views(b@).len());
        }
        return false;
    }
    let mut i: usize = 0;
    while i < a.len()
        invariant
            a@.len() == b@.len(),
            i <= a@.len(),
            forall|k: int| 0 <= k < i ==> a@[k]@ == b@[k]@,
        decreases a@.len() - i,
    {
        if !a[i].same(&b[i]) {
            proof {
                assert(version_views(a@)[i as int] != version_views(b@)[i as int]);
            }
            return false;
        }
        i = i + 1;
    }
    proof {
        assert(version_views(a@) =~= version_views(b@));
    }
    true
}

impl Diff {
    /// Whether two diffs agree in every field.
    pub fn same(&self, other: &Diff) -> (r: bool)
        ensures
            r == (self@ == other@),
    {
        let r = str_eq(self.name.as_str(), other.name.as_str()) && same_versions(&self.old, &other.old)
            && same_versions(&self.new, &other.new) && self.status == other.status && self.selection
            == other.selection && self.has_common_versions == other.has_common_versions;
        r
    }
}

impl PartialEq for Diff {
    fn eq(&self, other: &Diff) -> (r: bool) {
        self.same(other)
    }
}

impl vstd::std_specs::cmp::PartialEqSpecImpl for Diff {
    open spec fn obeys_eq_spec() -> bool {
        true
    }

    open spec fn eq_spec(&self, other: &Diff) -> bool {
        self@ == other@
    }
}


/// How many of the versions are named `name`.
pub open spec fn name_count(s: Seq<VersionView>, name: Seq<char>) -> nat
    decreases s.len(),
{
    if s.len() == 0 {
        0
    } else {
        name_count(s.drop_last(), name) + if s.last().0 == name {
            1nat
        } else {
            0nat
        }
    }
}

/// Each name of the versions once, in the order it first occurs, with how
/// many of the versions have it.
pub open spec fn name_counts(s: Seq<VersionView>) -> Seq<VersionView>
    decreases s.len(),
{
    if s.len() == 0 {
        seq![]
    } else {
        let r = name_counts(s.drop_last());
        let i = crate::closure::key_index(r, s.last().0);
        if i >= 0 {
            r.update(i, (s.last().0, r[i].1 + 1))
        } else {
            r.push((s.last().0, 1nat))
        }
    }
}

/// The versions with each name once, counting how many versions have it,
/// sorted; a list of at most one version is left as it is.
pub open spec fn deduplicated(s: Seq<VersionView>) -> Seq<VersionView> {
    if s.len() <= 1 {
        s
    } else {
        sorted_versions(name_counts(s))
    }
}

/// No two versions of the list share a name.
pub open spec fn names_distinct(s: Seq<VersionView>) -> bool {
    forall|i: int, j: int| 0 <= i < j < s.len() ==> (#[trigger] s[i]).0 != (#[trigger] s[j]).0
}

proof fn lemma_name_counts(s: Seq<VersionView>)
    ensures
        names_distinct(name_counts(s)),
        name_counts(s).len() <= s.len(),
        forall|i: int|
            0 <= i < name_counts(s).len() ==> (#[trigger] name_counts(s)[i]).1 == name_count(s, name_counts(s)[i].0)
                && has_name(s, name_counts(s)[i].0),
        forall|j: int| 0 <= j < s.len() ==> has_name(name_counts(s), (#[trigger] s[j]).0),
    decreases s.len(),
{
    if s.len() > 0 {
        let p = s.drop_last();
        lemma_name_counts(p);
        let r = name_counts(p);
        let x = s.last().0;
        let i = crate::closure::key_index(r, x);
        crate::closure::lemma_key_index(r, x);
        let u = name_counts(s);
        assert forall|k: int| 0 <= k < u.len() implies (#[trigger] u[k]).1 == name_count(s, u[k].0) && has_name(s, u[k].0) by {
            if k < r.len() {
                assert(u[k].0 == r[k].0);
                assert(has_name(p, r[k].0));
                let j = choose|j: int| 0 <= j < p.len() && #[trigger] p[j].0 == r[k].0;
                assert(s[j].0 == r[k].0);
            } else {
                assert(u[k].0 == x);
                assert(s[s.len() - 1].0 == x);
                if name_count(p, x) > 0 {
                    lemma_name_count_has(p, x);
                    let j = choose|j: int| 0 <= j < p.len() && #[trigger] p[j].0 == x;
                    assert(has_name(r, p[j].0));
                    let m = choose|m: int| 0 <= m < r.len() && #[trigger] r[m].0 == p[j].0;
                    assert(r[m].0 == x);
                }
            }
        }
        assert forall|j: int| 0 <= j < s.len() implies has_name(u, (#[trigger] s[j]).0) by {
            if j < p.len() {
                assert(p[j] == s[j]);
                assert(has_name(r, p[j].0));
                let m = choose|m: int| 0 <= m < r.len() && #[trigger] r[m].0 == p[j].0;
                assert(u[m].0 == r[m].0);
            } else if i >= 0 {
                assert(u[i].0 == x);
            } else {
                assert(u[r.len() as int].0 == x);
            }
        }
        assert forall|a: int, b: int| 0 <= a < b < u.len() implies (#[trigger] u[a]).0 != (#[trigger] u[b]).0 by {
            if b < r.len() {
                assert(u[a].0 == r[a].0 && u[b].0 == r[b].0);
            } else {
                assert(u[a].0 == r[a].0);
            }
        }
    }
}

proof fn lemma_name_count_has(s: Seq<VersionView>, x: Seq<char>)
    requires
        name_count(s, x) > 0,
    ensures
        has_name(s, x),
    decreases s.len(),
{
    if s.len() > 0 {
        if s.last().0 == x {
            assert(s[s.len() - 1].0 == x);
        } else {
            lemma_name_count_has(s.drop_last(), x);
            let j = choose|j: int| 0 <= j < s.drop_last().len() && #[trigger] s.drop_last()[j].0 == x;
            assert(s[j].0 == x);
        }
    }
}

/// Sorting keeps every version and adds none.
proof fn lemma_sorted_versions_same(t: Seq<VersionView>)
    ensures
        sorted_versions(t).len() == t.len(),
        forall|x: VersionView|
            #![trigger sorted_versions(t).contains(x)]
            #![trigger t.contains(x)]
            sorted_versions(t).contains(x) <==> t.contains(x),
        names_distinct(t) ==> names_distinct(sorted_versions(t)),
    decreases t.len(),
{
    let after = |a: VersionView, b: VersionView| crate::sorting::version_after(a, b);
    crate::sorting::lemma_insertion_sorted_len(t, after);
    assert forall|x: VersionView| sorted_versions(t).contains(x) implies t.contains(x) by {
        lemma_insertion_sorted_contains(t, after, x);
    }
    if t.len() > 0 {
        let p = t.drop_last();
        lemma_sorted_versions_same(p);
        let sp = sorted_versions(p);
        let x = t.last();
        crate::sorting::lemma_insert_pos_bound(sp, x, after);
        let q = crate::sorting::insert_pos(sp, x, after) as int;
        let r = sp.insert(q, x);
        assert(sorted_versions(t) == r);
        assert forall|y: VersionView| t.contains(y) implies r.contains(y) by {
            if y == x {
                assert(r[q] == y);
            } else {
                let j = choose|j: int| 0 <= j < t.len() && t[j] == y;
                assert(p[j] == y);
                assert(p.contains(y));
                let m = choose|m: int| 0 <= m < sp.len() && sp[m] == y;
                if m < q {
                    assert(r[m] == y);
                } else {
                    assert(r[m + 1] == y);
                }
            }
        }
        if names_distinct(t) {
            assert(names_distinct(p)) by {
                assert forall|a: int, b: int| 0 <= a < b < p.len() implies (#[trigger] p[a]).0 != (#[trigger] p[b]).0 by {
                    assert(p[a] == t[a] && p[b] == t[b]);
                }
            }
            assert forall|m: int| 0 <= m < sp.len() implies (#[trigger] sp[m]).0 != x.0 by {
                assert(sp.contains(sp[m]));
                assert(p.contains(sp[m]));
                let j = choose|j: int| 0 <= j < p.len() && p[j] == sp[m];
                assert(t[j] == p[j]);
                assert(t[t.len() - 1] == x);
            }
            assert forall|a: int, b: int| 0 <= a < b < r.len() implies (#[trigger] r[a]).0 != (#[trigger] r[b]).0 by {
                if b < q {
                    assert(r[a] == sp[a] && r[b] == sp[b]);
                } else if a > q {
                    assert(r[a] == sp[a - 1] && r[b] == sp[b - 1]);
                } else if a < q && b > q {
                    assert(r[a] == sp[a] && r[b] == sp[b - 1]);
                } else if a == q {
                    assert(r[b] == sp[b - 1]);
                } else {
                    assert(r[a] == sp[a]);
                }
            }
        }
    }
}

/// Deduplicating names each version once: the result holds every name of
/// two or more versions exactly once, each with how many of the versions
/// have it.
pub proof fn law_deduplicated_names_once(s: Seq<VersionView>)
    requires
        s.len() >= 2,
    ensures
        names_distinct(deduplicated(s)),
        forall|i: int| 0 <= i < deduplicated(s).len() ==> (#[trigger] deduplicated(s)[i]).1 == name_count(s, deduplicated(s)[i].0)
            && has_name(s, deduplicated(s)[i].0),
        forall|j: int| 0 <= j < s.len() ==> has_name(deduplicated(s), (#[trigger] s[j]).0),
{
    let t = name_counts(s);
    lemma_name_counts(s);
    lemma_sorted_versions_same(t);
    let d = deduplicated(s);
    assert(d == sorted_versions(t));
    assert forall|i: int| 0 <= i < d.len() implies (#[trigger] d[i]).1 == name_count(s, d[i].0) && has_name(s, d[i].0) by {
        assert(d.contains(d[i]));
        assert(t.contains(d[i]));
        let k = choose|k: int| 0 <= k < t.len() && t[k] == d[i];
        assert(t[k].1 == name_count(s, t[k].0));
    }
    assert forall|j: int| 0 <= j < s.len() implies has_name(d, (#[trigger] s[j]).0) by {
        assert(has_name(t, s[j].0));
        let k = choose|k: int| 0 <= k < t.len() && #[trigger] t[k].0 == s[j].0;
        assert(t.contains(t[k]));
        assert(d.contains(t[k]));
        let m = choose|m: int| 0 <= m < d.len() && d[m] == t[k];
        assert(d[m].0 == s[j].0);
    }
}

/// Deduplicated versions come out in order, as long as no numeric component
/// of a version is past `u64::MAX` and none is `pre`.
pub proof fn law_deduplicated_in_order(s: Seq<VersionView>)
    requires
        s.len() >= 2,
        forall|i: int|
            0 <= i < s.len() ==> crate::version::plain_components(crate::version::components_of((#[trigger] s[i]).0)),
    ensures
        forall|i: int, j: int|
            0 <= i < j < deduplicated(s).len() ==> crate::version::version_order(
                (#[trigger] deduplicated(s)[i]).0,
                (#[trigger] deduplicated(s)[j]).0,
            ) != Order::Greater,
{
    let t = name_counts(s);
    lemma_name_counts(s);
    assert forall|k: int| 0 <= k < t.len() implies crate::version::plain_components(
        crate::version::components_of((#[trigger] t[k]).0),
    ) by {
        let j = choose|j: int| 0 <= j < s.len() && #[trigger] s[j].0 == t[k].0;
    }
    crate::sorting::law_sorted_versions_are_in_order(t);
}

/// Counts each name of the versions once and sorts the result: `1.0, 2.3,
/// 1.0` becomes `1.0 ×2, 2.3`. A list of at most one version is left alone.
pub fn deduplicate_versions(versions: &mut Vec<Version>)
    ensures
        version_views(final(versions)@) == deduplicated(version_views(old(versions)@)),
{
    if versions.len() <= 1 {
        return;
    }
    let n = versions.len();
    let ghost input = version_views(versions@);
    let mut out: Vec<Version> = Vec::new();
    let mut k: usize = 0;
    while k < n
        invariant
            k <= n,
            n == versions@.len(),
            input == version_views(versions@),
            version_views(out@) == name_counts(input.take(k as int)),
            forall|i: int| 0 <= i < out@.len() ==> #[trigger] out@[i].amount <= k,
        decreases n - k,
    {
        let name = versions[k].name.as_str();
        let ghost cur = version_views(out@);
        proof {
            assert(input.take(k + 1).drop_last() == input.take(k as int));
            assert(input.take(k + 1).last().0 == name@);
        }
        let mut i: usize = 0;
        while i < out.len() && !str_eq(out[i].name.as_str(), name)
            invariant
                i <= out@.len(),
                cur == version_views(out@),
                crate::closure::key_index(cur.take(i as int), name@) < 0,
            decreases out@.len() - i,
        {
            proof {
                assert(cur.take(i + 1).drop_last() == cur.take(i as int));
                assert(cur.take(i + 1).last() == cur[i as int]);
            }
            i = i + 1;
        }
        if i < out.len() {
            proof {
                assert(cur.take(i + 1).drop_last() == cur.take(i as int));
                assert(cur.take(i + 1).last() == cur[i as int]);
                crate::closure::lemma_key_index_prefix(cur, name@, i + 1);
            }
            let bumped = Version { name: out[i].name.as_str().to_owned(), amount: out[i].amount + 1 };
            out.set(i, bumped);
            proof {
                assert(version_views(out@) =~= cur.update(i as int, (name@, cur[i as int].1 + 1)));
            }
        } else {
            proof {
                assert(cur.take(i as int) == cur);
            }
            out.push(Version { name: name.to_owned(), amount: 1 });
            proof {
                assert(version_views(out@) =~= cur.push((name@, 1nat)));
            }
        }
        k = k + 1;
    }
    proof {
        assert(input.take(n as int) == input);
    }
    sort_versions(&mut out);
    *versions = out;
}

/// The versions of `a` that `b` does not hold, in order.
pub open spec fn only_in(a: Seq<VersionView>, b: Seq<VersionView>) -> Seq<VersionView> {
    a.filter(|v: VersionView| !b.contains(v))
}

/// Whether the two lists share a version.
pub open spec fn shares_version(a: Seq<VersionView>, b: Seq<VersionView>) -> bool {
    exists|i: int| 0 <= i < a.len() && b.contains(#[trigger] a[i])
}

/// Whether some pair of the pairing moves up (or the new side has a version
/// left over), and whether some pair moves down (or the old side has one).
pub open spec fn saw_upgrade(p: Seq<EitherOrBoth<VersionView>>) -> bool {
    exists|k: int| 0 <= k < p.len() && #[trigger] upgrade_entry(p[k])
}

pub open spec fn saw_downgrade(p: Seq<EitherOrBoth<VersionView>>) -> bool {
    exists|k: int| 0 <= k < p.len() && #[trigger] downgrade_entry(p[k])
}

pub open spec fn upgrade_entry(e: EitherOrBoth<VersionView>) -> bool {
    match e {
        EitherOrBoth::Left(_) => false,
        EitherOrBoth::Right(_) => true,
        EitherOrBoth::Both(a, b) => version_order(a.0, b.0) == Order::Less,
    }
}

pub open spec fn downgrade_entry(e: EitherOrBoth<VersionView>) -> bool {
    match e {
        EitherOrBoth::Left(_) => true,
        EitherOrBoth::Right(_) => false,
        EitherOrBoth::Both(a, b) => version_order(a.0, b.0) == Order::Greater,
    }
}

pub open spec fn change_of(up: bool, down: bool) -> Option<DiffStatus> {
    if up && down {
        Some(DiffStatus::Changed(Change::UpgradeDowngrade))
    } else if up {
        Some(DiffStatus::Changed(Change::Upgraded))
    } else if down {
        Some(DiffStatus::Changed(Change::Downgraded))
    } else {
        None
    }
}

/// The change between two version lists: with nothing on one side it is an
/// upgrade or a downgrade; with one version on each side their order decides;
/// otherwise the pairs of the best pairing decide, and both directions make a
/// mixed change. No direction at all is no change.
pub open spec fn change_status(old: Seq<VersionView>, new: Seq<VersionView>) -> Option<DiffStatus> {
    if old.len() == 0 {
        Some(DiffStatus::Changed(Change::Upgraded))
    } else if new.len() == 0 {
        Some(DiffStatus::Changed(Change::Downgraded))
    } else if old.len() == 1 && new.len() == 1 {
        match version_order(old[0].0, new[0].0) {
            Order::Less => Some(DiffStatus::Changed(Change::Upgraded)),
            Order::Greater => Some(DiffStatus::Changed(Change::Downgraded)),
            Order::Equal => None,
        }
    } else {
        let p = version_pairing(old, new);
        change_of(saw_upgrade(p), saw_downgrade(p))
    }
}

/// Whether every version of `old` orders below every version of `new`.
pub open spec fn all_below(old: Seq<VersionView>, new: Seq<VersionView>) -> bool {
    forall|i: int, j: int|
        0 <= i < old.len() && 0 <= j < new.len() ==> #[trigger] version_order(old[i].0, new[j].0) == Order::Less
}

/// Whether every version of `old` orders above every version of `new`.
pub open spec fn all_above(old: Seq<VersionView>, new: Seq<VersionView>) -> bool {
    forall|i: int, j: int|
        0 <= i < old.len() && 0 <= j < new.len() ==> #[trigger] version_order(old[i].0, new[j].0) == Order::Greater
}

/// Every entry of a pairing goes up: a new version alone, or an old version
/// paired with a new one that orders above it.
pub open spec fn all_steps_up(p: Seq<EitherOrBoth<VersionView>>) -> bool {
    forall|k: int|
        0 <= k < p.len() ==> !(#[trigger] p[k] is Left) && (p[k] matches EitherOrBoth::Both(a, b) ==> version_order(
            a.0,
            b.0,
        ) == Order::Less)
}

/// Every entry of a pairing goes down: an old version alone, or an old
/// version paired with a new one that orders below it.
pub open spec fn all_steps_down(p: Seq<EitherOrBoth<VersionView>>) -> bool {
    forall|k: int|
        0 <= k < p.len() ==> !(#[trigger] p[k] is Right) && (p[k] matches EitherOrBoth::Both(a, b) ==> version_order(
            a.0,
            b.0,
        ) == Order::Greater)
}

/// A pairing whose every entry goes up is an upgrade, one whose every entry
/// goes down is a downgrade, and one with an entry going each way is both.
pub proof fn law_pairing_steps(p: Seq<EitherOrBoth<VersionView>>, up: int, down: int)
    ensures
        p.len() > 0 && all_steps_up(p) ==> change_of(saw_upgrade(p), saw_downgrade(p)) == Some(
            DiffStatus::Changed(Change::Upgraded),
        ),
        p.len() > 0 && all_steps_down(p) ==> change_of(saw_upgrade(p), saw_downgrade(p)) == Some(
            DiffStatus::Changed(Change::Downgraded),
        ),
        0 <= up < p.len() && 0 <= down < p.len() && (p[up] is Right || (p[up] matches EitherOrBoth::Both(a, b)
            && version_order(a.0, b.0) == Order::Less)) && (p[down] is Left || (p[down] matches EitherOrBoth::Both(
            a,
            b,
        ) && version_order(a.0, b.0) == Order::Greater)) ==> change_of(saw_upgrade(p), saw_downgrade(p)) == Some(
            DiffStatus::Changed(Change::UpgradeDowngrade),
        ),
{
    if p.len() > 0 && all_steps_up(p) {
        assert(upgrade_entry(p[0]));
        assert(!saw_downgrade(p)) by {
            if saw_downgrade(p) {
                let k = choose|k: int| 0 <= k < p.len() && #[trigger] downgrade_entry(p[k]);
                assert(!(p[k] is Left));
            }
        }
    }
    if p.len() > 0 && all_steps_down(p) {
        assert(downgrade_entry(p[0]));
        assert(!saw_upgrade(p)) by {
            if saw_upgrade(p) {
                let k = choose|k: int| 0 <= k < p.len() && #[trigger] upgrade_entry(p[k]);
                assert(!(p[k] is Right));
            }
        }
    }
    if 0 <= up < p.len() && 0 <= down < p.len() {
        if p[up] is Right || (p[up] matches EitherOrBoth::Both(a, b) && version_order(a.0, b.0) == Order::Less) {
            assert(upgrade_entry(p[up]));
        }
        if p[down] is Left || (p[down] matches EitherOrBoth::Both(a, b) && version_order(a.0, b.0)
            == Order::Greater) {
            assert(downgrade_entry(p[down]));
        }
    }
}

/// In any pairing of an old version list with a new one, no shorter, that
/// pairs every old version (each version on its side once), a new list that
/// lies wholly above the old one makes an upgrade; symmetrically, a new list
/// no longer than the old one that lies wholly below it makes a downgrade.
pub proof fn law_pairing_direction(
    old: Seq<VersionView>,
    new: Seq<VersionView>,
    p: Seq<EitherOrBoth<VersionView>>,
)
    requires
        left_sides(p).to_multiset() == old.to_multiset(),
        right_sides(p).to_multiset() == new.to_multiset(),
        both_count(p) == if old.len() <= new.len() {
            old.len()
        } else {
            new.len()
        },
    ensures
        0 < new.len() && old.len() <= new.len() && all_below(old, new) ==> change_of(
            saw_upgrade(p),
            saw_downgrade(p),
        ) == Some(DiffStatus::Changed(Change::Upgraded)),
        0 < old.len() && new.len() <= old.len() && all_above(old, new) ==> change_of(
            saw_upgrade(p),
            saw_downgrade(p),
        ) == Some(DiffStatus::Changed(Change::Downgraded)),
{
    broadcast use vstd::seq_lib::group_to_multiset_ensures;

    crate::matching::lemma_side_counts(p);
    assert(left_sides(p).to_multiset().len() == left_sides(p).len());
    assert(right_sides(p).to_multiset().len() == right_sides(p).len());
    assert(old.to_multiset().len() == old.len());
    assert(new.to_multiset().len() == new.len());
    assert forall|k: int| 0 <= k < p.len() implies (#[trigger] p[k] matches EitherOrBoth::Left(a) ==> old.contains(a)) && (
    p[k] matches EitherOrBoth::Right(b) ==> new.contains(b)) && (p[k] matches EitherOrBoth::Both(a, b)
        ==> old.contains(a) && new.contains(b)) by {
        crate::matching::lemma_entry_on_its_sides(p, k);
        match p[k] {
            EitherOrBoth::Left(a) => {
                assert(left_sides(p).to_multiset().count(a) > 0);
            },
            EitherOrBoth::Right(b) => {
                assert(right_sides(p).to_multiset().count(b) > 0);
            },
            EitherOrBoth::Both(a, b) => {
                assert(left_sides(p).to_multiset().count(a) > 0);
                assert(right_sides(p).to_multiset().count(b) > 0);
            },
        }
    }
    if 0 < new.len() && old.len() <= new.len() && all_below(old, new) {
        assert(!saw_downgrade(p)) by {
            if saw_downgrade(p) {
                let k = choose|k: int| 0 <= k < p.len() && #[trigger] downgrade_entry(p[k]);
                assert(!(p[k] is Left));
                match p[k] {
                    EitherOrBoth::Both(a, b) => {
                        let i = choose|i: int| 0 <= i < old.len() && old[i] == a;
                        let j = choose|j: int| 0 <= j < new.len() && new[j] == b;
                        assert(version_order(old[i].0, new[j].0) == Order::Less);
                    },
                    _ => {},
                }
            }
        }
        let k = choose|k: int| 0 <= k < p.len() && !(#[trigger] p[k] is Left);
        match p[k] {
            EitherOrBoth::Both(a, b) => {
                let i = choose|i: int| 0 <= i < old.len() && old[i] == a;
                let j = choose|j: int| 0 <= j < new.len() && new[j] == b;
                assert(version_order(old[i].0, new[j].0) == Order::Less);
                assert(upgrade_entry(p[k]));
            },
            _ => {
                assert(upgrade_entry(p[k]));
            },
        }
    }
    if 0 < old.len() && new.len() <= old.len() && all_above(old, new) {
        assert(!saw_upgrade(p)) by {
            if saw_upgrade(p) {
                let k = choose|k: int| 0 <= k < p.len() && #[trigger] upgrade_entry(p[k]);
                assert(!(p[k] is Right));
                match p[k] {
                    EitherOrBoth::Both(a, b) => {
                        let i = choose|i: int| 0 <= i < old.len() && old[i] == a;
                        let j = choose|j: int| 0 <= j < new.len() && new[j] == b;
                        assert(version_order(old[i].0, new[j].0) == Order::Greater);
                    },
                    _ => {},
                }
            }
        }
        let k = choose|k: int| 0 <= k < p.len() && !(#[trigger] p[k] is Right);
        match p[k] {
            EitherOrBoth::Both(a, b) => {
                let i = choose|i: int| 0 <= i < old.len() && old[i] == a;
                let j = choose|j: int| 0 <= j < new.len() && new[j] == b;
                assert(version_order(old[i].0, new[j].0) == Order::Greater);
                assert(downgrade_entry(p[k]));
            },
            _ => {
                assert(downgrade_entry(p[k]));
            },
        }
    }
}

/// Determines whether the change from `old_versions` to `new_versions` is an
/// upgrade, a downgrade or both, or no change at all.
pub fn determine_change_status(old_versions: &[Version], new_versions: &[Version]) -> (r: Option<DiffStatus>)
    requires
        pairing_fits(version_views(old_versions@), version_views(new_versions@)),
    ensures
        r == change_status(version_views(old_versions@), version_views(new_versions@)),
        old_versions@.len() <= new_versions@.len() && all_below(
            version_views(old_versions@),
            version_views(new_versions@),
        ) ==> r == Some(DiffStatus::Changed(Change::Upgraded)),
        0 < old_versions@.len() && new_versions@.len() <= old_versions@.len() && all_above(
            version_views(old_versions@),
            version_views(new_versions@),
        ) ==> r == Some(DiffStatus::Changed(Change::Downgraded)),
        old_versions@.len() + new_versions@.len() > 2 && old_versions@.len() > 0 && new_versions@.len() > 0
            && all_steps_up(version_pairing(version_views(old_versions@), version_views(new_versions@)))
            ==> r == Some(DiffStatus::Changed(Change::Upgraded)),
        old_versions@.len() + new_versions@.len() > 2 && old_versions@.len() > 0 && new_versions@.len() > 0
            && all_steps_down(version_pairing(version_views(old_versions@), version_views(new_versions@)))
            ==> r == Some(DiffStatus::Changed(Change::Downgraded)),
{
    let ghost ov = version_views(old_versions@);
    let ghost nv = version_views(new_versions@);
    if old_versions.len() == 0 {
        return Some(DiffStatus::Changed(Change::Upgraded));
    }
    if new_versions.len() == 0 {
        return Some(DiffStatus::Changed(Change::Downgraded));
    }
    if old_versions.len() == 1 && new_versions.len() == 1 {
        assert(ov[0] == old_versions@[0]@ && nv[0] == new_versions@[0]@);
        match old_versions[0].compare(&new_versions[0]) {
            Order::Less => return Some(DiffStatus::Changed(Change::Upgraded)),
            Order::Greater => return Some(DiffStatus::Changed(Change::Downgraded)),
            Order::Equal => return None,
        }
    }
    let pairs = match_version_lists(old_versions, new_versions);
    let ghost p = pairing_views(pairs@);
    proof {
        law_pairing_direction(ov, nv, p);
        law_pairing_steps(p, 0, 0);
        assert(p.len() > 0) by {
            crate::matching::lemma_side_counts(p);
            broadcast use vstd::seq_lib::group_to_multiset_ensures;

            assert(left_sides(p).to_multiset().len() == left_sides(p).len());
            assert(ov.to_multiset().len() == ov.len());
            if p.len() == 0 {
                assert(left_sides(p).len() == 0);
            }
        }
    }
    let mut up = false;
    let mut down = false;
    let mut k: usize = 0;
    while k < pairs.len() && !(up && down)
        invariant
            k <= pairs@.len(),
            p == pairing_views(pairs@),
            up == (exists|j: int| 0 <= j < k && #[trigger] upgrade_entry(p[j])),
            down == (exists|j: int| 0 <= j < k && #[trigger] downgrade_entry(p[j])),
        decreases pairs@.len() - k,
    {
        assert(p[k as int] == entry_view(pairs@[k as int]));
        let ghost (up0, down0) = (up, down);
        match pairs[k] {
            EitherOrBoth::Left(_) => {
                down = true;
            },
            EitherOrBoth::Right(_) => {
                up = true;
            },
            EitherOrBoth::Both(a, b) => {
                match a.compare(b) {
                    Order::Less => {
                        up = true;
                    },
                    Order::Greater => {
                        down = true;
                    },
                    Order::Equal => {},
                }
            },
        }
        proof {
            assert(up == (up0 || upgrade_entry(p[k as int])));
            assert(down == (down0 || downgrade_entry(p[k as int])));
        }
        k = k + 1;
    }
    proof {
        if !(up && down) {
            assert(k == pairs@.len());
        }
    }
    if up && down {
        Some(DiffStatus::Changed(Change::UpgradeDowngrade))
    } else if up {
        Some(DiffStatus::Changed(Change::Upgraded))
    } else if down {
        Some(DiffStatus::Changed(Change::Downgraded))
    } else {
        None
    }
}


/// The diff of one package from its versions before and after, if it changed:
/// both lists are deduplicated, the versions they share are dropped from
/// each, and what is left decides the status.
pub open spec fn diff_of(name: Seq<char>, old: Seq<VersionView>, new: Seq<VersionView>) -> Option<DiffView> {
    let o = deduplicated(old);
    let n = deduplicated(new);
    let uo = only_in(o, n);
    let un = only_in(n, o);
    let common = shares_version(o, n);
    let status = if uo.len() == 0 && un.len() == 0 {
        None
    } else if !common && uo.len() == 0 {
        Some(DiffStatus::Added)
    } else if !common && un.len() == 0 {
        Some(DiffStatus::Removed)
    } else if uo.len() == 0 || un.len() == 0 {
        Some(DiffStatus::Changed(Change::UpgradeDowngrade))
    } else {
        change_status(uo, un)
    };
    match status {
        None => None,
        Some(st) => Some(
            DiffView {
                name,
                old: uo,
                new: un,
                status: st,
                selection: DerivationSelectionStatus::Unselected,
                has_common_versions: common,
            },
        ),
    }
}

pub type EntryView = (Seq<char>, Seq<VersionView>, Seq<VersionView>);

pub open spec fn entry_views(s: Seq<(String, (Vec<Version>, Vec<Version>))>) -> Seq<EntryView> {
    s.map_values(|e: (String, (Vec<Version>, Vec<Version>))| (e.0@, version_views(e.1.0@), version_views(e.1.1@)))
}

/// The diffs of the packages that changed, in the order of the entries.
pub open spec fn diffs_of(entries: Seq<EntryView>) -> Seq<DiffView>
    decreases entries.len(),
{
    if entries.len() == 0 {
        seq![]
    } else {
        let r = diffs_of(entries.drop_last());
        let e = entries.last();
        match diff_of(e.0, e.1, e.2) {
            Some(d) => r.push(d),
            None => r,
        }
    }
}

/// Whether some version of `s` has the name `x`.
pub open spec fn has_name(s: Seq<VersionView>, x: Seq<char>) -> bool {
    exists|j: int| 0 <= j < s.len() && #[trigger] s[j].0 == x
}

proof fn lemma_fits_weight_fewer(n: nat, m: nat, c: nat)
    requires
        crate::matching::fits_weight(n, c),
        m <= n,
    ensures
        crate::matching::fits_weight(m, c),
{
    assert(m * c <= n * c) by (nonlinear_arith)
        requires
            m <= n,
    ;
}

proof fn lemma_deduplicated_names(s: Seq<VersionView>)
    ensures
        deduplicated(s).len() <= s.len(),
        forall|i: int| 0 <= i < deduplicated(s).len() ==> has_name(s, #[trigger] deduplicated(s)[i].0),
{
    if s.len() <= 1 {
        assert forall|i: int| 0 <= i < deduplicated(s).len() implies has_name(s, #[trigger] deduplicated(s)[i].0) by {
            assert(s[i].0 == deduplicated(s)[i].0);
        }
    } else {
        lemma_name_counts(s);
        lemma_sorted_versions_same(name_counts(s));
        law_deduplicated_names_once(s);
    }
}

proof fn lemma_only_in_names(a: Seq<VersionView>, b: Seq<VersionView>)
    ensures
        only_in(a, b).len() <= a.len(),
        forall|i: int| 0 <= i < only_in(a, b).len() ==> has_name(a, #[trigger] only_in(a, b)[i].0),
{
    broadcast use vstd::seq_lib::group_filter_ensures;
    let pred = |v: VersionView| !b.contains(v);
    assert forall|i: int| 0 <= i < only_in(a, b).len() implies has_name(a, #[trigger] only_in(a, b)[i].0) by {
        let x = only_in(a, b)[i];
        assert(a.filter(pred).contains(x));
        a.lemma_filter_contains_rev(pred, x);
        let j = choose|j: int| 0 <= j < a.len() && a[j] == x;
        assert(a[j].0 == x.0);
    }
}

/// Lists made of versions named like those of lists that fit, and no longer
/// in all, fit too.
proof fn lemma_pairing_fits_names(o: Seq<VersionView>, n: Seq<VersionView>, o2: Seq<VersionView>, n2: Seq<VersionView>)
    requires
        pairing_fits(o, n),
        o2.len() + n2.len() <= o.len() + n.len(),
        forall|i: int| 0 <= i < o2.len() ==> has_name(o, #[trigger] o2[i].0) || has_name(n, o2[i].0),
        forall|i: int| 0 <= i < n2.len() ==> has_name(o, #[trigger] n2[i].0) || has_name(n, n2[i].0),
    ensures
        pairing_fits(o2, n2),
{
    let total = o.len() + n.len();
    assert forall|i: int| 0 <= i < o2.len() implies crate::matching::fits_weight(
        o2.len() + n2.len(),
        #[trigger] components_of(o2[i].0).len(),
    ) by {
        if has_name(o, o2[i].0) {
            let j = choose|j: int| 0 <= j < o.len() && #[trigger] o[j].0 == o2[i].0;
            assert(crate::matching::fits_weight(total, components_of(o[j].0).len()));
        } else {
            let j = choose|j: int| 0 <= j < n.len() && #[trigger] n[j].0 == o2[i].0;
            assert(crate::matching::fits_weight(total, components_of(n[j].0).len()));
        }
        lemma_fits_weight_fewer(total, o2.len() + n2.len(), components_of(o2[i].0).len());
    }
    assert forall|i: int| 0 <= i < n2.len() implies crate::matching::fits_weight(
        o2.len() + n2.len(),
        #[trigger] components_of(n2[i].0).len(),
    ) by {
        if has_name(o, n2[i].0) {
            let j = choose|j: int| 0 <= j < o.len() && #[trigger] o[j].0 == n2[i].0;
            assert(crate::matching::fits_weight(total, components_of(o[j].0).len()));
        } else {
            let j = choose|j: int| 0 <= j < n.len() && #[trigger] n[j].0 == n2[i].0;
            assert(crate::matching::fits_weight(total, components_of(n[j].0).len()));
        }
        lemma_fits_weight_fewer(total, o2.len() + n2.len(), components_of(n2[i].0).len());
    }
}

proof fn lemma_unique_lists_fit(old: Seq<VersionView>, new: Seq<VersionView>)
    requires
        pairing_fits(old, new),
    ensures
        pairing_fits(
            only_in(deduplicated(old), deduplicated(new)),
            only_in(deduplicated(new), deduplicated(old)),
        ),
{
    let o = deduplicated(old);
    let n = deduplicated(new);
    lemma_deduplicated_names(old);
    lemma_deduplicated_names(new);
    lemma_only_in_names(o, n);
    lemma_only_in_names(n, o);
    let uo = only_in(o, n);
    let un = only_in(n, o);
    assert forall|i: int| 0 <= i < uo.len() implies has_name(old, #[trigger] uo[i].0) || has_name(new, uo[i].0) by {
        let j = choose|j: int| 0 <= j < o.len() && #[trigger] o[j].0 == uo[i].0;
        assert(has_name(old, o[j].0));
    }
    assert forall|i: int| 0 <= i < un.len() implies has_name(old, #[trigger] un[i].0) || has_name(new, un[i].0) by {
        let j = choose|j: int| 0 <= j < n.len() && #[trigger] n[j].0 == un[i].0;
        assert(has_name(new, n[j].0));
    }
    lemma_pairing_fits_names(old, new, uo, un);
}

/// A copy of a version.
pub fn copy_version(v: &Version) -> (r: Version)
    ensures
        r@ == v@,
{
    Version { name: v.name.clone(), amount: v.amount }
}

/// Whether `v` is one of `vs`, by name and count.
pub fn holds_version(vs: &Vec<Version>, v: &Version) -> (b: bool)
    ensures
        b == version_views(vs@).contains(v@),
{
    let mut i: usize = 0;
    while i < vs.len()
        invariant
            i <= vs@.len(),
            forall|k: int| 0 <= k < i ==> vs@[k]@ != v@,
        decreases vs@.len() - i,
    {
        if vs[i].same(v) {
            assert(version_views(vs@)[i as int] == v@);
            return true;
        }
        i = i + 1;
    }
    proof {
        if version_views(vs@).contains(v@) {
            let k = choose|k: int| 0 <= k < vs@.len() && version_views(vs@)[k] == v@;
            assert(vs@[k]@ == v@);
        }
    }
    false
}

/// The versions of `a` that `b` does not hold.
pub fn versions_only_in(a: &Vec<Version>, b: &Vec<Version>) -> (r: Vec<Version>)
    ensures
        version_views(r@) == only_in(version_views(a@), version_views(b@)),
{
    let ghost av = version_views(a@);
    let ghost bv = version_views(b@);
    let ghost pred = |v: VersionView| !bv.contains(v);
    let mut r: Vec<Version> = Vec::new();
    let mut i: usize = 0;
    while i < a.len()
        invariant
            i <= a@.len(),
            av == version_views(a@),
            bv == version_views(b@),
            pred == (|v: VersionView| !bv.contains(v)),
            version_views(r@) == av.take(i as int).filter(pred),
        decreases a@.len() - i,
    {
        proof {
            assert(av.take(i + 1) == av.take(i as int).push(av[i as int]));
            av.take(i as int).lemma_filter_push(av[i as int], pred);
        }
        if !holds_version(b, &a[i]) {
            r.push(copy_version(&a[i]));
            assert(version_views(r@) =~= av.take(i as int).filter(pred).push(av[i as int]));
        }
        i = i + 1;
    }
    assert(av.take(a@.len() as int) == av);
    r
}

/// Whether the lists share a version.
pub fn share_version(a: &Vec<Version>, b: &Vec<Version>) -> (r: bool)
    ensures
        r == shares_version(version_views(a@), version_views(b@)),
{
    let mut i: usize = 0;
    while i < a.len()
        invariant
            i <= a@.len(),
            forall|k: int| 0 <= k < i ==> !version_views(b@).contains(#[trigger] version_views(a@)[k]),
        decreases a@.len() - i,
    {
        if holds_version(b, &a[i]) {
            assert(version_views(b@).contains(version_views(a@)[i as int]));
            return true;
        }
        i = i + 1;
    }
    false
}

/// The diff of one package, if it changed.
fn diff_entry(name: String, old: Vec<Version>, new: Vec<Version>) -> (r: Option<Diff>)
    requires
        pairing_fits(version_views(old@), version_views(new@)),
    ensures
        match r {
            Some(d) => diff_of(name@, version_views(old@), version_views(new@)) == Some(d@),
            None => diff_of(name@, version_views(old@), version_views(new@)) is None,
        },
{
    proof {
        lemma_unique_lists_fit(version_views(old@), version_views(new@));
    }
    let mut old = old;
    let mut new = new;
    deduplicate_versions(&mut old);
    deduplicate_versions(&mut new);
    let common = share_version(&old, &new);
    let unique_old = versions_only_in(&old, &new);
    let unique_new = versions_only_in(&new, &old);
    let status = if unique_old.len() == 0 && unique_new.len() == 0 {
        None
    } else if !common && unique_old.len() == 0 {
        Some(DiffStatus::Added)
    } else if !common && unique_new.len() == 0 {
        Some(DiffStatus::Removed)
    } else if unique_old.len() == 0 || unique_new.len() == 0 {
        Some(DiffStatus::Changed(Change::UpgradeDowngrade))
    } else {
        determine_change_status(unique_old.as_slice(), unique_new.as_slice())
    };
    match status {
        None => None,
        Some(status) => Some(
            Diff {
                name,
                old: unique_old,
                new: unique_new,
                status,
                selection: DerivationSelectionStatus::Unselected,
                has_common_versions: common,
            },
        ),
    }
}

/// Whether every entry's version lists are small enough to pair.
pub open spec fn entries_fit(entries: Seq<EntryView>) -> bool {
    forall|i: int| 0 <= i < entries.len() ==> pairing_fits(#[trigger] entries[i].1, entries[i].2)
}

/// The diffs of the packages that changed between the two closures, from
/// each package's name and its versions before and after: versions are
/// deduplicated, those on both sides dropped, and a package with nothing left
/// on either side is left out.
pub fn generate_diffs_from_paths(paths: Vec<(String, (Vec<Version>, Vec<Version>))>) -> (r: Vec<Diff>)
    requires
        entries_fit(entry_views(paths@)),
    ensures
        diff_views(r@) == diffs_of(entry_views(paths@)),
{
    let ghost input = entry_views(paths@);
    let mut paths = paths;
    let mut result: Vec<Diff> = Vec::new();
    let ghost mut taken: int = 0;
    while paths.len() > 0
        invariant
            0 <= taken <= input.len(),
            entry_views(paths@) == input.skip(taken),
            entries_fit(input),
            diff_views(result@) == diffs_of(input.take(taken)),
        decreases paths@.len(),
    {
        assert(input.skip(taken).len() == paths@.len());
        assert(entry_views(paths@)[0] == input[taken]);
        let (name, (old, new)) = paths.remove(0);
        proof {
            assert(input.skip(taken)[0] == input[taken]);
            assert(input[taken] == (name@, version_views(old@), version_views(new@)));
            assert(input.skip(taken).drop_first() == input.skip(taken + 1));
            assert(input.take(taken + 1).drop_last() == input.take(taken));
            assert(input.take(taken + 1).last() == input[taken]);
            assert(pairing_fits(input[taken].1, input[taken].2));
        }
        let ghost before = diff_views(result@);
        match diff_entry(name, old, new) {
            Some(d) => {
                result.push(d);
                assert(diff_views(result@) =~= before.push(d@));
            },
            None => {},
        }
        proof {
            taken = taken + 1;
        }
    }
    proof {
        assert(input.take(taken) == input);
    }
    result
}


pub open spec fn with_selection(d: DiffView, old: Seq<String>, new: Seq<String>) -> DiffView {
    DiffView {
        selection: selection_of(names_contain(old, d.name), names_contain(new, d.name)),
        ..d
    }
}

/// Marks each diff by whether its package is a system package before and
/// after: `Selected` in both, `NewlySelected` only after, `NewlyUnselected`
/// only before, `Unselected` in neither.
pub fn add_selection_status(diffs: &mut Vec<Diff>, system_paths_old: &[String], system_paths_new: &[String])
    ensures
        diff_views(final(diffs)@) == diff_views(old(diffs)@).map_values(
            |d: DiffView| with_selection(d, system_paths_old@, system_paths_new@),
        ),
{
    let ghost input = diff_views(diffs@);
    let ghost f = |d: DiffView| with_selection(d, system_paths_old@, system_paths_new@);
    let mut out: Vec<Diff> = Vec::new();
    let ghost mut taken: int = 0;
    while diffs.len() > 0
        invariant
            0 <= taken <= input.len(),
            diff_views(diffs@) == input.skip(taken),
            diff_views(out@) == input.take(taken).map_values(f),
            f == (|d: DiffView| with_selection(d, system_paths_old@, system_paths_new@)),
        decreases diffs@.len(),
    {
        assert(input.skip(taken).len() == diffs@.len());
        assert(diff_views(diffs@)[0] == input[taken]);
        let mut d = diffs.remove(0);
        d.selection = DerivationSelectionStatus::from_names(d.name.as_str(), system_paths_old, system_paths_new);
        let ghost before = diff_views(out@);
        out.push(d);
        proof {
            assert(input.skip(taken).drop_first() == input.skip(taken + 1));
            assert(input.take(taken + 1) == input.take(taken).push(input[taken]));
            assert(diff_views(out@) =~= before.push(f(input[taken])));
            assert(input.take(taken + 1).map_values(f) =~= input.take(taken).map_values(f).push(f(input[taken])));
            taken = taken + 1;
        }
    }
    proof {
        assert(input.take(taken) == input);
    }
    *diffs = out;
}

/// One diff goes after another when its section comes later, or, in one
/// section, when its name orders after the other's.
pub open spec fn diff_after(a: DiffView, b: DiffView) -> bool {
    status_rank(a.status) > status_rank(b.status) || (status_rank(a.status) == status_rank(b.status)
        && lex_order(a.name, b.name) == Order::Greater)
}

impl Ranked for Diff {
    type Key = DiffView;

    open spec fn key(&self) -> DiffView {
        self@
    }

    open spec fn after(a: DiffView, b: DiffView) -> bool {
        diff_after(a, b)
    }

    fn goes_after(&self, other: &Diff) -> (b: bool) {
        match self.status.compare(&other.status) {
            Order::Greater => true,
            Order::Less => false,
            Order::Equal => str_order(self.name.as_str(), other.name.as_str()) == Order::Greater,
        }
    }
}

pub open spec fn sorted_diffs(s: Seq<DiffView>) -> Seq<DiffView> {
    insertion_sorted(s, |a: DiffView, b: DiffView| diff_after(a, b))
}

/// Sorts diffs by section (changed, added, removed) and by name within each
/// section, keeping the order of diffs that tie.
pub fn sort_diffs(diffs: &mut Vec<Diff>)
    ensures
        diff_views(final(diffs)@) == sorted_diffs(diff_views(old(diffs)@)),
{
    insertion_sort(diffs);
    proof {
        assert(diff_views(diffs@) =~= keys(diffs@));
        assert(diff_views(old(diffs)@) =~= keys(old(diffs)@));
        assert(after_fn::<Diff>() == (|a: DiffView, b: DiffView| diff_after(a, b)));
    }
}


pub type SegView = (Seq<char>, Style);

pub type PieceView = (bool, Seq<char>);

/// One step of a character-level diff of two strings.
#[derive(Debug, Clone, Copy, PartialEq, Eq, Structural)]
pub enum CharDiff {
    /// A character only the left string has.
    Left(char),
    /// A character both strings share.
    Both(char, char),
    /// A character only the right string has.
    Right(char),
}

/// The steps `diff::chars` computes for two strings.
pub uninterp spec fn char_diff(left: Seq<char>, right: Seq<char>) -> Seq<CharDiff>;

/// The characters of the left string in a character diff.
pub open spec fn diff_lefts(d: Seq<CharDiff>) -> Seq<char>
    decreases d.len(),
{
    if d.len() == 0 {
        seq![]
    } else {
        diff_lefts(d.drop_last()) + match d.last() {
            CharDiff::Left(c) => seq![c],
            CharDiff::Both(c, _) => seq![c],
            CharDiff::Right(_) => seq![],
        }
    }
}

/// The characters of the right string in a character diff.
pub open spec fn diff_rights(d: Seq<CharDiff>) -> Seq<char>
    decreases d.len(),
{
    if d.len() == 0 {
        seq![]
    } else {
        diff_rights(d.drop_last()) + match d.last() {
            CharDiff::Left(_) => seq![],
            CharDiff::Both(_, c) => seq![c],
            CharDiff::Right(c) => seq![c],
        }
    }
}

/// The character diff of two strings by `diff::chars`.
///
/// What the crate's source shows of its result, which this contract states:
/// taking the left characters of its steps in order gives the left string,
/// taking the right ones gives the right string, and a shared step holds the
/// same character twice. Which of several shortest diffs it picks is left to
/// the name `char_diff`.
#[verifier::external_body]
fn diff_chars(left: &str, right: &str) -> (r: Vec<CharDiff>)
    ensures
        r@ == char_diff(left@, right@),
        diff_lefts(r@) == left@,
        diff_rights(r@) == right@,
        forall|k: int| 0 <= k < r@.len() ==> (#[trigger] r@[k] matches CharDiff::Both(a, b) ==> a == b),
{
    let mut r = Vec::new();
    for step in diff::chars(left, right) {
        r.push(
            match step {
                diff::Result::Left(c) => CharDiff::Left(c),
                diff::Result::Both(a, b) => CharDiff::Both(a, b),
                diff::Result::Right(c) => CharDiff::Right(c),
            },
        );
    }
    r
}

/// The display width of a string as `unicode_width::UnicodeWidthStr::width`
/// computes it.
pub uninterp spec fn unicode_width_of(s: Seq<char>) -> usize;

/// The display width of `s` by `unicode_width::UnicodeWidthStr::width`; the
/// contract names the result and says nothing more of it.
#[verifier::external_body]
fn text_width(s: &str) -> (w: usize)
    ensures
        w == unicode_width_of(s@),
{
    unicode_width::UnicodeWidthStr::width(s)
}

/// A piece of a version in a colour; separators are never coloured.
pub open spec fn piece_segment(p: PieceView, c: Color) -> SegView {
    if p.0 {
        (p.1, colored(c))
    } else {
        (p.1, plain())
    }
}

pub open spec fn pieces_in(ps: Seq<PieceView>, c: Color) -> Seq<SegView> {
    ps.map_values(|p: PieceView| piece_segment(p, c))
}

fn piece_segment_of(p: &VersionPiece, c: Color) -> (s: Segment)
    ensures
        s@ == piece_segment(p@, c),
{
    match p {
        VersionPiece::Component(x) => segment(x.0, color_style(c)),
        VersionPiece::Separator(x) => segment(x, color_style(Color::Plain)),
    }
}

/// The segments of a character diff: shared characters are yellow until the
/// first change, and after it red on the left and green on the right, as are
/// the characters of one side only.
pub open spec fn char_diff_segments(d: Seq<CharDiff>, active: bool) -> (Seq<SegView>, Seq<SegView>)
    decreases d.len(),
{
    if d.len() == 0 {
        (seq![], seq![])
    } else {
        let (o, n, a) = match d[0] {
            CharDiff::Both(l, r) => if active {
                (seq![(seq![l], colored(Color::Red))], seq![(seq![r], colored(Color::Green))], true)
            } else {
                (seq![(seq![l], colored(Color::Yellow))], seq![(seq![r], colored(Color::Yellow))], false)
            },
            CharDiff::Left(l) => (seq![(seq![l], colored(Color::Red))], seq![], true),
            CharDiff::Right(r) => (seq![], seq![(seq![r], colored(Color::Green))], true),
        };
        let rest = char_diff_segments(d.drop_first(), a);
        (o + rest.0, n + rest.1)
    }
}

/// Whether the two texts differ at every position they share.
pub open spec fn differ_throughout(a: Seq<char>, b: Seq<char>) -> bool {
    forall|i: int| 0 <= i < a.len() && i < b.len() ==> a[i] != b[i]
}

/// The segments of a pair of pieces: yellow when equal; for two components
/// more than 20 bytes long that differ at every position, red and green
/// whole; for other components a character diff; otherwise red and green.
pub open spec fn piece_pair_segments(op: PieceView, np: PieceView) -> (Seq<SegView>, Seq<SegView>) {
    if op == np {
        (seq![piece_segment(op, Color::Yellow)], seq![piece_segment(np, Color::Yellow)])
    } else if op.0 && np.0 {
        if vstd::utf8::encode_utf8(op.1).len() > 20 && vstd::utf8::encode_utf8(np.1).len() > 20
            && differ_throughout(op.1, np.1) {
            (seq![(op.1, colored(Color::Red))], seq![(np.1, colored(Color::Green))])
        } else {
            char_diff_segments(char_diff(op.1, np.1), false)
        }
    } else {
        (seq![piece_segment(op, Color::Red)], seq![piece_segment(np, Color::Green)])
    }
}

/// Whether `a` and `b` differ at every position they share.
fn chars_differ_throughout(a: &str, b: &str) -> (r: bool)
    ensures
        r == differ_throughout(a@, b@),
{
    let x = chars_of(a);
    let y = chars_of(b);
    let mut i: usize = 0;
    while i < x.len() && i < y.len()
        invariant
            x@ == a@,
            y@ == b@,
            i <= x@.len(),
            forall|k: int| 0 <= k < i && k < x@.len() && k < y@.len() ==> x@[k] != y@[k],
        decreases x@.len() - i,
    {
        if x[i] == y[i] {
            return false;
        }
        i = i + 1;
    }
    true
}

/// Appends the segments of a character diff.
fn push_char_diff(old_acc: &mut Vec<Segment>, new_acc: &mut Vec<Segment>, d: &Vec<CharDiff>)
    ensures
        segment_views(final(old_acc)@) == segment_views(old(old_acc)@) + char_diff_segments(d@, false).0,
        segment_views(final(new_acc)@) == segment_views(old(new_acc)@) + char_diff_segments(d@, false).1,
{
    let ghost o0 = segment_views(old_acc@);
    let ghost n0 = segment_views(new_acc@);
    let mut active = false;
    let mut k: usize = 0;
    assert(d@.skip(0) == d@);
    while k < d.len()
        invariant
            k <= d@.len(),
            o0 + char_diff_segments(d@, false).0 == segment_views(old_acc@) + char_diff_segments(
                d@.skip(k as int),
                active,
            ).0,
            n0 + char_diff_segments(d@, false).1 == segment_views(new_acc@) + char_diff_segments(
                d@.skip(k as int),
                active,
            ).1,
        decreases d@.len() - k,
    {
        let ghost rest = d@.skip(k as int);
        assert(rest[0] == d@[k as int]);
        assert(rest.drop_first() == d@.skip(k + 1));
        let ghost (ov, nv) = (segment_views(old_acc@), segment_views(new_acc@));
        let ghost a0 = active;
        match d[k] {
            CharDiff::Both(l, r) => {
                if active {
                    old_acc.push(char_segment(l, color_style(Color::Red)));
                    new_acc.push(char_segment(r, color_style(Color::Green)));
                } else {
                    old_acc.push(char_segment(l, color_style(Color::Yellow)));
                    new_acc.push(char_segment(r, color_style(Color::Yellow)));
                }
                proof {
                    assert(segment_views(old_acc@) == ov.push(segment_views(old_acc@).last()));
                    assert(segment_views(new_acc@) == nv.push(segment_views(new_acc@).last()));
                }
            },
            CharDiff::Left(l) => {
                active = true;
                old_acc.push(char_segment(l, color_style(Color::Red)));
                proof {
                    assert(segment_views(old_acc@) == ov.push(segment_views(old_acc@).last()));
                }
            },
            CharDiff::Right(r) => {
                active = true;
                new_acc.push(char_segment(r, color_style(Color::Green)));
                proof {
                    assert(segment_views(new_acc@) == nv.push(segment_views(new_acc@).last()));
                }
            },
        }
        proof {
            let full = char_diff_segments(rest, a0);
            let rs = char_diff_segments(rest.drop_first(), active);
            assert(ov + full.0 =~= segment_views(old_acc@) + rs.0);
            assert(nv + full.1 =~= segment_views(new_acc@) + rs.1);
        }
        k = k + 1;
    }
    assert(d@.skip(d@.len() as int) == Seq::<CharDiff>::empty());
    assert(segment_views(old_acc@) + Seq::<SegView>::empty() == segment_views(old_acc@));
    assert(segment_views(new_acc@) + Seq::<SegView>::empty() == segment_views(new_acc@));
}


/// Appends the segments of a pair of pieces, `old_piece` to `old_acc` and
/// `new_piece` to `new_acc`.
pub fn fmt_version_piece_pair(
    old_acc: &mut Vec<Segment>,
    new_acc: &mut Vec<Segment>,
    old_piece: &VersionPiece,
    new_piece: &VersionPiece,
)
    ensures
        segment_views(final(old_acc)@) == segment_views(old(old_acc)@) + piece_pair_segments(
            old_piece@,
            new_piece@,
        ).0,
        segment_views(final(new_acc)@) == segment_views(old(new_acc)@) + piece_pair_segments(
            old_piece@,
            new_piece@,
        ).1,
        segs_text(segment_views(final(old_acc)@)) == segs_text(segment_views(old(old_acc)@)) + old_piece@.1,
        segs_text(segment_views(final(new_acc)@)) == segs_text(segment_views(old(new_acc)@)) + new_piece@.1,
{
    let ghost ov = segment_views(old_acc@);
    let ghost nv = segment_views(new_acc@);
    if same_piece(old_piece, new_piece) {
        old_acc.push(piece_segment_of(old_piece, Color::Yellow));
        new_acc.push(piece_segment_of(new_piece, Color::Yellow));
        assert(segment_views(old_acc@) =~= ov + seq![piece_segment(old_piece@, Color::Yellow)]);
        assert(segment_views(new_acc@) =~= nv + seq![piece_segment(new_piece@, Color::Yellow)]);
        proof {
            lemma_segs_text_one(ov, piece_segment(old_piece@, Color::Yellow));
            lemma_segs_text_one(nv, piece_segment(new_piece@, Color::Yellow));
        }
        return;
    }
    match (old_piece, new_piece) {
        (VersionPiece::Component(o), VersionPiece::Component(n)) => {
            if o.0.as_bytes().len() > 20 && n.0.as_bytes().len() > 20 && chars_differ_throughout(o.0, n.0) {
                old_acc.push(segment(o.0, color_style(Color::Red)));
                new_acc.push(segment(n.0, color_style(Color::Green)));
                assert(segment_views(old_acc@) =~= ov + seq![(o.0@, colored(Color::Red))]);
                assert(segment_views(new_acc@) =~= nv + seq![(n.0@, colored(Color::Green))]);
                proof {
                    lemma_segs_text_one(ov, (o.0@, colored(Color::Red)));
                    lemma_segs_text_one(nv, (n.0@, colored(Color::Green)));
                }
            } else {
                let d = diff_chars(o.0, n.0);
                push_char_diff(old_acc, new_acc, &d);
                proof {
                    lemma_char_diff_text(d@, false);
                    lemma_segs_text_concat(ov, char_diff_segments(d@, false).0);
                    lemma_segs_text_concat(nv, char_diff_segments(d@, false).1);
                }
            }
        },
        _ => {
            old_acc.push(piece_segment_of(old_piece, Color::Red));
            new_acc.push(piece_segment_of(new_piece, Color::Green));
            assert(segment_views(old_acc@) =~= ov + seq![piece_segment(old_piece@, Color::Red)]);
            assert(segment_views(new_acc@) =~= nv + seq![piece_segment(new_piece@, Color::Green)]);
            proof {
                lemma_segs_text_one(ov, piece_segment(old_piece@, Color::Red));
                lemma_segs_text_one(nv, piece_segment(new_piece@, Color::Green));
            }
        },
    }
}

/// How many pieces the two sequences share at the front.
pub open spec fn common_prefix_len(a: Seq<PieceView>, b: Seq<PieceView>) -> nat
    decreases a.len(),
{
    if a.len() == 0 || b.len() == 0 || a[0] != b[0] {
        0
    } else {
        1 + common_prefix_len(a.drop_first(), b.drop_first())
    }
}

/// How many pieces the two sequences share at the back.
pub open spec fn common_suffix_len(a: Seq<PieceView>, b: Seq<PieceView>) -> nat
    decreases a.len(),
{
    if a.len() == 0 || b.len() == 0 || a.last() != b.last() {
        0
    } else {
        1 + common_suffix_len(a.drop_last(), b.drop_last())
    }
}

proof fn lemma_common_prefix_len(a: Seq<PieceView>, b: Seq<PieceView>, k: int)
    requires
        0 <= k <= a.len(),
        k <= b.len(),
        a.take(k) == b.take(k),
    ensures
        common_prefix_len(a, b) == k + common_prefix_len(a.skip(k), b.skip(k)),
    decreases k,
{
    if k > 0 {
        assert(a[0] == a.take(k)[0]);
        assert(b[0] == b.take(k)[0]);
        assert(a.drop_first().take(k - 1) =~= a.take(k).drop_first());
        assert(b.drop_first().take(k - 1) =~= b.take(k).drop_first());
        lemma_common_prefix_len(a.drop_first(), b.drop_first(), k - 1);
        assert(a.drop_first().skip(k - 1) =~= a.skip(k));
        assert(b.drop_first().skip(k - 1) =~= b.skip(k));
    } else {
        assert(a.skip(0) == a);
        assert(b.skip(0) == b);
    }
}

proof fn lemma_common_suffix_len(a: Seq<PieceView>, b: Seq<PieceView>, k: int)
    requires
        0 <= k <= a.len(),
        k <= b.len(),
        a.skip(a.len() - k) == b.skip(b.len() - k),
    ensures
        common_suffix_len(a, b) == k + common_suffix_len(a.take(a.len() - k), b.take(b.len() - k)),
    decreases k,
{
    if k > 0 {
        assert(a.last() == a.skip(a.len() - k)[k - 1]);
        assert(b.last() == b.skip(b.len() - k)[k - 1]);
        assert(a.drop_last().skip(a.len() - k) =~= a.skip(a.len() - k).drop_last());
        assert(b.drop_last().skip(b.len() - k) =~= b.skip(b.len() - k).drop_last());
        lemma_common_suffix_len(a.drop_last(), b.drop_last(), k - 1);
        assert(a.drop_last().take(a.len() - k) =~= a.take(a.len() - k));
        assert(b.drop_last().take(b.len() - k) =~= b.take(b.len() - k));
    } else {
        assert(a.take(a.len() as int) == a);
        assert(b.take(b.len() as int) == b);
    }
}

/// The text that segments show, without their styles.
pub open spec fn segs_text(s: Seq<SegView>) -> Seq<char>
    decreases s.len(),
{
    if s.len() == 0 {
        seq![]
    } else {
        segs_text(s.drop_last()) + s.last().0
    }
}

pub proof fn lemma_segs_text_concat(a: Seq<SegView>, b: Seq<SegView>)
    ensures
        segs_text(a + b) == segs_text(a) + segs_text(b),
    decreases b.len(),
{
    if b.len() > 0 {
        lemma_segs_text_concat(a, b.drop_last());
        assert((a + b).drop_last() =~= a + b.drop_last());
        assert((a + b).last() == b.last());
    } else {
        assert(a + b =~= a);
    }
}

proof fn lemma_chars_cancel(a: Seq<char>, x: Seq<char>, y: Seq<char>)
    requires
        a + x == a + y,
    ensures
        x == y,
{
    assert(x =~= (a + x).skip(a.len() as int));
    assert(y =~= (a + y).skip(a.len() as int));
}

proof fn lemma_segs_text_one(a: Seq<SegView>, x: SegView)
    ensures
        segs_text(a + seq![x]) == segs_text(a) + x.0,
{
    assert((a + seq![x]).drop_last() =~= a);
    assert((a + seq![x]).last() == x);
}

/// The text of a sequence of version pieces.
pub open spec fn pieces_text(ps: Seq<PieceView>) -> Seq<char>
    decreases ps.len(),
{
    if ps.len() == 0 {
        seq![]
    } else {
        pieces_text(ps.drop_last()) + ps.last().1
    }
}

proof fn lemma_pieces_text_concat(a: Seq<PieceView>, b: Seq<PieceView>)
    ensures
        pieces_text(a + b) == pieces_text(a) + pieces_text(b),
    decreases b.len(),
{
    if b.len() > 0 {
        lemma_pieces_text_concat(a, b.drop_last());
        assert((a + b).drop_last() =~= a + b.drop_last());
        assert((a + b).last() == b.last());
    } else {
        assert(a + b =~= a);
    }
}

proof fn lemma_pieces_in_text(ps: Seq<PieceView>, c: Color)
    ensures
        segs_text(pieces_in(ps, c)) == pieces_text(ps),
    decreases ps.len(),
{
    if ps.len() > 0 {
        lemma_pieces_in_text(ps.drop_last(), c);
        assert(pieces_in(ps, c).drop_last() =~= pieces_in(ps.drop_last(), c));
    }
}

/// The pieces of a version string spell it, and there are none only for the
/// empty string.
pub proof fn lemma_pieces_of_text(s: Seq<char>)
    ensures
        pieces_text(pieces_of(s)) == s,
        pieces_of(s).len() == 0 <==> s.len() == 0,
    decreases s.len(),
{
    if s.len() > 0 {
        crate::version::lemma_first_piece(s);
        let n = crate::version::first_piece_len(s) as int;
        lemma_pieces_of_text(s.skip(n));
        let head = seq![(!crate::version::is_separator(s[0]), s.take(n))];
        lemma_pieces_text_concat(head, pieces_of(s.skip(n)));
        assert(head.drop_last() =~= Seq::<PieceView>::empty());
        assert(pieces_text(head) == pieces_text(Seq::<PieceView>::empty()) + s.take(n));
        assert(pieces_text(head) =~= s.take(n));
        assert(s.take(n) + s.skip(n) =~= s);
    }
}

proof fn lemma_diff_sides_concat(a: Seq<CharDiff>, b: Seq<CharDiff>)
    ensures
        diff_lefts(a + b) == diff_lefts(a) + diff_lefts(b),
        diff_rights(a + b) == diff_rights(a) + diff_rights(b),
    decreases b.len(),
{
    if b.len() > 0 {
        lemma_diff_sides_concat(a, b.drop_last());
        assert((a + b).drop_last() =~= a + b.drop_last());
        assert((a + b).last() == b.last());
    } else {
        assert(a + b =~= a);
    }
}

/// The two sides of a character diff's segments spell its left and its
/// right characters.
proof fn lemma_char_diff_text(d: Seq<CharDiff>, active: bool)
    ensures
        segs_text(char_diff_segments(d, active).0) == diff_lefts(d),
        segs_text(char_diff_segments(d, active).1) == diff_rights(d),
    decreases d.len(),
{
    if d.len() > 0 {
        let rest = d.drop_first();
        let h = seq![d[0]];
        assert(d =~= h + rest);
        lemma_diff_sides_concat(h, rest);
        assert(h.drop_last() =~= Seq::<CharDiff>::empty());
        assert(h.last() == d[0]);
        let e = Seq::<SegView>::empty();
        assert(segs_text(e) =~= Seq::<char>::empty());
        assert(diff_lefts(Seq::<CharDiff>::empty()) =~= Seq::<char>::empty());
        assert(diff_rights(Seq::<CharDiff>::empty()) =~= Seq::<char>::empty());
        match d[0] {
            CharDiff::Both(l, r) => {
                lemma_char_diff_text(rest, active);
                let (co, cn) = if active {
                    (colored(Color::Red), colored(Color::Green))
                } else {
                    (colored(Color::Yellow), colored(Color::Yellow))
                };
                let o = seq![(seq![l], co)];
                let n = seq![(seq![r], cn)];
                assert(o.drop_last() =~= e && n.drop_last() =~= e);
                assert(segs_text(o) =~= seq![l]);
                assert(segs_text(n) =~= seq![r]);
                assert(diff_lefts(h) =~= seq![l]);
                assert(diff_rights(h) =~= seq![r]);
                lemma_segs_text_concat(o, char_diff_segments(rest, active).0);
                lemma_segs_text_concat(n, char_diff_segments(rest, active).1);
                assert(char_diff_segments(d, active).0 == o + char_diff_segments(rest, active).0);
                assert(char_diff_segments(d, active).1 == n + char_diff_segments(rest, active).1);
            },
            CharDiff::Left(l) => {
                lemma_char_diff_text(rest, true);
                let o = seq![(seq![l], colored(Color::Red))];
                assert(o.drop_last() =~= e);
                assert(segs_text(o) =~= seq![l]);
                assert(segs_text(e) =~= Seq::<char>::empty());
                assert(diff_lefts(h) =~= seq![l]);
                assert(diff_rights(h) =~= Seq::<char>::empty());
                lemma_segs_text_concat(o, char_diff_segments(rest, true).0);
                lemma_segs_text_concat(e, char_diff_segments(rest, true).1);
                assert(char_diff_segments(d, active).0 == o + char_diff_segments(rest, true).0);
                assert(char_diff_segments(d, active).1 == e + char_diff_segments(rest, true).1);
            },
            CharDiff::Right(r) => {
                lemma_char_diff_text(rest, true);
                let n = seq![(seq![r], colored(Color::Green))];
                assert(n.drop_last() =~= e);
                assert(segs_text(n) =~= seq![r]);
                assert(segs_text(e) =~= Seq::<char>::empty());
                assert(diff_rights(h) =~= seq![r]);
                assert(diff_lefts(h) =~= Seq::<char>::empty());
                lemma_segs_text_concat(e, char_diff_segments(rest, true).0);
                lemma_segs_text_concat(n, char_diff_segments(rest, true).1);
                assert(char_diff_segments(d, active).0 == e + char_diff_segments(rest, true).0);
                assert(char_diff_segments(d, active).1 == n + char_diff_segments(rest, true).1);
            },
        }
    }
}

proof fn lemma_common_prefix_take(a: Seq<PieceView>, b: Seq<PieceView>)
    ensures
        a.take(common_prefix_len(a, b) as int) == b.take(common_prefix_len(a, b) as int),
    decreases a.len(),
{
    lemma_common_prefix_bound(a, b);
    if a.len() > 0 && b.len() > 0 && a[0] == b[0] {
        lemma_common_prefix_take(a.drop_first(), b.drop_first());
        let k = common_prefix_len(a, b) as int;
        assert(a.take(k) =~= seq![a[0]] + a.drop_first().take(k - 1));
        assert(b.take(k) =~= seq![b[0]] + b.drop_first().take(k - 1));
    } else {
        assert(a.take(0) =~= b.take(0));
    }
}

proof fn lemma_common_suffix_skip(a: Seq<PieceView>, b: Seq<PieceView>)
    ensures
        a.skip(a.len() - common_suffix_len(a, b)) == b.skip(b.len() - common_suffix_len(a, b)),
    decreases a.len(),
{
    lemma_common_suffix_bound(a, b);
    if a.len() > 0 && b.len() > 0 && a.last() == b.last() {
        lemma_common_suffix_skip(a.drop_last(), b.drop_last());
        let k = common_suffix_len(a, b) as int;
        assert(a.skip(a.len() - k) =~= a.drop_last().skip(a.len() - k) + seq![a.last()]);
        assert(b.skip(b.len() - k) =~= b.drop_last().skip(b.len() - k) + seq![b.last()]);
    } else {
        assert(a.skip(a.len() as int) =~= b.skip(b.len() as int));
    }
}

/// The text of a count after a version, as `version_text` writes it.
proof fn lemma_count_text(n: nat, c: Color)
    ensures
        segs_text(count_segments(n, c)) == seq![' ', '\u{d7}'] + crate::text::decimal(n),
{
    let s = count_segments(n, c);
    reveal_with_fuel(segs_text, 3);
    assert(s.drop_last().drop_last() =~= Seq::<SegView>::empty());
    assert(s.drop_last().last() == (seq![' ', '\u{d7}'], plain()));
    assert(segs_text(s.drop_last()) =~= seq![' ', '\u{d7}']);
}

/// The middle parts side by side: pairs position by position, and what one
/// side has beyond the other red (old) or green (new).
pub open spec fn middle_segments(a: Seq<PieceView>, b: Seq<PieceView>) -> (Seq<SegView>, Seq<SegView>)
    decreases a.len() + b.len(),
{
    if a.len() == 0 {
        (seq![], pieces_in(b, Color::Green))
    } else if b.len() == 0 {
        (pieces_in(a, Color::Red), seq![])
    } else {
        let h = piece_pair_segments(a[0], b[0]);
        let t = middle_segments(a.drop_first(), b.drop_first());
        (h.0 + t.0, h.1 + t.1)
    }
}

/// The count after a version: ` ×n` with `n` in `c`.
pub open spec fn count_segments(n: nat, c: Color) -> Seq<SegView> {
    seq![(seq![' ', '\u{d7}'], plain()), (crate::text::decimal(n), colored(c))]
}

pub open spec fn amount_segments(old_amount: nat, new_amount: nat) -> (Seq<SegView>, Seq<SegView>) {
    if old_amount == new_amount {
        if old_amount > 1 {
            (count_segments(old_amount, Color::Yellow), count_segments(new_amount, Color::Yellow))
        } else {
            (seq![], seq![])
        }
    } else {
        (
            if old_amount > 1 { count_segments(old_amount, Color::Red) } else { seq![] },
            if new_amount > 1 { count_segments(new_amount, Color::Green) } else { seq![] },
        )
    }
}

/// The two sides of a changed version: the shared front and back of their
/// pieces yellow, the middle compared piece by piece, then the counts.
/// Identical versions, and two empty ones, show nothing.
pub open spec fn single_diff_segments(old: VersionView, new: VersionView) -> (Seq<SegView>, Seq<SegView>) {
    let po = pieces_of(old.0);
    let pn = pieces_of(new.0);
    if (po.len() == 0 && pn.len() == 0) || old == new {
        (seq![], seq![])
    } else {
        let p = common_prefix_len(po, pn) as int;
        let ro = po.skip(p);
        let rn = pn.skip(p);
        let sfx = if ro.len() > 0 && rn.len() > 0 {
            common_suffix_len(ro, rn) as int
        } else {
            0
        };
        let od = po.subrange(p, po.len() - sfx);
        let nd = pn.subrange(p, pn.len() - sfx);
        let shared_back = po.skip(po.len() - sfx);
        let mid = middle_segments(od, nd);
        let counts = amount_segments(old.1, new.1);
        (
            pieces_in(po.take(p), Color::Yellow) + mid.0 + pieces_in(shared_back, Color::Yellow) + counts.0,
            pieces_in(po.take(p), Color::Yellow) + mid.1 + pieces_in(shared_back, Color::Yellow) + counts.1,
        )
    }
}

/// Appends the pieces of `ps` from `from` to `to`, in colour `c`.
fn push_pieces(acc: &mut Vec<Segment>, ps: &Vec<VersionPiece>, from: usize, to: usize, c: Color)
    requires
        from <= to <= ps@.len(),
    ensures
        segment_views(final(acc)@) == segment_views(old(acc)@) + pieces_in(
            piece_views(ps@).subrange(from as int, to as int),
            c,
        ),
{
    let ghost a0 = segment_views(acc@);
    let mut k: usize = from;
    while k < to
        invariant
            from <= k <= to <= ps@.len(),
            segment_views(acc@) == a0 + pieces_in(piece_views(ps@).subrange(from as int, k as int), c),
        decreases to - k,
    {
        let ghost before = segment_views(acc@);
        acc.push(piece_segment_of(&ps[k], c));
        proof {
            assert(segment_views(acc@) == before.push(piece_segment(ps@[k as int]@, c)));
            assert(piece_views(ps@).subrange(from as int, k + 1) =~= piece_views(ps@).subrange(
                from as int,
                k as int,
            ).push(ps@[k as int]@));
            assert(segment_views(acc@) =~= a0 + pieces_in(piece_views(ps@).subrange(from as int, k + 1), c));
        }
        k = k + 1;
    }
}

/// Appends ` ×n` in colour `c`.
fn push_count(acc: &mut Vec<Segment>, n: usize, c: Color)
    ensures
        segment_views(final(acc)@) == segment_views(old(acc)@) + count_segments(n as nat, c),
{
    let ghost a0 = segment_views(acc@);
    let mut mark = String::new();
    mark.push(' ');
    mark.push('\u{d7}');
    assert(mark@ =~= seq![' ', '\u{d7}']);
    acc.push(Segment { text: mark, style: color_style(Color::Plain) });
    acc.push(Segment { text: usize_to_decimal(n), style: color_style(c) });
    assert(segment_views(acc@) =~= a0 + count_segments(n as nat, c));
}

proof fn lemma_common_prefix_bound(a: Seq<PieceView>, b: Seq<PieceView>)
    ensures
        common_prefix_len(a, b) <= a.len(),
        common_prefix_len(a, b) <= b.len(),
    decreases a.len(),
{
    if a.len() > 0 && b.len() > 0 && a[0] == b[0] {
        lemma_common_prefix_bound(a.drop_first(), b.drop_first());
    }
}

proof fn lemma_common_suffix_bound(a: Seq<PieceView>, b: Seq<PieceView>)
    ensures
        common_suffix_len(a, b) <= a.len(),
        common_suffix_len(a, b) <= b.len(),
    decreases a.len(),
{
    if a.len() > 0 && b.len() > 0 && a.last() == b.last() {
        lemma_common_suffix_bound(a.drop_last(), b.drop_last());
    }
}

/// How many pieces the two lists share at the front.
fn shared_prefix_len(a: &Vec<VersionPiece>, b: &Vec<VersionPiece>) -> (p: usize)
    ensures
        p == common_prefix_len(piece_views(a@), piece_views(b@)),
{
    let ghost pa = piece_views(a@);
    let ghost pb = piece_views(b@);
    let mut p: usize = 0;
    while p < a.len() && p < b.len() && same_piece(&a[p], &b[p])
        invariant
            pa == piece_views(a@),
            pb == piece_views(b@),
            p <= a@.len(),
            p <= b@.len(),
            pa.take(p as int) == pb.take(p as int),
        decreases a@.len() - p,
    {
        assert(pa.take(p + 1) == pa.take(p as int).push(pa[p as int]));
        assert(pb.take(p + 1) == pb.take(p as int).push(pb[p as int]));
        p = p + 1;
    }
    proof {
        lemma_common_prefix_len(pa, pb, p as int);
        if p < a@.len() && p < b@.len() {
            assert(pa.skip(p as int)[0] == pa[p as int]);
            assert(pb.skip(p as int)[0] == pb[p as int]);
        }
    }
    p
}

/// How many pieces the lists share at the back, after the first `p` of each;
/// none when either has nothing after them.
fn shared_suffix_len(a: &Vec<VersionPiece>, b: &Vec<VersionPiece>, p: usize) -> (s: usize)
    requires
        p <= a@.len(),
        p <= b@.len(),
    ensures
        s == if p < a@.len() && p < b@.len() {
            common_suffix_len(piece_views(a@).skip(p as int), piece_views(b@).skip(p as int))
        } else {
            0
        },
{
    if p >= a.len() || p >= b.len() {
        return 0;
    }
    let ghost ro = piece_views(a@).skip(p as int);
    let ghost rn = piece_views(b@).skip(p as int);
    let ol = a.len();
    let nl = b.len();
    let mut sfx: usize = 0;
    while sfx < ol - p && sfx < nl - p && same_piece(&a[ol - 1 - sfx], &b[nl - 1 - sfx])
        invariant
            ol == a@.len(),
            nl == b@.len(),
            p < ol,
            p < nl,
            ro == piece_views(a@).skip(p as int),
            rn == piece_views(b@).skip(p as int),
            sfx <= ol - p,
            sfx <= nl - p,
            ro.skip(ro.len() - sfx) == rn.skip(rn.len() - sfx),
        decreases ol - p - sfx,
    {
        assert(ro.skip(ro.len() - (sfx + 1)) =~= seq![ro[ro.len() - (sfx + 1)]] + ro.skip(ro.len() - sfx));
        assert(rn.skip(rn.len() - (sfx + 1)) =~= seq![rn[rn.len() - (sfx + 1)]] + rn.skip(rn.len() - sfx));
        sfx = sfx + 1;
    }
    proof {
        lemma_common_suffix_len(ro, rn, sfx as int);
        let x = ro.take(ro.len() - sfx);
        let y = rn.take(rn.len() - sfx);
        if x.len() > 0 && y.len() > 0 {
            assert(x.last() == a@[ol - 1 - sfx]@);
            assert(y.last() == b@[nl - 1 - sfx]@);
        }
    }
    sfx
}

/// Appends the middle parts `a[from..a_end]` and `b[from..b_end]` side by side.
#[verifier::rlimit(40)]
#[verifier::spinoff_prover]
fn push_middle(
    old_acc: &mut Vec<Segment>,
    new_acc: &mut Vec<Segment>,
    a: &Vec<VersionPiece>,
    b: &Vec<VersionPiece>,
    from: usize,
    a_end: usize,
    b_end: usize,
)
    requires
        from <= a_end <= a@.len(),
        from <= b_end <= b@.len(),
    ensures
        segment_views(final(old_acc)@) == segment_views(old(old_acc)@) + middle_segments(
            piece_views(a@).subrange(from as int, a_end as int),
            piece_views(b@).subrange(from as int, b_end as int),
        ).0,
        segment_views(final(new_acc)@) == segment_views(old(new_acc)@) + middle_segments(
            piece_views(a@).subrange(from as int, a_end as int),
            piece_views(b@).subrange(from as int, b_end as int),
        ).1,
        segs_text(segment_views(final(old_acc)@)) == segs_text(segment_views(old(old_acc)@)) + pieces_text(
            piece_views(a@).subrange(from as int, a_end as int),
        ),
        segs_text(segment_views(final(new_acc)@)) == segs_text(segment_views(old(new_acc)@)) + pieces_text(
            piece_views(b@).subrange(from as int, b_end as int),
        ),
{
    let ghost od = piece_views(a@).subrange(from as int, a_end as int);
    let ghost nd = piece_views(b@).subrange(from as int, b_end as int);
    let ghost o1 = segment_views(old_acc@);
    let ghost n1 = segment_views(new_acc@);
    let ghost mid = middle_segments(od, nd);
    let mut i: usize = from;
    let mut j: usize = from;
    assert(od.skip(0) == od && nd.skip(0) == nd);
    assert(od.take(0) =~= Seq::<PieceView>::empty() && nd.take(0) =~= Seq::<PieceView>::empty());
    assert(segs_text(o1) + pieces_text(Seq::<PieceView>::empty()) =~= segs_text(o1));
    assert(segs_text(n1) + pieces_text(Seq::<PieceView>::empty()) =~= segs_text(n1));
    while i < a_end || j < b_end
        invariant
            from <= i <= a_end <= a@.len(),
            from <= j <= b_end <= b@.len(),
            i == j || (i == a_end && j > i) || (j == b_end && i > j),
            od == piece_views(a@).subrange(from as int, a_end as int),
            nd == piece_views(b@).subrange(from as int, b_end as int),
            mid == middle_segments(od, nd),
            o1 + mid.0 == segment_views(old_acc@) + middle_segments(od.skip(i - from), nd.skip(j - from)).0,
            n1 + mid.1 == segment_views(new_acc@) + middle_segments(od.skip(i - from), nd.skip(j - from)).1,
            segs_text(segment_views(old_acc@)) == segs_text(o1) + pieces_text(od.take(i - from)),
            segs_text(segment_views(new_acc@)) == segs_text(n1) + pieces_text(nd.take(j - from)),
        decreases (a_end - i) + (b_end - j),
    {
        let ghost x = od.skip(i - from);
        let ghost y = nd.skip(j - from);
        let ghost (ov, nv) = (segment_views(old_acc@), segment_views(new_acc@));
        proof {
            if i < a_end {
                assert(od.take(i + 1 - from).drop_last() == od.take(i - from));
                assert(od.take(i + 1 - from).last() == a@[i as int]@);
            }
            if j < b_end {
                assert(nd.take(j + 1 - from).drop_last() == nd.take(j - from));
                assert(nd.take(j + 1 - from).last() == b@[j as int]@);
            }
        }
        if i < a_end && j < b_end {
            assert(x[0] == a@[i as int]@ && y[0] == b@[j as int]@);
            fmt_version_piece_pair(old_acc, new_acc, &a[i], &b[j]);
            proof {
                assert(x.drop_first() == od.skip(i + 1 - from));
                assert(y.drop_first() == nd.skip(j + 1 - from));
                assert(ov + middle_segments(x, y).0 =~= segment_views(old_acc@) + middle_segments(
                    x.drop_first(),
                    y.drop_first(),
                ).0);
                assert(nv + middle_segments(x, y).1 =~= segment_views(new_acc@) + middle_segments(
                    x.drop_first(),
                    y.drop_first(),
                ).1);
            }
            i = i + 1;
            j = j + 1;
        } else if i < a_end {
            old_acc.push(piece_segment_of(&a[i], Color::Red));
            proof {
                assert(segment_views(old_acc@) =~= ov + seq![piece_segment(a@[i as int]@, Color::Red)]);
                lemma_segs_text_one(ov, piece_segment(a@[i as int]@, Color::Red));
                assert(y.len() == 0);
                assert(x[0] == a@[i as int]@);
                assert(x.drop_first() == od.skip(i + 1 - from));
                assert(pieces_in(x, Color::Red) =~= seq![piece_segment(x[0], Color::Red)] + pieces_in(
                    x.drop_first(),
                    Color::Red,
                ));
                assert(ov + middle_segments(x, y).0 =~= segment_views(old_acc@) + middle_segments(
                    x.drop_first(),
                    y,
                ).0);
            }
            i = i + 1;
        } else {
            new_acc.push(piece_segment_of(&b[j], Color::Green));
            proof {
                assert(segment_views(new_acc@) =~= nv + seq![piece_segment(b@[j as int]@, Color::Green)]);
                lemma_segs_text_one(nv, piece_segment(b@[j as int]@, Color::Green));
                assert(x.len() == 0);
                assert(y[0] == b@[j as int]@);
                assert(y.drop_first() == nd.skip(j + 1 - from));
                assert(pieces_in(y, Color::Green) =~= seq![piece_segment(y[0], Color::Green)] + pieces_in(
                    y.drop_first(),
                    Color::Green,
                ));
                assert(nv + middle_segments(x, y).1 =~= segment_views(new_acc@) + middle_segments(
                    x,
                    y.drop_first(),
                ).1);
            }
            j = j + 1;
        }
    }
    proof {
        assert(od.skip(i - from).len() == 0 && nd.skip(j - from).len() == 0);
        assert(od.take(i - from) == od);
        assert(nd.take(j - from) == nd);
        assert(segment_views(old_acc@) =~= o1 + mid.0);
        assert(segment_views(new_acc@) =~= n1 + mid.1);
    }
}

/// One side of a diff: a shared front, a middle that shows `od`, a shared
/// back and a count spell the pieces and the count's text.
proof fn lemma_side_text(
    front: Seq<PieceView>,
    od: Seq<PieceView>,
    back: Seq<PieceView>,
    mid: Seq<SegView>,
    counts: Seq<SegView>,
)
    requires
        segs_text(mid) == pieces_text(od),
    ensures
        segs_text(pieces_in(front, Color::Yellow) + mid + pieces_in(back, Color::Yellow) + counts)
            == pieces_text(front + od + back) + segs_text(counts),
{
    let f = pieces_in(front, Color::Yellow);
    let b = pieces_in(back, Color::Yellow);
    lemma_pieces_in_text(front, Color::Yellow);
    lemma_pieces_in_text(back, Color::Yellow);
    lemma_segs_text_concat(f + mid + b, counts);
    lemma_segs_text_concat(f + mid, b);
    lemma_segs_text_concat(f, mid);
    lemma_pieces_text_concat(front + od, back);
    lemma_pieces_text_concat(front, od);
}

/// The text of the count a side of a diff ends with.
proof fn lemma_amount_text(old_amount: nat, new_amount: nat)
    ensures
        segs_text(amount_segments(old_amount, new_amount).0) == (if old_amount > 1 {
            seq![' ', '\u{d7}'] + crate::text::decimal(old_amount)
        } else {
            Seq::<char>::empty()
        }),
        segs_text(amount_segments(old_amount, new_amount).1) == (if new_amount > 1 {
            seq![' ', '\u{d7}'] + crate::text::decimal(new_amount)
        } else {
            Seq::<char>::empty()
        }),
{
    lemma_count_text(old_amount, Color::Yellow);
    lemma_count_text(old_amount, Color::Red);
    lemma_count_text(new_amount, Color::Yellow);
    lemma_count_text(new_amount, Color::Green);
    assert(segs_text(Seq::<SegView>::empty()) =~= Seq::<char>::empty());
}

/// When the middles of two versions' pieces show their own texts, each side
/// of their diff spells its version and its count.
#[verifier::rlimit(80)]
#[verifier::spinoff_prover]
proof fn lemma_single_diff_text(old: VersionView, new: VersionView, p: int, sfx: int)
    requires
        !(old.0.len() == 0 && new.0.len() == 0),
        old != new,
        p == common_prefix_len(pieces_of(old.0), pieces_of(new.0)),
        sfx == (if pieces_of(old.0).skip(p).len() > 0 && pieces_of(new.0).skip(p).len() > 0 {
            common_suffix_len(pieces_of(old.0).skip(p), pieces_of(new.0).skip(p)) as int
        } else {
            0
        }),
        segs_text(
            middle_segments(
                pieces_of(old.0).subrange(p, pieces_of(old.0).len() - sfx),
                pieces_of(new.0).subrange(p, pieces_of(new.0).len() - sfx),
            ).0,
        ) == pieces_text(pieces_of(old.0).subrange(p, pieces_of(old.0).len() - sfx)),
        segs_text(
            middle_segments(
                pieces_of(old.0).subrange(p, pieces_of(old.0).len() - sfx),
                pieces_of(new.0).subrange(p, pieces_of(new.0).len() - sfx),
            ).1,
        ) == pieces_text(pieces_of(new.0).subrange(p, pieces_of(new.0).len() - sfx)),
    ensures
        segs_text(single_diff_segments(old, new).0) == crate::version::version_text(old.0, old.1),
        segs_text(single_diff_segments(old, new).1) == crate::version::version_text(new.0, new.1),
{
    let po = pieces_of(old.0);
    let pn = pieces_of(new.0);
    lemma_pieces_of_text(old.0);
    lemma_pieces_of_text(new.0);
    lemma_common_prefix_bound(po, pn);
    lemma_common_suffix_bound(po.skip(p), pn.skip(p));
    let od = po.subrange(p, po.len() - sfx);
    let nd = pn.subrange(p, pn.len() - sfx);
    let mid = middle_segments(od, nd);
    let counts = amount_segments(old.1, new.1);
    lemma_common_prefix_take(po, pn);
    if po.skip(p).len() > 0 && pn.skip(p).len() > 0 {
        lemma_common_suffix_skip(po.skip(p), pn.skip(p));
        assert(po.skip(p).skip(po.skip(p).len() - sfx) =~= po.skip(po.len() - sfx));
        assert(pn.skip(p).skip(pn.skip(p).len() - sfx) =~= pn.skip(pn.len() - sfx));
    } else {
        assert(po.skip(po.len() - sfx) =~= pn.skip(pn.len() - sfx));
    }
    assert(po =~= po.take(p) + od + po.skip(po.len() - sfx));
    assert(pn =~= pn.take(p) + nd + pn.skip(pn.len() - sfx));
    lemma_side_text(po.take(p), od, po.skip(po.len() - sfx), mid.0, counts.0);
    lemma_side_text(pn.take(p), nd, pn.skip(pn.len() - sfx), mid.1, counts.1);
    lemma_amount_text(old.1, new.1);
    assert(single_diff_segments(old, new).0 == pieces_in(po.take(p), Color::Yellow) + mid.0 + pieces_in(
        po.skip(po.len() - sfx),
        Color::Yellow,
    ) + counts.0);
    assert(single_diff_segments(old, new).1 == pieces_in(pn.take(p), Color::Yellow) + mid.1 + pieces_in(
        pn.skip(pn.len() - sfx),
        Color::Yellow,
    ) + counts.1);
}

/// Appends the two sides of a changed version to `old_acc` and `new_acc`.
#[verifier::rlimit(100)]
pub fn fmt_single_version_diff(
    old_acc: &mut Vec<Segment>,
    new_acc: &mut Vec<Segment>,
    old_ver: &Version,
    new_ver: &Version,
)
    ensures
        segment_views(final(old_acc)@) == segment_views(old(old_acc)@) + single_diff_segments(old_ver@, new_ver@).0,
        segment_views(final(new_acc)@) == segment_views(old(new_acc)@) + single_diff_segments(old_ver@, new_ver@).1,
        !(old_ver.name@.len() == 0 && new_ver.name@.len() == 0) && old_ver@ != new_ver@ ==> segs_text(
            segment_views(final(old_acc)@),
        ) == segs_text(segment_views(old(old_acc)@)) + crate::version::version_text(old_ver.name@, old_ver.amount as nat)
            && segs_text(segment_views(final(new_acc)@)) == segs_text(segment_views(old(new_acc)@))
            + crate::version::version_text(new_ver.name@, new_ver.amount as nat),
{
    let ghost o0 = segment_views(old_acc@);
    let ghost n0 = segment_views(new_acc@);
    let old_parts = old_ver.pieces();
    let new_parts = new_ver.pieces();
    let ghost po = piece_views(old_parts@);
    let ghost pn = piece_views(new_parts@);
    proof {
        lemma_pieces_of_text(old_ver.name@);
        lemma_pieces_of_text(new_ver.name@);
    }
    if (old_parts.len() == 0 && new_parts.len() == 0) || old_ver.same(new_ver) {
        assert(segment_views(old_acc@) =~= o0 + Seq::<SegView>::empty());
        assert(segment_views(new_acc@) =~= n0 + Seq::<SegView>::empty());
        return;
    }
    let ol = old_parts.len();
    let nl = new_parts.len();
    let p = shared_prefix_len(&old_parts, &new_parts);
    proof {
        lemma_common_prefix_bound(po, pn);
    }
    let sfx = shared_suffix_len(&old_parts, &new_parts, p);
    proof {
        lemma_common_suffix_bound(po.skip(p as int), pn.skip(p as int));
    }
    let od_end = ol - sfx;
    let nd_end = nl - sfx;
    push_pieces(old_acc, &old_parts, 0, p, Color::Yellow);
    push_pieces(new_acc, &old_parts, 0, p, Color::Yellow);
    let ghost (om, nm) = (segment_views(old_acc@), segment_views(new_acc@));
    push_middle(old_acc, new_acc, &old_parts, &new_parts, p, od_end, nd_end);
    let ghost mid_text_holds = {
        let mid = middle_segments(po.subrange(p as int, od_end as int), pn.subrange(p as int, nd_end as int));
        segs_text(mid.0) == pieces_text(po.subrange(p as int, od_end as int)) && segs_text(mid.1)
            == pieces_text(pn.subrange(p as int, nd_end as int))
    };
    proof {
        let mid = middle_segments(po.subrange(p as int, od_end as int), pn.subrange(p as int, nd_end as int));
        lemma_segs_text_concat(om, mid.0);
        lemma_segs_text_concat(nm, mid.1);
        lemma_chars_cancel(segs_text(om), segs_text(mid.0), pieces_text(po.subrange(p as int, od_end as int)));
        lemma_chars_cancel(segs_text(nm), segs_text(mid.1), pieces_text(pn.subrange(p as int, nd_end as int)));
        assert(mid_text_holds);

    }
    push_pieces(old_acc, &old_parts, od_end, ol, Color::Yellow);
    push_pieces(new_acc, &old_parts, od_end, ol, Color::Yellow);
    let ghost (o2, n2) = (segment_views(old_acc@), segment_views(new_acc@));
    if old_ver.amount == new_ver.amount {
        if old_ver.amount > 1 {
            push_count(old_acc, old_ver.amount, Color::Yellow);
            push_count(new_acc, new_ver.amount, Color::Yellow);
        }
    } else {
        if old_ver.amount > 1 {
            push_count(old_acc, old_ver.amount, Color::Red);
        }
        if new_ver.amount > 1 {
            push_count(new_acc, new_ver.amount, Color::Green);
        }
    }
    proof {
        let counts = amount_segments(old_ver@.1, new_ver@.1);
        assert(segment_views(old_acc@) == o2 + counts.0);
        assert(segment_views(new_acc@) == n2 + counts.1);
        assert(po.subrange(0, p as int) == po.take(p as int));
        assert(po.subrange(od_end as int, ol as int) == po.skip(po.len() - sfx));
        let mid = middle_segments(po.subrange(p as int, od_end as int), pn.subrange(p as int, nd_end as int));
        assert(segment_views(old_acc@) =~= o0 + (pieces_in(po.take(p as int), Color::Yellow) + mid.0
            + pieces_in(po.skip(po.len() - sfx), Color::Yellow) + counts.0));
        assert(segment_views(new_acc@) =~= n0 + (pieces_in(po.take(p as int), Color::Yellow) + mid.1
            + pieces_in(po.skip(po.len() - sfx), Color::Yellow) + counts.1));
        assert(po.len() - sfx == od_end && pn.len() - sfx == nd_end);
        lemma_single_diff_text(old_ver@, new_ver@, p as int, sfx as int);
        lemma_segs_text_concat(o0, single_diff_segments(old_ver@, new_ver@).0);
        lemma_segs_text_concat(n0, single_diff_segments(old_ver@, new_ver@).1);
    }
}


pub open spec fn separator_if(wrote: bool) -> Seq<SegView> {
    if wrote {
        seq![(seq![',', ' '], plain())]
    } else {
        seq![]
    }
}

/// All the pieces of a version in one colour, without its count.
pub open spec fn version_segments(v: VersionView, c: Color) -> Seq<SegView> {
    pieces_in(pieces_of(v.0), c)
}

/// The two columns of a pairing, and whether each has been written to: a
/// version of one side alone in red (old) or green (new), a changed pair
/// side by side, identical pairs not at all; entries of a column are
/// separated by commas.
pub open spec fn diff_columns(p: Seq<EitherOrBoth<VersionView>>) -> (Seq<SegView>, Seq<SegView>, bool, bool)
    decreases p.len(),
{
    if p.len() == 0 {
        (seq![], seq![], false, false)
    } else {
        let r = diff_columns(p.drop_last());
        match p.last() {
            EitherOrBoth::Left(v) => (r.0 + separator_if(r.2) + version_segments(v, Color::Red), r.1, true, r.3),
            EitherOrBoth::Right(v) => (r.0, r.1 + separator_if(r.3) + version_segments(v, Color::Green), r.2, true),
            EitherOrBoth::Both(a, b) => if a == b {
                r
            } else {
                let d = single_diff_segments(a, b);
                (r.0 + separator_if(r.2) + d.0, r.1 + separator_if(r.3) + d.1, true, true)
            },
        }
    }
}

pub open spec fn others_segment() -> SegView {
    (seq!['<', 'o', 't', 'h', 'e', 'r', 's', '>'], Style { color: Color::Blue, bold: false, italic: true })
}

/// The old and new columns of a package's versions; when the lists also share
/// versions, each column ends in `<others>`.
pub open spec fn version_diff_columns(old: Seq<VersionView>, new: Seq<VersionView>, has_common: bool) -> (Seq<SegView>, Seq<SegView>) {
    let r = diff_columns(version_pairing(old, new));
    if has_common {
        (r.0 + separator_if(r.2) + seq![others_segment()], r.1 + separator_if(r.3) + seq![others_segment()])
    } else {
        (r.0, r.1)
    }
}

fn push_separator_if(acc: &mut Vec<Segment>, wrote: bool)
    ensures
        segment_views(final(acc)@) == segment_views(old(acc)@) + separator_if(wrote),
{
    let ghost a0 = segment_views(acc@);
    if wrote {
        let sep = ", ";
        proof {
            reveal_strlit(", ");
        }
        assert(sep@ =~= seq![',', ' ']);
        acc.push(segment(sep, color_style(Color::Plain)));
        assert(segment_views(acc@) =~= a0 + separator_if(wrote));
    } else {
        assert(segment_views(acc@) =~= a0 + separator_if(wrote));
    }
}

fn push_version(acc: &mut Vec<Segment>, v: &Version, c: Color)
    ensures
        segment_views(final(acc)@) == segment_views(old(acc)@) + version_segments(v@, c),
{
    let ps = v.pieces();
    push_pieces(acc, &ps, 0, ps.len(), c);
    assert(piece_views(ps@).subrange(0, ps@.len() as int) == piece_views(ps@));
}

/// The old and new columns for a package's versions: the versions are paired
/// as closely as they can be, a version of one side alone is red (old) or
/// green (new), each changed pair is shown side by side, and with
/// `has_common_versions` each column ends in `<others>`.
#[verifier::rlimit(40)]
#[verifier::spinoff_prover]
pub fn fmt_version_diffs(old_versions: &[Version], new_versions: &[Version], has_common_versions: bool) -> (r: (
    Vec<Segment>,
    Vec<Segment>,
))
    requires
        pairing_fits(version_views(old_versions@), version_views(new_versions@)),
    ensures
        (segment_views(r.0@), segment_views(r.1@)) == version_diff_columns(
            version_views(old_versions@),
            version_views(new_versions@),
            has_common_versions,
        ),
{
    let mut old_acc: Vec<Segment> = Vec::new();
    let mut new_acc: Vec<Segment> = Vec::new();
    let mut old_wrote = false;
    let mut new_wrote = false;
    let pairs = match_version_lists(old_versions, new_versions);
    let ghost p = pairing_views(pairs@);
    let mut k: usize = 0;
    while k < pairs.len()
        invariant
            k <= pairs@.len(),
            p == pairing_views(pairs@),
            (segment_views(old_acc@), segment_views(new_acc@), old_wrote, new_wrote) == diff_columns(
                p.take(k as int),
            ),
        decreases pairs@.len() - k,
    {
        proof {
            assert(p.take(k + 1).drop_last() == p.take(k as int));
            assert(p.take(k + 1).last() == entry_view(pairs@[k as int]));
        }
        match pairs[k] {
            EitherOrBoth::Left(v) => {
                push_separator_if(&mut old_acc, old_wrote);
                push_version(&mut old_acc, v, Color::Red);
                old_wrote = true;
            },
            EitherOrBoth::Right(v) => {
                push_separator_if(&mut new_acc, new_wrote);
                push_version(&mut new_acc, v, Color::Green);
                new_wrote = true;
            },
            EitherOrBoth::Both(a, b) => {
                if !a.same(b) {
                    push_separator_if(&mut old_acc, old_wrote);
                    push_separator_if(&mut new_acc, new_wrote);
                    fmt_single_version_diff(&mut old_acc, &mut new_acc, a, b);
                    old_wrote = true;
                    new_wrote = true;
                }
            },
        }
        k = k + 1;
    }
    assert(p.take(pairs@.len() as int) == p);
    if has_common_versions {
        push_separator_if(&mut old_acc, old_wrote);
        push_separator_if(&mut new_acc, new_wrote);
        let others = Style { color: Color::Blue, bold: false, italic: true };
        let ghost (o1, n1) = (segment_views(old_acc@), segment_views(new_acc@));
        let label = "<others>";
        proof {
            reveal_strlit("<others>");
        }
        assert(label@ =~= others_segment().0);
        old_acc.push(segment(label, others));
        new_acc.push(segment(label, others));
        proof {
            assert(segment_views(old_acc@) =~= o1 + seq![others_segment()]);
            assert(segment_views(new_acc@) =~= n1 + seq![others_segment()]);
        }
    }
    (old_acc, new_acc)
}


/// The heading of a section.
pub open spec fn header_text(s: DiffStatus) -> Seq<char> {
    match s {
        DiffStatus::Changed(_) => seq!['C', 'H', 'A', 'N', 'G', 'E', 'D'],
        DiffStatus::Added => seq!['A', 'D', 'D', 'E', 'D'],
        DiffStatus::Removed => seq!['R', 'E', 'M', 'O', 'V', 'E', 'D'],
    }
}

/// `name` padded with spaces to `width` characters.
pub open spec fn padded(name: Seq<char>, width: nat) -> Seq<char> {
    if name.len() < width {
        name + Seq::new((width - name.len()) as nat, |i: int| ' ')
    } else {
        name
    }
}

/// The widest display width of the diffs' names.
pub open spec fn max_name_width(ds: Seq<DiffView>) -> nat
    decreases ds.len(),
{
    if ds.len() == 0 {
        0
    } else {
        let m = max_name_width(ds.drop_last());
        let w = unicode_width_of(ds.last().name) as nat;
        if w > m {
            w
        } else {
            m
        }
    }
}

/// The width of the name column: one more than the widest name.
pub open spec fn name_column_width(ds: Seq<DiffView>) -> nat {
    if max_name_width(ds) < usize::MAX {
        max_name_width(ds) + 1
    } else {
        max_name_width(ds)
    }
}

pub open spec fn bold() -> Style {
    Style { color: Color::Plain, bold: true, italic: false }
}

/// The line of one diff: its status and selection marks in brackets, its
/// name padded to the column, then the old versions, an arrow when both
/// sides show something, and the new versions.
pub open spec fn diff_line(d: DiffView, width: nat) -> Seq<SegView> {
    let cols = version_diff_columns(d.old, d.new, d.has_common_versions);
    let arrow = if cols.0.len() > 0 && cols.1.len() > 0 {
        seq![(seq![' ', '-', '>', ' '], plain())]
    } else {
        seq![]
    };
    seq![
        (seq!['['], plain()),
        (seq![status_symbol(d.status)], status_style(d.status)),
        (seq![selection_symbol(d.selection)], selection_style(d.selection)),
        (seq![']', ' '], plain()),
        (padded(d.name, width), selection_style(d.selection)),
    ] + cols.0 + arrow + cols.1
}

/// The lines of a list of diffs: a heading before each run of one section,
/// with an empty line before every heading but the first.
pub open spec fn render_lines(ds: Seq<DiffView>, width: nat) -> Seq<Seq<SegView>>
    decreases ds.len(),
{
    if ds.len() == 0 {
        seq![]
    } else {
        let r = render_lines(ds.drop_last(), width);
        let d = ds.last();
        let first = ds.len() == 1;
        let new_section = first || status_rank(ds[ds.len() - 2].status) != status_rank(d.status);
        let head: Seq<Seq<SegView>> = if new_section {
            (if first { seq![] } else { seq![seq![]] }) + seq![seq![(header_text(d.status), bold())]]
        } else {
            seq![]
        };
        r + head + seq![diff_line(d, width)]
    }
}

/// Whether every diff's version lists are small enough to pair.
pub open spec fn diffs_fit(ds: Seq<DiffView>) -> bool {
    forall|i: int| 0 <= i < ds.len() ==> pairing_fits(#[trigger] ds[i].old, ds[i].new)
}

pub fn pad_name(name: &str, width: usize) -> (s: String)
    ensures
        s@ == padded(name@, width as nat),
{
    let chars = chars_of(name);
    let mut s = name.to_owned();
    let mut n = chars.len();
    while n < width
        invariant
            chars.len() <= n <= width || (n == chars.len() && n >= width),
            chars@ == name@,
            n < width ==> s@ == name@ + Seq::new((n - chars@.len()) as nat, |i: int| ' '),
            n >= width ==> s@ == padded(name@, width as nat),
        decreases width - n,
    {
        s.push(' ');
        n = n + 1;
        assert(s@ =~= name@ + Seq::new((n - chars@.len()) as nat, |i: int| ' '));
    }
    if chars.len() >= width {
        assert(s@ == padded(name@, width as nat));
    }
    s
}

fn push_text(line: &mut Vec<Segment>, text: &str, style: Style)
    ensures
        segment_views(final(line)@) == segment_views(old(line)@).push((text@, style)),
{
    let ghost l0 = segment_views(line@);
    line.push(segment(text, style));
    assert(segment_views(line@) =~= l0.push((text@, style)));
}

fn push_char(line: &mut Vec<Segment>, c: char, style: Style)
    ensures
        segment_views(final(line)@) == segment_views(old(line)@).push((seq![c], style)),
{
    let ghost l0 = segment_views(line@);
    line.push(char_segment(c, style));
    assert(segment_views(line@) =~= l0.push((seq![c], style)));
}

/// The line of one diff in a name column of `width`.
fn diff_line_of(d: &Diff, width: usize) -> (line: Vec<Segment>)
    requires
        pairing_fits(d@.old, d@.new),
    ensures
        segment_views(line@) == diff_line(d@, width as nat),
{
    let mut line: Vec<Segment> = Vec::new();
    let open_bracket = "[";
    let close_bracket = "] ";
    let arrow = " -> ";
    proof {
        reveal_strlit("[");
        reveal_strlit("] ");
        reveal_strlit(" -> ");
    }
    assert(open_bracket@ =~= seq!['[']);
    assert(close_bracket@ =~= seq![']', ' ']);
    assert(arrow@ =~= seq![' ', '-', '>', ' ']);
    push_text(&mut line, open_bracket, color_style(Color::Plain));
    push_char(&mut line, d.status.symbol(), d.status.style());
    push_char(&mut line, d.selection.symbol(), d.selection.style());
    push_text(&mut line, close_bracket, color_style(Color::Plain));
    let name = pad_name(d.name.as_str(), width);
    push_text(&mut line, name.as_str(), d.selection.style());
    let ghost head = segment_views(line@);
    let (old_col, new_col) = fmt_version_diffs(d.old.as_slice(), d.new.as_slice(), d.has_common_versions);
    let show_arrow = old_col.len() > 0 && new_col.len() > 0;
    append_segments(&mut line, old_col);
    if show_arrow {
        push_text(&mut line, arrow, color_style(Color::Plain));
    }
    append_segments(&mut line, new_col);
    proof {
        let cols = version_diff_columns(d@.old, d@.new, d@.has_common_versions);
        assert(head =~= seq![
            (seq!['['], plain()),
            (seq![status_symbol(d.status)], status_style(d.status)),
            (seq![selection_symbol(d.selection)], selection_style(d.selection)),
            (seq![']', ' '], plain()),
            (padded(d@.name, width as nat), selection_style(d.selection)),
        ]);
        let arrow_part = if cols.0.len() > 0 && cols.1.len() > 0 {
            seq![(seq![' ', '-', '>', ' '], plain())]
        } else {
            seq![]
        };
        assert(segment_views(line@) =~= head + cols.0 + arrow_part + cols.1);
    }
    line
}

fn header_line(status: DiffStatus) -> (line: Vec<Segment>)
    ensures
        segment_views(line@) == seq![(header_text(status), bold())],
{
    let text = match status {
        DiffStatus::Changed(_) => "CHANGED",
        DiffStatus::Added => "ADDED",
        DiffStatus::Removed => "REMOVED",
    };
    proof {
        reveal_strlit("CHANGED");
        reveal_strlit("ADDED");
        reveal_strlit("REMOVED");
    }
    assert(text@ =~= header_text(status));
    let mut line: Vec<Segment> = Vec::new();
    push_text(&mut line, text, Style { color: Color::Plain, bold: true, italic: false });
    assert(segment_views(line@) =~= seq![(header_text(status), bold())]);
    line
}

pub open spec fn line_views(ls: Seq<Vec<Segment>>) -> Seq<Seq<SegView>> {
    ls.map_values(|l: Vec<Segment>| segment_views(l@))
}

/// The lines that show a list of diffs: sections of changed, added and
/// removed packages under their headings, one line per package with its
/// name padded to one more than the widest name.
#[verifier::rlimit(100)]
pub fn render_diffs(diffs: &Vec<Diff>) -> (lines: Vec<Vec<Segment>>)
    requires
        diffs_fit(diff_views(diffs@)),
    ensures
        line_views(lines@) == render_lines(diff_views(diffs@), name_column_width(diff_views(diffs@))),
{
    let ghost dv = diff_views(diffs@);
    let mut widest: usize = 0;
    let mut i: usize = 0;
    while i < diffs.len()
        invariant
            i <= diffs@.len(),
            dv == diff_views(diffs@),
            widest == max_name_width(dv.take(i as int)),
        decreases diffs@.len() - i,
    {
        let w = text_width(diffs[i].name.as_str());
        assert(dv.take(i + 1).drop_last() == dv.take(i as int));
        assert(dv.take(i + 1).last() == dv[i as int]);
        if w > widest {
            widest = w;
        }
        i = i + 1;
    }
    assert(dv.take(diffs@.len() as int) == dv);
    let width = widest.saturating_add(1);
    let mut lines: Vec<Vec<Segment>> = Vec::new();
    let mut k: usize = 0;
    while k < diffs.len()
        invariant
            k <= diffs@.len(),
            dv == diff_views(diffs@),
            diffs_fit(dv),
            width == name_column_width(dv),
            line_views(lines@) == render_lines(dv.take(k as int), width as nat),
        decreases diffs@.len() - k,
    {
        let ghost before = line_views(lines@);
        proof {
            assert(dv.take(k + 1).drop_last() == dv.take(k as int));
            assert(dv.take(k + 1).last() == dv[k as int]);
            assert(pairing_fits(dv[k as int].old, dv[k as int].new));
            if k > 0 {
                assert(dv.take(k + 1)[k - 1] == dv[k - 1]);
            }
        }
        let new_section = k == 0 || diffs[k - 1].status.compare(&diffs[k].status) != Order::Equal;
        let ghost l0 = lines@;
        if new_section {
            if k > 0 {
                let blank: Vec<Segment> = Vec::new();
                assert(segment_views(blank@) =~= Seq::<SegView>::empty());
                lines.push(blank);
            }
            lines.push(header_line(diffs[k].status));
        }
        let ghost l1 = lines@;
        let line = diff_line_of(&diffs[k], width);
        lines.push(line);
        proof {
            assert(lines@ == l1.push(line));
            if new_section {
                if k > 0 {
                    assert(line_views(l1) =~= line_views(l0) + seq![seq![], seq![(header_text(dv[k as int].status), bold())]]);
                } else {
                    assert(line_views(l1) =~= line_views(l0) + seq![seq![(header_text(dv[k as int].status), bold())]]);
                }
            } else {
                assert(l1 == l0);
            }
            let d = dv[k as int];
            let head: Seq<Seq<SegView>> = if new_section {
                (if k == 0 { seq![] } else { seq![seq![]] }) + seq![seq![(header_text(d.status), bold())]]
            } else {
                seq![]
            };
            assert(line_views(lines@) =~= before + head + seq![diff_line(d, width as nat)]);
        }
        k = k + 1;
    }
    assert(dv.take(diffs@.len() as int) == dv);
    lines
}


pub open spec fn none_text() -> Seq<char> {
    seq!['<', 'n', 'o', 'n', 'e', '>']
}

/// The version a store path records: its version, or `<none>`.
pub open spec fn version_or_none(v: Option<Seq<char>>) -> VersionView {
    match v {
        Some(x) => (x, 1nat),
        None => (none_text(), 1nat),
    }
}

/// The first entry with the given name, or -1.
pub open spec fn entry_index(e: Seq<EntryView>, name: Seq<char>) -> int
    decreases e.len(),
{
    if e.len() == 0 {
        -1
    } else if entry_index(e.drop_last(), name) >= 0 {
        entry_index(e.drop_last(), name)
    } else if e.last().0 == name {
        e.len() - 1
    } else {
        -1
    }
}

pub type PathView = (Seq<char>, Option<Seq<char>>);

/// Records a parsed store path under its name, on the old or the new side.
pub open spec fn add_path(e: Seq<EntryView>, p: PathView, is_old: bool) -> Seq<EntryView> {
    let i = entry_index(e, p.0);
    let v = version_or_none(p.1);
    if i >= 0 {
        e.update(i, if is_old { (e[i].0, e[i].1.push(v), e[i].2) } else { (e[i].0, e[i].1, e[i].2.push(v)) })
    } else {
        e.push(if is_old { (p.0, seq![v], seq![]) } else { (p.0, seq![], seq![v]) })
    }
}

pub open spec fn add_paths(e: Seq<EntryView>, ps: Seq<PathView>, is_old: bool) -> Seq<EntryView>
    decreases ps.len(),
{
    if ps.len() == 0 {
        e
    } else {
        add_path(add_paths(e, ps.drop_last(), is_old), ps.last(), is_old)
    }
}

/// Each package name with its versions before and after, in the order the
/// names first occur.
pub open spec fn collected_versions(old: Seq<PathView>, new: Seq<PathView>) -> Seq<EntryView> {
    add_paths(add_paths(seq![], old, true), new, false)
}

pub open spec fn path_views(ps: Seq<(String, Option<String>)>) -> Seq<PathView> {
    ps.map_values(
        |p: (String, Option<String>)|
            (
                p.0@,
                match p.1 {
                    Some(v) => Some(v@),
                    None => None,
                },
            ),
    )
}

proof fn lemma_entry_index_bound(e: Seq<EntryView>, name: Seq<char>)
    ensures
        -1 <= entry_index(e, name) < e.len(),
        entry_index(e, name) >= 0 ==> e[entry_index(e, name)].0 == name,
        entry_index(e, name) < 0 ==> forall|k: int| 0 <= k < e.len() ==> #[trigger] e[k].0 != name,
    decreases e.len(),
{
    if e.len() > 0 {
        lemma_entry_index_bound(e.drop_last(), name);
        assert forall|k: int| 0 <= k < e.len() - 1 implies #[trigger] e[k].0 == e.drop_last()[k].0 by {}
    }
}

/// The index of the entry named `name`, if there is one.
fn find_entry(entries: &Vec<(String, (Vec<Version>, Vec<Version>))>, name: &str) -> (r: Option<usize>)
    ensures
        match r {
            Some(i) => i as int == entry_index(entry_views(entries@), name@),
            None => entry_index(entry_views(entries@), name@) < 0,
        },
{
    let ghost ev = entry_views(entries@);
    let mut i: usize = 0;
    while i < entries.len()
        invariant
            i <= entries@.len(),
            ev == entry_views(entries@),
            entry_index(ev.take(i as int), name@) < 0,
        decreases entries@.len() - i,
    {
        assert(ev.take(i + 1).drop_last() == ev.take(i as int));
        assert(ev.take(i + 1).last() == ev[i as int]);
        if str_eq(entries[i].0.as_str(), name) {
            proof {
                assert(entry_index(ev.take(i + 1), name@) == i);
                lemma_entry_index_prefix(ev, name@, i + 1);
            }
            return Some(i);
        }
        i = i + 1;
    }
    assert(ev.take(entries@.len() as int) == ev);
    None
}

proof fn lemma_entry_index_prefix(e: Seq<EntryView>, name: Seq<char>, n: int)
    requires
        0 <= n <= e.len(),
        entry_index(e.take(n), name) >= 0,
    ensures
        entry_index(e, name) == entry_index(e.take(n), name),
    decreases e.len() - n,
{
    if n < e.len() {
        assert(e.take(n + 1).drop_last() == e.take(n));
        lemma_entry_index_prefix(e, name, n + 1);
    } else {
        assert(e.take(n) == e);
    }
}

fn version_of_path(v: &Option<String>) -> (r: Version)
    ensures
        r@ == version_or_none(match v {
            Some(x) => Some(x@),
            None => None,
        }),
{
    match v {
        Some(x) => Version { name: x.clone(), amount: 1 },
        None => {
            let none = "<none>";
            proof {
                reveal_strlit("<none>");
            }
            assert(none@ =~= none_text());
            Version::new(none)
        },
    }
}

fn add_paths_exec(entries: &mut Vec<(String, (Vec<Version>, Vec<Version>))>, paths: &Vec<(String, Option<String>)>, is_old: bool)
    ensures
        entry_views(final(entries)@) == add_paths(entry_views(old(entries)@), path_views(paths@), is_old),
{
    let ghost e0 = entry_views(entries@);
    let ghost pv = path_views(paths@);
    let mut k: usize = 0;
    while k < paths.len()
        invariant
            k <= paths@.len(),
            pv == path_views(paths@),
            entry_views(entries@) == add_paths(e0, pv.take(k as int), is_old),
        decreases paths@.len() - k,
    {
        assert(pv.take(k + 1).drop_last() == pv.take(k as int));
        assert(pv.take(k + 1).last() == pv[k as int]);
        let ghost before = entry_views(entries@);
        let v = version_of_path(&paths[k].1);
        match find_entry(entries, paths[k].0.as_str()) {
            Some(i) => {
                proof {
                    lemma_entry_index_bound(before, pv[k as int].0);
                }
                let mut e = entries.remove(i);
                if is_old {
                    e.1.0.push(v);
                } else {
                    e.1.1.push(v);
                }
                entries.insert(i, e);
                proof {
                    let ev = (e.0@, version_views(e.1.0@), version_views(e.1.1@));
                    assert(version_views(e.1.0@) =~= if is_old { before[i as int].1.push(v@) } else { before[i as int].1 });
                    assert(version_views(e.1.1@) =~= if is_old { before[i as int].2 } else { before[i as int].2.push(v@) });
                    assert(entry_views(entries@) =~= before.update(i as int, ev));
                }
            },
            None => {
                let mut olds: Vec<Version> = Vec::new();
                let mut news: Vec<Version> = Vec::new();
                if is_old {
                    olds.push(v);
                } else {
                    news.push(v);
                }
                let name = paths[k].0.clone();
                entries.push((name, (olds, news)));
                proof {
                    assert(version_views(olds@) =~= if is_old { seq![v@] } else { seq![] });
                    assert(version_views(news@) =~= if is_old { seq![] } else { seq![v@] });
                    assert(entry_views(entries@) =~= before.push((name@, version_views(olds@), version_views(news@))));
                }
            },
        }
        k = k + 1;
    }
    assert(pv.take(paths@.len() as int) == pv);
}

/// Groups the parsed store paths of both closures by package name: each
/// package with the versions it has before and after, a path without a
/// version counting as `<none>`.
pub fn collect_path_versions(old: &Vec<(String, Option<String>)>, new: &Vec<(String, Option<String>)>) -> (r: Vec<
    (String, (Vec<Version>, Vec<Version>)),
>)
    ensures
        entry_views(r@) == collected_versions(path_views(old@), path_views(new@)),
{
    let mut entries: Vec<(String, (Vec<Version>, Vec<Version>))> = Vec::new();
    assert(entry_views(entries@) =~= Seq::<EntryView>::empty());
    add_paths_exec(&mut entries, old, true);
    add_paths_exec(&mut entries, new, false);
    entries
}

proof fn lemma_diffs_of_fit(entries: Seq<EntryView>)
    requires
        entries_fit(entries),
    ensures
        diffs_fit(diffs_of(entries)),
    decreases entries.len(),
{
    if entries.len() > 0 {
        let init = entries.drop_last();
        assert forall|i: int| 0 <= i < init.len() implies pairing_fits(#[trigger] init[i].1, init[i].2) by {
            assert(init[i] == entries[i]);
        }
        lemma_diffs_of_fit(init);
        let e = entries.last();
        assert(pairing_fits(entries[entries.len() - 1].1, entries[entries.len() - 1].2));
        lemma_unique_lists_fit(e.1, e.2);
    }
}

/// The diffs a package diff reports: those of the packages of the two
/// closures, each with its selection mark, sorted by section and name.
pub open spec fn reported_diffs(
    paths_old: Seq<PathView>,
    paths_new: Seq<PathView>,
    system_old: Seq<String>,
    system_new: Seq<String>,
) -> Seq<DiffView> {
    sorted_diffs(
        diffs_of(collected_versions(paths_old, paths_new)).map_values(
            |d: DiffView| with_selection(d, system_old, system_new),
        ),
    )
}

/// Everything a package diff shows, from the parsed store paths of the two
/// closures and the names of their system packages: the packages' diffs with
/// their selection marks, sorted by section and name, as lines, and how many
/// diffs there are.
pub fn write_packages_diffln(
    paths_old: &Vec<(String, Option<String>)>,
    paths_new: &Vec<(String, Option<String>)>,
    system_paths_old: &Vec<String>,
    system_paths_new: &Vec<String>,
) -> (r: (Vec<Vec<Segment>>, usize))
    requires
        entries_fit(collected_versions(path_views(paths_old@), path_views(paths_new@))),
    ensures
        ({
            let diffs = reported_diffs(
                path_views(paths_old@),
                path_views(paths_new@),
                system_paths_old@,
                system_paths_new@,
            );
            &&& line_views(r.0@) == render_lines(diffs, name_column_width(diffs))
            &&& r.1 == diffs.len()
        }),
{
    let entries = collect_path_versions(paths_old, paths_new);
    let mut diffs = generate_diffs_from_paths(entries);
    proof {
        lemma_diffs_of_fit(collected_versions(path_views(paths_old@), path_views(paths_new@)));
    }
    add_selection_status(&mut diffs, system_paths_old.as_slice(), system_paths_new.as_slice());
    let ghost selected = diff_views(diffs@);
    sort_diffs(&mut diffs);
    proof {
        let after = |a: DiffView, b: DiffView| diff_after(a, b);
        crate::sorting::lemma_insertion_sorted_len(selected, after);
        assert forall|i: int| 0 <= i < diff_views(diffs@).len() implies pairing_fits(
            #[trigger] diff_views(diffs@)[i].old,
            diff_views(diffs@)[i].new,
        ) by {
            let x = diff_views(diffs@)[i];
            assert(sorted_diffs(selected).contains(x));
            lemma_insertion_sorted_contains(selected, after, x);
            let j = choose|j: int| 0 <= j < selected.len() && selected[j] == x;
        }
    }
    let lines = render_diffs(&diffs);
    let n = diffs.len();
    (lines, n)
}

/// A package whose versions are the same on both sides has no diff: only
/// meaningful changes are reported.
pub proof fn law_unchanged_versions_give_no_diff(name: Seq<char>, versions: Seq<VersionView>)
    ensures
        diff_of(name, versions, versions) is None,
{
    let o = deduplicated(versions);
    let f = only_in(o, o);
    if f.len() > 0 {
        let p = |v: VersionView| !o.contains(v);
        assert(f == o.filter(p));
        o.lemma_filter_pred(p, 0);
        assert(f.contains(f[0]));
        o.lemma_filter_contains_rev(p, f[0]);
    }
}

/// The name of what the `size` crate's `Display` shows for a size of
/// `bytes` bytes, such as `1.50 KiB`.
pub uninterp spec fn size_display(bytes: int) -> Seq<char>;

/// A size as `size::Size` displays it. Its result is named `size_display`
/// and not spelled out here.
#[verifier::external_body]
fn size_text(bytes: i64) -> (s: String)
    ensures
        s@ == size_display(bytes as int),
{
    size::Size::from_bytes(bytes).to_string()
}

/// The lines that compare two closure sizes: the sizes, the old in red and
/// the new in green, then their difference, in green when the closure grew
/// and in red otherwise, each after a bold header.
pub open spec fn size_diff_lines(old: int, new: int) -> Seq<Seq<(Seq<char>, Style)>> {
    let bold = Style { color: Color::Plain, bold: true, italic: false };
    let diff = new - old;
    seq![
        seq![
            ("SIZE"@, bold),
            (": "@, plain()),
            (size_display(old), colored(Color::Red)),
            (" -> "@, plain()),
            (size_display(new), colored(Color::Green)),
        ],
        seq![
            ("DIFF"@, bold),
            (": "@, plain()),
            (size_display(diff), colored(if diff > 0 { Color::Green } else { Color::Red })),
        ],
    ]
}

/// Compares two closure sizes, in bytes.
pub fn write_size_diff(size_old: i64, size_new: i64) -> (lines: Vec<Vec<Segment>>)
    requires
        i64::MIN <= size_new - size_old <= i64::MAX,
    ensures
        line_views(lines@) == size_diff_lines(size_old as int, size_new as int),
{
    let bold = Style { color: Color::Plain, bold: true, italic: false };
    let diff = size_new - size_old;
    let mut first: Vec<Segment> = Vec::new();
    first.push(segment("SIZE", bold));
    first.push(segment(": ", color_style(Color::Plain)));
    first.push(Segment { text: size_text(size_old), style: color_style(Color::Red) });
    first.push(segment(" -> ", color_style(Color::Plain)));
    first.push(Segment { text: size_text(size_new), style: color_style(Color::Green) });
    let mut second: Vec<Segment> = Vec::new();
    second.push(segment("DIFF", bold));
    second.push(segment(": ", color_style(Color::Plain)));
    let c = if diff > 0 {
        Color::Green
    } else {
        Color::Red
    };
    second.push(Segment { text: size_text(diff), style: color_style(c) });
    let mut lines: Vec<Vec<Segment>> = Vec::new();
    lines.push(first);
    lines.push(second);
    proof {
        let expected = size_diff_lines(size_old as int, size_new as int);
        assert(segment_views(lines@[0]@) =~= expected[0]);
        assert(segment_views(lines@[1]@) =~= expected[1]);
        assert(line_views(lines@) =~= expected);
    }
    lines
}

#[verifier::rlimit(40)]
#[verifier::spinoff_prover]
fn weight_fits(n: u128, c: u64) -> (b: bool)
    ensures
        b == crate::matching::fits_weight(n as nat, c as nat),
{
    if c == 0 {
        true
    } else if n > 0x7fff_ffff {
        assert(n * c > i32::MAX) by (nonlinear_arith)
            requires
                n > 0x7fff_ffff,
                c >= 1,
        ;
        false
    } else {
        assert(n * c <= 0x7fff_ffff * 0xffff_ffff_ffff_ffff) by (nonlinear_arith)
            requires
                n <= 0x7fff_ffff,
                c <= 0xffff_ffff_ffff_ffff,
        ;
        n * c as u128 <= 0x7fff_ffff
    }
}

/// Whether every version of `vs` has few enough components to be paired
/// among `total` versions.
fn all_fit(vs: &Vec<Version>, total: u128) -> (b: bool)
    ensures
        b == forall|j: int|
            0 <= j < vs@.len() ==> crate::matching::fits_weight(
                total as nat,
                #[trigger] components_of(version_views(vs@)[j].0).len(),
            ),
{
    let ghost v = version_views(vs@);
    let mut i: usize = 0;
    while i < vs.len()
        invariant
            i <= vs@.len(),
            v == version_views(vs@),
            forall|j: int|
                0 <= j < i ==> crate::matching::fits_weight(
                    total as nat,
                    #[trigger] components_of(v[j].0).len(),
                ),
        decreases vs@.len() - i,
    {
        let comps = vs[i].components();
        let c = comps.len();
        assert(v[i as int].0 == vs@[i as int].name@);
        assert(crate::version::component_views(comps@).len() == c);
        if !weight_fits(total, c as u64) {
            assert(!crate::matching::fits_weight(total as nat, components_of(v[i as int].0).len()));
            return false;
        }
        i = i + 1;
    }
    true
}

/// Whether a pair of version lists is small enough to be paired: every
/// version's component count fits the assignment's weights.
pub fn versions_fit(from: &Vec<Version>, to: &Vec<Version>) -> (b: bool)
    ensures
        b == pairing_fits(version_views(from@), version_views(to@)),
{
    let total = from.len() as u128 + to.len() as u128;
    all_fit(from, total) && all_fit(to, total)
}

/// Whether the closures' packages are small enough to be diffed: the check
/// `write_packages_diffln` needs to hold.
pub fn packages_fit(
    paths_old: &Vec<(String, Option<String>)>,
    paths_new: &Vec<(String, Option<String>)>,
) -> (b: bool)
    ensures
        b == entries_fit(collected_versions(path_views(paths_old@), path_views(paths_new@))),
{
    let entries = collect_path_versions(paths_old, paths_new);
    let ghost ev = entry_views(entries@);
    let mut i: usize = 0;
    while i < entries.len()
        invariant
            i <= entries@.len(),
            ev == entry_views(entries@),
            ev == collected_versions(path_views(paths_old@), path_views(paths_new@)),
            forall|j: int| 0 <= j < i ==> pairing_fits(#[trigger] ev[j].1, ev[j].2),
        decreases entries@.len() - i,
    {
        let ok = versions_fit(&entries[i].1.0, &entries[i].1.1);
        assert(ev[i as int].1 == version_views(entries@[i as int].1.0@));
        assert(ev[i as int].2 == version_views(entries@[i as int].1.1@));
        if !ok {
            assert(ev[i as int].1 == version_views(entries@[i as int].1.0@));
            assert(ev[i as int].2 == version_views(entries@[i as int].1.1@));
            assert(!pairing_fits(ev[i as int].1, ev[i as int].2));
            return false;
        }
        i = i + 1;
    }
    true
}

} // verus!
