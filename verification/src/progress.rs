//! A dnf-style model of a Nix build: the transaction `--dry-run` announces,
//! and fixed-width progress rows for the work in flight and the work done.

use vstd::prelude::*;

use crate::strings::{
    char_is_ascii_alphabetic, contains, contains_text, is_ascii_alphabetic, lines, lines_of,
    push_str, starts_with, starts_with_text, str_views, trim, trimmed,
};
use crate::text::{chars_of, str_eq};

verus! {

/// The transaction, as reported by `nix build --dry-run`.
#[derive(Debug, Clone)]
pub struct Plan {
    pub builds: usize,
    /// The store paths to be fetched, each once.
    pub fetches: Vec<String>,
    /// Nix's own size note, e.g. "22.54 MiB download, 22.99 MiB unpacked".
    pub sizes: Option<String>,
    /// Whether `--dry-run` has actually reported yet.
    pub known: bool,
}

pub struct PlanView {
    pub builds: nat,
    pub fetches: Seq<Seq<char>>,
    pub sizes: Option<Seq<char>>,
    pub known: bool,
}

pub open spec fn text_views(v: Seq<String>) -> Seq<Seq<char>> {
    v.map_values(|s: String| s@)
}

impl View for Plan {
    type V = PlanView;

    open spec fn view(&self) -> PlanView {
        PlanView {
            builds: self.builds as nat,
            fetches: text_views(self.fetches@),
            sizes: match self.sizes {
                Some(s) => Some(s@),
                None => None,
            },
            known: self.known,
        }
    }
}

impl Default for Plan {
    fn default() -> (p: Plan)
        ensures
            p@ == (PlanView { builds: 0, fetches: seq![], sizes: None, known: false }),
    {
        let p = Plan { builds: 0, fetches: Vec::new(), sizes: None, known: false };
        assert(text_views(p.fetches@) =~= Seq::<Seq<char>>::empty());
        p
    }
}

/// Whether `v` holds the text `t`.
pub open spec fn holds_text(v: Seq<Seq<char>>, t: Seq<char>) -> bool {
    v.contains(t)
}

fn has_text(v: &Vec<String>, t: &str) -> (b: bool)
    ensures
        b == holds_text(text_views(v@), t@),
{
    let mut i: usize = 0;
    while i < v.len()
        invariant
            i <= v@.len(),
            forall|k: int| 0 <= k < i ==> v@[k]@ != t@,
        decreases v@.len() - i,
    {
        if str_eq(v[i].as_str(), t) {
            assert(text_views(v@)[i as int] == t@);
            return true;
        }
        i = i + 1;
    }
    proof {
        if text_views(v@).contains(t@) {
            let k = choose|k: int| 0 <= k < v@.len() && text_views(v@)[k] == t@;
            assert(v@[k]@ == t@);
        }
    }
    false
}

impl Plan {
    /// Adds a path to be fetched, unless it is already there.
    pub fn add_fetch(&mut self, path: &str)
        ensures
            final(self)@ == (PlanView {
                fetches: if holds_text(old(self)@.fetches, path@) {
                    old(self)@.fetches
                } else {
                    old(self)@.fetches.push(path@)
                },
                ..old(self)@
            }),
    {
        if !has_text(&self.fetches, path) {
            let ghost before = text_views(self.fetches@);
            self.fetches.push(path.to_owned());
            assert(text_views(self.fetches@) =~= before.push(path@));
        }
    }

    /// Whether `path` is one of the paths to be fetched.
    pub fn fetches_path(&self, path: &str) -> (b: bool)
        ensures
            b == holds_text(self@.fetches, path@),
    {
        has_text(&self.fetches, path)
    }
}

/// The two totals of a plan add up within `usize`.
pub open spec fn plan_fits(p: PlanView) -> bool {
    p.fetches.len() + p.builds <= usize::MAX
}

/// Which list of the dry run a line belongs to.
#[derive(Debug, Clone, Copy, PartialEq, Eq, Structural)]
pub enum Section {
    Outside,
    Build,
    Fetch,
}

/// The first index of `c` in `s`, or -1.
pub open spec fn index_of_char(s: Seq<char>, c: char) -> int
    decreases s.len(),
{
    if s.len() == 0 {
        -1
    } else if s[0] == c {
        0
    } else if index_of_char(s.drop_first(), c) < 0 {
        -1
    } else {
        1 + index_of_char(s.drop_first(), c)
    }
}

/// The text between the first `(` and the first `)` after it.
pub open spec fn paren_note(t: Seq<char>) -> Option<Seq<char>> {
    let i = index_of_char(t, '(');
    if i < 0 {
        None
    } else {
        let rest = t.skip(i + 1);
        let j = index_of_char(rest, ')');
        if j < 0 {
            None
        } else {
            Some(rest.take(j))
        }
    }
}

/// One line of the dry run: a heading opens its list (the fetch heading also
/// carries the size note); a store path counts toward the open list, once
/// for fetches; any other unindented, nonblank text closes the list.
pub open spec fn plan_step(st: (Section, PlanView), line: Seq<char>) -> (Section, PlanView) {
    let t = trimmed(line);
    let (section, plan) = st;
    if contains_text(t, "will be built"@) {
        (Section::Build, plan)
    } else if contains_text(t, "will be fetched"@) {
        (Section::Fetch, PlanView { sizes: paren_note(t), ..plan })
    } else if !starts_with(t, "/nix/store/"@) {
        if !starts_with(line, " "@) && t.len() > 0 {
            (Section::Outside, plan)
        } else {
            (section, plan)
        }
    } else {
        match section {
            Section::Build => (section, PlanView { builds: plan.builds + 1, ..plan }),
            Section::Fetch => (
                section,
                PlanView {
                    fetches: if holds_text(plan.fetches, t) {
                        plan.fetches
                    } else {
                        plan.fetches.push(t)
                    },
                    ..plan
                },
            ),
            Section::Outside => (section, plan),
        }
    }
}

pub open spec fn plan_walk(ls: Seq<Seq<char>>) -> (Section, PlanView)
    decreases ls.len(),
{
    if ls.len() == 0 {
        (Section::Outside, PlanView { builds: 0, fetches: seq![], sizes: None, known: true })
    } else {
        plan_step(plan_walk(ls.drop_last()), ls.last())
    }
}

/// The plan `nix build --dry-run` reports.
pub open spec fn plan_of(stderr: Seq<char>) -> PlanView {
    plan_walk(lines_of(stderr)).1
}

fn index_of_exec(s: &Vec<char>, c: char, from: usize) -> (r: Option<usize>)
    requires
        from <= s@.len(),
    ensures
        match r {
            Some(i) => from <= i < s@.len() && index_of_char(s@.skip(from as int), c) == i - from,
            None => index_of_char(s@.skip(from as int), c) < 0,
        },
{
    let mut i = from;
    while i < s.len()
        invariant
            from <= i <= s@.len(),
            index_of_char(s@.skip(from as int), c) == if index_of_char(s@.skip(i as int), c) < 0 {
                -1
            } else {
                i - from + index_of_char(s@.skip(i as int), c)
            },
        decreases s@.len() - i,
    {
        assert(s@.skip(i as int)[0] == s@[i as int]);
        if s[i] == c {
            return Some(i);
        }
        assert(s@.skip(i as int).drop_first() == s@.skip(i + 1));
        i = i + 1;
    }
    assert(s@.skip(i as int).len() == 0);
    None
}

fn paren_note_of(t: &str) -> (r: Option<String>)
    ensures
        match r {
            Some(n) => paren_note(t@) == Some(n@),
            None => paren_note(t@) is None,
        },
{
    let cs = chars_of(t);
    let n = cs.len();
    assert(t@.skip(0) == t@);
    match index_of_exec(&cs, '(', 0) {
        None => None,
        Some(i) => match index_of_exec(&cs, ')', i + 1) {
            None => None,
            Some(j) => {
                let note = t.substring_char(i + 1, j);
                assert(note@ =~= t@.skip(i + 1).take(j - (i + 1)));
                Some(note.to_owned())
            },
        },
    }
}

/// Parses the plan out of `nix build --dry-run`'s stderr.
///
/// The shape is a header line naming a section, followed by indented store
/// paths, e.g. "these 101 paths will be fetched (22.54 MiB download, ...):".
pub fn parse_plan(stderr: &str) -> (plan: Plan)
    ensures
        plan@ == plan_of(stderr@),
        plan_fits(plan@),
{
    let ls = lines(stderr);
    let ghost lv = str_views(ls@);
    let mut plan = Plan { builds: 0, fetches: Vec::new(), sizes: None, known: true };
    let mut section = Section::Outside;
    assert(text_views(plan.fetches@) =~= Seq::<Seq<char>>::empty());
    let mut k: usize = 0;
    while k < ls.len()
        invariant
            k <= ls@.len(),
            lv == str_views(ls@),
            (section, plan@) == plan_walk(lv.take(k as int)),
            plan.builds + plan.fetches@.len() <= k,
        decreases ls@.len() - k,
    {
        assert(lv.take(k + 1).drop_last() == lv.take(k as int));
        assert(lv.take(k + 1).last() == ls@[k as int]@);
        let line = ls[k];
        let t = trim(line);
        assert(text_views(plan.fetches@).len() == plan.fetches@.len());
        if contains(t, "will be built") {
            section = Section::Build;
        } else if contains(t, "will be fetched") {
            section = Section::Fetch;
            plan.sizes = paren_note_of(t);
        } else if !starts_with_text(t, "/nix/store/") {
            if !starts_with_text(line, " ") && t.unicode_len() > 0 {
                section = Section::Outside;
            }
        } else {
            match section {
                Section::Build => {
                    plan.builds = plan.builds + 1;
                },
                Section::Fetch => {
                    plan.add_fetch(t);
                    assert(text_views(plan.fetches@).len() == plan.fetches@.len());
                },
                Section::Outside => {},
            }
        }
        k = k + 1;
    }
    assert(lv.take(ls@.len() as int) == lv);
    assert(text_views(plan.fetches@).len() == plan.fetches@.len());
    plan
}

/// What follows the last `/`.
pub open spec fn after_slash(s: Seq<char>) -> Seq<char> {
    crate::changelog::last_segment(s)
}

/// The name a person would recognise in a store path: without the
/// directories, the `.drv` suffix and the hash up to the first `-`.
pub open spec fn store_name_of(path: Seq<char>) -> Seq<char> {
    let base = after_slash(path);
    let base = if crate::strings::ends_with(base, ".drv"@) {
        base.take(base.len() - 4)
    } else {
        base
    };
    let i = index_of_char(base, '-');
    if i < 0 {
        base
    } else {
        base.skip(i + 1)
    }
}

/// Strips `/nix/store/<hash>-` and any `.drv` suffix, leaving the name a person
/// would recognise.
pub fn store_name(path: &str) -> (name: String)
    ensures
        name@ == store_name_of(path@),
{
    let base = last_path_segment(path);
    let cs = chars_of(base);
    proof {
        reveal_strlit(".drv");
    }
    let stem = if crate::strings::ends_with_text(base, ".drv") {
        base.substring_char(0, cs.len() - 4)
    } else {
        base
    };
    let sc = chars_of(stem);
    let sn = sc.len();
    assert(stem@.skip(0) == stem@);
    match index_of_exec(&sc, '-', 0) {
        None => stem.to_owned(),
        Some(i) => {
            let rest = stem.substring_char(i + 1, sc.len());
            assert(rest@ =~= stem@.skip(i + 1));
            rest.to_owned()
        },
    }
}

fn last_path_segment<'a>(s: &'a str) -> (r: &'a str)
    ensures
        r@ == after_slash(s@),
{
    let cs = chars_of(s);
    let n = cs.len();
    let mut i: usize = n;
    assert(s@.take(n as int) == s@);
    assert(s@.skip(n as int) =~= Seq::<char>::empty());
    while i > 0 && cs[i - 1] != '/'
        invariant
            i <= n,
            n == s@.len(),
            cs@ == s@,
            after_slash(s@) == after_slash(s@.take(i as int)) + s@.skip(i as int),
        decreases i,
    {
        assert(s@.take(i as int).drop_last() == s@.take(i - 1));
        assert(s@.take(i as int).last() == s@[i - 1]);
        assert(s@.skip(i - 1) == seq![s@[i - 1]] + s@.skip(i as int));
        i = i - 1;
    }
    proof {
        if i > 0 {
            assert(s@.take(i as int).last() == '/');
        }
        assert(s@.take(0) =~= Seq::<char>::empty());
        assert(after_slash(s@.take(i as int)) =~= Seq::<char>::empty());
    }
    let r = s.substring_char(i, n);
    assert(r@ =~= after_slash(s@));
    r
}


pub open spec fn esc() -> char {
    '\u{1b}'
}

/// Printable columns of `s` from a state inside (`in_escape`) or outside an
/// escape sequence; an escape runs from `ESC` to the first ASCII letter.
pub open spec fn width_from(s: Seq<char>, in_escape: bool) -> nat
    decreases s.len(),
{
    if s.len() == 0 {
        0
    } else if in_escape {
        width_from(s.drop_first(), !is_ascii_alphabetic(s[0]))
    } else if s[0] == esc() {
        width_from(s.drop_first(), true)
    } else {
        1 + width_from(s.drop_first(), false)
    }
}

/// Printable columns, escape sequences not counted.
pub open spec fn display_width_of(s: Seq<char>) -> nat {
    width_from(s, false)
}

pub proof fn lemma_width_from_bound(s: Seq<char>, e: bool)
    ensures
        width_from(s, e) <= s.len(),
    decreases s.len(),
{
    if s.len() > 0 {
        if e {
            lemma_width_from_bound(s.drop_first(), !is_ascii_alphabetic(s[0]));
        } else if s[0] == esc() {
            lemma_width_from_bound(s.drop_first(), true);
        } else {
            lemma_width_from_bound(s.drop_first(), false);
        }
    }
}

/// Counts printable columns, ignoring SGR escape sequences.
pub fn display_width(text: &str) -> (w: usize)
    ensures
        w == display_width_of(text@),
{
    let cs = chars_of(text);
    let mut width: usize = 0;
    let mut in_escape = false;
    let mut i: usize = 0;
    assert(text@.skip(0) == text@);
    while i < cs.len()
        invariant
            i <= cs@.len(),
            cs@ == text@,
            width <= i,
            display_width_of(text@) == width + width_from(text@.skip(i as int), in_escape),
        decreases cs@.len() - i,
    {
        assert(text@.skip(i as int)[0] == cs@[i as int]);
        assert(text@.skip(i as int).drop_first() == text@.skip(i + 1));
        let c = cs[i];
        if in_escape {
            if char_is_ascii_alphabetic(c) {
                in_escape = false;
            }
        } else if c == '\u{1b}' {
            in_escape = true;
        } else {
            width = width + 1;
        }
        i = i + 1;
    }
    width
}

/// The first `width - 1` printable characters of `s` with every escape
/// sequence met on the way, from a state with `used` columns filled.
pub open spec fn cut(s: Seq<char>, width: nat, used: nat, in_escape: bool) -> Seq<char>
    decreases s.len(),
{
    if s.len() == 0 {
        seq![]
    } else if in_escape {
        seq![s[0]] + cut(s.drop_first(), width, used, !is_ascii_alphabetic(s[0]))
    } else if s[0] == esc() {
        seq![s[0]] + cut(s.drop_first(), width, used, true)
    } else if used + 1 >= width {
        seq![]
    } else {
        seq![s[0]] + cut(s.drop_first(), width, used + 1, false)
    }
}

pub open spec fn reset() -> Seq<char> {
    "\u{1b}[0m"@
}

/// `line` as it fits `width` columns: whole when it fits, else cut short,
/// keeping its escape sequences, and its styling reset.
pub open spec fn truncated(line: Seq<char>, width: nat) -> Seq<char> {
    if display_width_of(line) <= width {
        line
    } else {
        cut(line, width, 0, false) + reset()
    }
}

/// Truncates to fit `width` printable columns, keeping escape sequences intact
/// so a cut line cannot leak styling into the rest of the terminal.
pub fn truncate(line: &str, width: usize) -> (r: String)
    ensures
        r@ == truncated(line@, width as nat),
{
    if display_width(line) <= width {
        return line.to_owned();
    }
    let cs = chars_of(line);
    let mut out = String::new();
    let mut used: usize = 0;
    let mut in_escape = false;
    let mut done = false;
    let mut i: usize = 0;
    assert(line@.skip(0) == line@);
    while i < cs.len() && !done
        invariant
            i <= cs@.len(),
            cs@ == line@,
            used <= i,
            done ==> cut(line@, width as nat, 0, false) == out@,
            !done ==> cut(line@, width as nat, 0, false) == out@ + cut(line@.skip(i as int), width as nat, used as nat, in_escape),
        decreases cs@.len() - i + (if done { 0int } else { 1int }),
    {
        assert(line@.skip(i as int)[0] == cs@[i as int]);
        assert(line@.skip(i as int).drop_first() == line@.skip(i + 1));
        let c = cs[i];
        let ghost before = out@;
        if in_escape {
            out.push(c);
            if char_is_ascii_alphabetic(c) {
                in_escape = false;
            }
        } else if c == '\u{1b}' {
            out.push(c);
            in_escape = true;
        } else {
            if used + 1 >= width {
                assert(cut(line@.skip(i as int), width as nat, used as nat, in_escape) =~= Seq::<char>::empty());
                assert(out@ =~= before + Seq::<char>::empty());
                done = true;
            } else {
                out.push(c);
                used = used + 1;
            }
        }
        if !done {
            assert(out@ == before + seq![c]);
            i = i + 1;
        }
    }
    proof {
        if !done {
            assert(line@.skip(i as int) =~= Seq::<char>::empty());
        }
        assert(out@ =~= cut(line@, width as nat, 0, false));
    }
    push_str(&mut out, "\u{1b}[0m");
    out
}

pub open spec fn spaces(n: nat) -> Seq<char> {
    Seq::new(n, |i: int| ' ')
}

pub open spec fn repeated(c: char, n: nat) -> Seq<char> {
    Seq::new(n, |i: int| c)
}

/// `name` padded with spaces to `width` characters, or cut to them.
pub open spec fn fitted(name: Seq<char>, width: nat) -> Seq<char> {
    if name.len() <= width {
        name + spaces((width - name.len()) as nat)
    } else {
        name.take(width as int)
    }
}

fn push_repeated(s: &mut String, c: char, n: usize)
    ensures
        final(s)@ == old(s)@ + repeated(c, n as nat),
{
    let ghost s0 = s@;
    let mut k: usize = 0;
    while k < n
        invariant
            k <= n,
            s@ == s0 + repeated(c, k as nat),
        decreases n - k,
    {
        s.push(c);
        k = k + 1;
        assert(s@ =~= s0 + repeated(c, k as nat));
    }
}

/// Fits a string into a fixed column, padding *and* truncating. Long package
/// names and version strings must not push the columns to their right around.
pub fn fit(name: &str, width: usize) -> (r: String)
    ensures
        r@ == fitted(name@, width as nat),
{
    let n = name.unicode_len();
    if n <= width {
        let mut s = name.to_owned();
        push_repeated(&mut s, ' ', width - n);
        assert(repeated(' ', (width - n) as nat) =~= spaces((width - n) as nat));
        s
    } else {
        name.substring_char(0, width).to_owned()
    }
}

/// `s` right-aligned in `width` characters.
pub open spec fn right_aligned(s: Seq<char>, width: nat) -> Seq<char> {
    if s.len() < width {
        spaces((width - s.len()) as nat) + s
    } else {
        s
    }
}

fn push_right_aligned(out: &mut String, s: &str, width: usize)
    ensures
        final(out)@ == old(out)@ + right_aligned(s@, width as nat),
{
    let n = s.unicode_len();
    if n < width {
        push_repeated(out, ' ', width - n);
        assert(repeated(' ', (width - n) as nat) =~= spaces((width - n) as nat));
    }
    push_str(out, s);
}

/// Width of the name column, chosen from the terminal width.
pub open spec fn name_column_for(width: nat) -> nat {
    if width <= 89 {
        16
    } else if width <= 109 {
        20
    } else if width <= 139 {
        24
    } else {
        30
    }
}

/// Width of the name column, chosen from the terminal width.
pub fn name_column(width: usize) -> (n: usize)
    ensures
        n == name_column_for(width as nat),
{
    if width <= 89 {
        16
    } else if width <= 109 {
        20
    } else if width <= 139 {
        24
    } else {
        30
    }
}

pub open spec fn green() -> Seq<char> {
    "\u{1b}[32m"@
}

pub open spec fn cyan() -> Seq<char> {
    "\u{1b}[36m"@
}

pub open spec fn dim() -> Seq<char> {
    "\u{1b}[90m"@
}

pub open spec fn bar_full() -> char {
    '\u{2501}'
}

pub open spec fn bar_half() -> char {
    '\u{2578}'
}

pub open spec fn bar_track() -> char {
    '\u{2500}'
}

/// The number of half cells a bar of `width` fills for the fraction
/// `num / den`, at most one, rounded half up.
pub open spec fn bar_halves(num: nat, den: nat, width: nat) -> nat {
    if num >= den {
        2 * width
    } else {
        (2 * num * 2 * width + den) / (2 * den)
    }
}

/// A proportional bar for `num / den`: full cells, a half cell for an odd
/// half, and the light track for the rest.
pub open spec fn bar_text(num: nat, den: nat, width: nat) -> Seq<char> {
    let halves = bar_halves(num, den, width);
    let full = if halves / 2 < width {
        halves / 2
    } else {
        width
    };
    let half = halves % 2 > 0 && full < width;
    let used = if half {
        full + 1
    } else {
        full
    };
    green() + repeated(bar_full(), full) + (if half {
        seq![bar_half()]
    } else {
        seq![]
    }) + dim() + repeated(bar_track(), (width - used) as nat) + reset()
}

proof fn lemma_bar_bounds(num: int, den: int, width: int)
    requires
        0 <= num,
        num < 0x1_0000_0000_0000_0000,
        0 < den,
        den < 0x1_0000_0000_0000_0000,
        0 <= width < 0x4000_0000_0000_0000,
    ensures
        2 * num * 2 * width + den < 0x1_0000_0000_0000_0000_0000_0000_0000_0000,
        num < den ==> (2 * num * 2 * width + den) / (2 * den) <= 2 * width + 1,
{
    assert(2 * num * 2 * width <= 0xffff_ffff_ffff_ffff * num) by (nonlinear_arith)
        requires
            0 <= num,
            0 <= width < 0x4000_0000_0000_0000,
    ;
    assert(0xffff_ffff_ffff_ffff * num <= 0xffff_ffff_ffff_ffff * 0xffff_ffff_ffff_ffff) by (nonlinear_arith)
        requires
            0 <= num < 0x1_0000_0000_0000_0000,
    ;
    if num < den {
        assert(2 * num * 2 * width + den <= (2 * width + 1) * (2 * den)) by (nonlinear_arith)
            requires
                0 <= num < den,
                0 <= width,
        ;
        assert((2 * num * 2 * width + den) / (2 * den) <= 2 * width + 1) by (nonlinear_arith)
            requires
                2 * num * 2 * width + den <= (2 * width + 1) * (2 * den),
                0 < den,
                0 <= num,
                0 <= width,
        ;
    }
}

/// A proportional bar for the fraction `num / den`, which must have a
/// nonzero denominator. Sub-cell progress is drawn with a half-width cap.
/// Every cell is a three-byte character, so the bar fits in a `String` only
/// where `3 * width` is at most `isize::MAX`.
pub fn bar(num: u64, den: u64, width: usize) -> (s: String)
    requires
        den > 0,
        3 * width <= isize::MAX,
    ensures
        s@ == bar_text(num as nat, den as nat, width as nat),
        display_width_of(s@) == width,
{
    proof {
        lemma_bar_bounds(num as int, den as int, width as int);
    }
    let halves: u128 = if num >= den {
        2 * width as u128
    } else {
        (2 * num as u128 * 2 * width as u128 + den as u128) / (2 * den as u128)
    };
    let full: usize = if ((halves / 2) as usize) < width {
        (halves / 2) as usize
    } else {
        width
    };
    let half = halves % 2 > 0 && full < width;
    let used = if half {
        full + 1
    } else {
        full
    };
    let mut out = String::new();
    push_str(&mut out, "\u{1b}[32m");
    push_repeated(&mut out, '\u{2501}', full);
    if half {
        out.push('\u{2578}');
    }
    push_str(&mut out, "\u{1b}[90m");
    push_repeated(&mut out, '\u{2500}', width - used);
    push_str(&mut out, "\u{1b}[0m");
    assert(out@ =~= bar_text(num as nat, den as nat, width as nat));
    proof {
        crate::widths::law_bar_fills_its_width(num as nat, den as nat, width as nat);
    }
    out
}

/// Where the moving segment of an indeterminate bar starts at `frame`: it
/// slides across and back.
pub open spec fn marquee_position(frame: nat, width: nat) -> nat {
    let span = if width < 5 {
        width
    } else {
        5
    };
    let travel = (width - span) as nat;
    if travel == 0 {
        0
    } else {
        let cycle = travel * 2;
        let step = frame % cycle;
        if step <= travel {
            step
        } else {
            (cycle - step) as nat
        }
    }
}

pub open spec fn marquee_text(frame: nat, width: nat) -> Seq<char> {
    let span = if width < 5 {
        width
    } else {
        5
    };
    let position = marquee_position(frame, width);
    dim() + repeated(bar_track(), position) + cyan() + repeated(bar_full(), span) + dim() + repeated(
        bar_track(),
        (width - position - span) as nat,
    ) + reset()
}

/// An indeterminate bar, for work whose fraction Nix does not report. A
/// segment slides back and forth so a long build still looks alive. As with
/// `bar`, its cells take three bytes each.
pub fn marquee(frame: usize, width: usize) -> (s: String)
    requires
        3 * width <= isize::MAX,
    ensures
        s@ == marquee_text(frame as nat, width as nat),
        display_width_of(s@) == width,
        marquee_position(frame as nat, width as nat) + (if width < 5 { width } else { 5 }) <= width,
{
    let span = if width < 5 {
        width
    } else {
        5
    };
    let travel = width - span;
    let position = if travel == 0 {
        0
    } else {
        let cycle = travel * 2;
        let step = frame % cycle;
        if step <= travel {
            step
        } else {
            cycle - step
        }
    };
    let mut out = String::new();
    push_str(&mut out, "\u{1b}[90m");
    push_repeated(&mut out, '\u{2500}', position);
    push_str(&mut out, "\u{1b}[36m");
    push_repeated(&mut out, '\u{2501}', span);
    push_str(&mut out, "\u{1b}[90m");
    push_repeated(&mut out, '\u{2500}', width - position - span);
    push_str(&mut out, "\u{1b}[0m");
    assert(out@ =~= marquee_text(frame as nat, width as nat));
    proof {
        crate::widths::law_marquee_fills_its_width(frame as nat, width as nat);
    }
    out
}


/// How a row draws its bar: a fraction, or an indeterminate marquee.
#[derive(Debug, Clone, Copy, PartialEq, Eq, Structural)]
pub enum BarDraw {
    /// The fraction `num / den`; `den` is nonzero.
    Fraction(u64, u64),
    /// The sliding segment at a frame.
    Marquee(usize),
}

pub open spec fn drawn(d: BarDraw, width: nat) -> Seq<char> {
    match d {
        BarDraw::Fraction(n, m) => bar_text(n as nat, m as nat, width),
        BarDraw::Marquee(f) => marquee_text(f as nat, width),
    }
}

pub open spec fn draw_ok(d: BarDraw) -> bool {
    match d {
        BarDraw::Fraction(_, m) => m > 0,
        BarDraw::Marquee(_) => true,
    }
}

/// One progress row: counter, name, bar, percent, detail and time in fixed
/// columns (the bar only where at least six columns are left for it, and at
/// most 28), cut to the terminal's width.
pub open spec fn composed(
    counter: Seq<char>,
    name: Seq<char>,
    percent: Seq<char>,
    detail: Seq<char>,
    time: Seq<char>,
    width: nat,
    draw: BarDraw,
) -> Seq<char> {
    let name_col = name_column_for(width);
    let fixed = display_width_of(counter) + name_col + 23 + 4 + 6 + 5;
    let room = if width > fixed {
        (width - fixed) as nat
    } else {
        0
    };
    let bar_width = if room < 28 {
        room
    } else {
        28
    };
    let bar = if bar_width >= 6 {
        drawn(draw, bar_width)
    } else {
        seq![]
    };
    let row = counter + " "@ + fitted(name, name_col) + " "@ + bar + " "@ + right_aligned(percent, 4) + " "@
        + fitted(detail, 23) + " "@ + time;
    truncated(row, width)
}

/// Lays out one progress row.
///
/// Every row (a download, a build, or the total) goes through here with the
/// same column widths, so they line up with each other. Anything that varies
/// in length is padded *and* truncated to its column rather than being
/// allowed to shift the row.
pub fn compose(
    counter: &str,
    name: &str,
    percent: &str,
    detail: &str,
    time: &str,
    width: usize,
    draw: BarDraw,
) -> (row: String)
    requires
        display_width_of(counter@) + 68 <= usize::MAX,
        draw_ok(draw),
    ensures
        row@ == composed(counter@, name@, percent@, detail@, time@, width as nat, draw),
        display_width_of(row@) <= width,
{
    let name_col = name_column(width);
    let fixed = display_width(counter) + name_col + 23 + 4 + 6 + 5;
    let room = width.saturating_sub(fixed);
    let bar_width = if room < 28 {
        room
    } else {
        28
    };
    let mut row = counter.to_owned();
    push_str(&mut row, " ");
    let n = fit(name, name_col);
    push_str(&mut row, n.as_str());
    push_str(&mut row, " ");
    if bar_width >= 6 {
        let b = match draw {
            BarDraw::Fraction(num, den) => bar(num, den, bar_width),
            BarDraw::Marquee(frame) => marquee(frame, bar_width),
        };
        push_str(&mut row, b.as_str());
    }
    push_str(&mut row, " ");
    push_right_aligned(&mut row, percent, 4);
    push_str(&mut row, " ");
    let d = fit(detail, 23);
    push_str(&mut row, d.as_str());
    push_str(&mut row, " ");
    push_str(&mut row, time);
    proof {
        let bar = if bar_width >= 6 {
            drawn(draw, bar_width as nat)
        } else {
            seq![]
        };
        assert(row@ =~= counter@ + " "@ + fitted(name@, name_col as nat) + " "@ + bar + " "@ + right_aligned(
            percent@,
            4,
        ) + " "@ + fitted(detail@, 23) + " "@ + time@);
        crate::widths::law_rows_fit_the_terminal(counter@, name@, percent@, detail@, time@, width as nat, draw);
    }
    truncate(row.as_str(), width)
}

} // verus!
