//! The pieces of an editor status line: the working directory, the git state
//! of the repository, and the session's line counts.

use vstd::prelude::*;

use crate::strings::{push_str, starts_with, trimmed};
use crate::text::{chars_of, parse_u32_text, parsed_u32, str_eq};

verus! {

/// The git state the status line shows.
#[derive(Debug, Clone)]
pub struct GitStatus {
    /// The branch; `None` on a detached head, which is shown by its commit.
    pub branch: Option<String>,
    pub staged: u32,
    pub unstaged: u32,
    pub untracked: u32,
    pub conflicts: u32,
    pub ahead: u32,
    pub behind: u32,
}

pub struct GitView {
    pub branch: Option<Seq<char>>,
    pub staged: nat,
    pub unstaged: nat,
    pub untracked: nat,
    pub conflicts: nat,
    pub ahead: nat,
    pub behind: nat,
}

impl View for GitStatus {
    type V = GitView;

    open spec fn view(&self) -> GitView {
        GitView {
            branch: match self.branch {
                Some(b) => Some(b@),
                None => None,
            },
            staged: self.staged as nat,
            unstaged: self.unstaged as nat,
            untracked: self.untracked as nat,
            conflicts: self.conflicts as nat,
            ahead: self.ahead as nat,
            behind: self.behind as nat,
        }
    }
}

/// A `u32` as `str::parse` reads one, or 0 where it reads none.
fn parse_u32(s: &str) -> (r: u32)
    ensures
        r == match parsed_u32(s@) {
            Some(n) => n,
            None => 0,
        },
{
    match parse_u32_text(s) {
        Some(n) => n,
        None => 0,
    }
}

/// The text of `s` after `p`, when `s` starts with it.
pub open spec fn after_prefix(s: Seq<char>, p: Seq<char>) -> Option<Seq<char>> {
    if starts_with(s, p) {
        Some(s.skip(p.len() as int))
    } else {
        None
    }
}

/// The parts of `s` between commas.
pub open spec fn comma_parts(s: Seq<char>) -> Seq<Seq<char>>
    decreases s.len(),
{
    let i = crate::progress::index_of_char(s, ',');
    if i < 0 {
        seq![s]
    } else {
        proof {
            lemma_index_of_char_bound(s, ',');
        }
        seq![s.take(i)] + comma_parts(s.skip(i + 1))
    }
}

pub proof fn lemma_index_of_char_bound(s: Seq<char>, c: char)
    ensures
        -1 <= crate::progress::index_of_char(s, c) < s.len(),
        crate::progress::index_of_char(s, c) >= 0 ==> s[crate::progress::index_of_char(s, c)] == c,
        crate::progress::index_of_char(s, c) < 0 ==> forall|k: int| 0 <= k < s.len() ==> s[k] != c,
    decreases s.len(),
{
    if s.len() > 0 && s[0] != c {
        lemma_index_of_char_bound(s.drop_first(), c);
        assert forall|k: int| 1 <= k < s.len() implies s[k] == s.drop_first()[k - 1] by {}
    }
}

/// `s` without every trailing `]`.
pub open spec fn without_closing_brackets(s: Seq<char>) -> Seq<char>
    decreases s.len(),
{
    if s.len() > 0 && s.last() == ']' {
        without_closing_brackets(s.drop_last())
    } else {
        s
    }
}

/// The ahead and behind counts of a tracking note `[ahead N, behind M]`,
/// each kept from `prev` where the note does not give it.
pub open spec fn tracking_counts(parts: Seq<Seq<char>>, prev: (nat, nat)) -> (nat, nat)
    decreases parts.len(),
{
    if parts.len() == 0 {
        prev
    } else {
        let (a, b) = tracking_counts(parts.drop_last(), prev);
        let part = trimmed(parts.last());
        match after_prefix(part, "ahead "@) {
            Some(n) => (
                match parsed_u32(n) {
                    Some(v) => v,
                    None => 0,
                },
                b,
            ),
            None => match after_prefix(part, "behind "@) {
                Some(n) => (
                    a,
                    match parsed_u32(n) {
                        Some(v) => v,
                        None => 0,
                    },
                ),
                None => (a, b),
            },
        }
    }
}

/// Whether a status code is one of a merge conflict.
pub open spec fn is_conflict(x: char, y: char) -> bool {
    (x == 'D' && y == 'D') || (x == 'A' && y == 'U') || (x == 'U' && y == 'D') || (x == 'U' && y == 'A') || (
    x == 'D' && y == 'U') || (x == 'A' && y == 'A') || (x == 'U' && y == 'U')
}

/// The code characters of a status line: its first two bytes, each read as
/// a character of the same number.
pub open spec fn code_chars(line: Seq<char>) -> (char, char) {
    let b = vstd::utf8::encode_utf8(line);
    (b[0] as char, b[1] as char)
}

pub open spec fn inc(n: nat) -> nat {
    n + 1
}

/// One line of `git status --porcelain=v1 -b`: the branch line names the
/// branch (or a detached head) and its tracking counts; a status line counts
/// as a conflict, an untracked file, or staged and unstaged changes.
pub open spec fn status_step(st: GitView, line: Seq<char>) -> GitView {
    match after_prefix(line, "## "@) {
        Some(rest) => {
            let dots = crate::changelog::first_occurrence(rest, "..."@, 0);
            let (branch_part, tracking) = if dots >= 0 {
                (rest.take(dots), Some(rest.skip(dots + 3)))
            } else {
                (rest, None)
            };
            let branch = if branch_part == "HEAD (no branch)"@ || branch_part == "No Commits"@ {
                None
            } else {
                Some(branch_part)
            };
            let (ahead, behind) = match tracking {
                Some(t) => {
                    let b = crate::progress::index_of_char(t, '[');
                    if b >= 0 {
                        tracking_counts(comma_parts(without_closing_brackets(t.skip(b + 1))), (st.ahead, st.behind))
                    } else {
                        (st.ahead, st.behind)
                    }
                },
                None => (st.ahead, st.behind),
            };
            GitView { branch, ahead, behind, ..st }
        },
        None => if vstd::utf8::encode_utf8(line).len() < 2 {
            st
        } else {
            let (x, y) = code_chars(line);
            if is_conflict(x, y) {
                GitView { conflicts: inc(st.conflicts), ..st }
            } else if x == '?' && y == '?' {
                GitView { untracked: inc(st.untracked), ..st }
            } else {
                GitView {
                    staged: if x != ' ' && x != '?' {
                        inc(st.staged)
                    } else {
                        st.staged
                    },
                    unstaged: if y != ' ' && y != '?' {
                        inc(st.unstaged)
                    } else {
                        st.unstaged
                    },
                    ..st
                }
            }
        },
    }
}

pub open spec fn status_walk(ls: Seq<Seq<char>>) -> GitView
    decreases ls.len(),
{
    if ls.len() == 0 {
        GitView {
            branch: Some("HEAD"@),
            staged: 0,
            unstaged: 0,
            untracked: 0,
            conflicts: 0,
            ahead: 0,
            behind: 0,
        }
    } else {
        status_step(status_walk(ls.drop_last()), ls.last())
    }
}


/// The text after `p`, when `s` starts with it.
fn strip_prefix<'a>(s: &'a str, p: &str) -> (r: Option<&'a str>)
    ensures
        match r {
            Some(x) => after_prefix(s@, p@) == Some(x@),
            None => after_prefix(s@, p@) is None,
        },
{
    if crate::strings::starts_with_text(s, p) {
        let n = s.unicode_len();
        let m = p.unicode_len();
        Some(s.substring_char(m, n))
    } else {
        None
    }
}

fn index_of(s: &str, c: char) -> (r: Option<usize>)
    ensures
        match r {
            Some(i) => i < s@.len() && crate::progress::index_of_char(s@, c) == i as int,
            None => crate::progress::index_of_char(s@, c) < 0,
        },
{
    let cs = chars_of(s);
    let mut i: usize = 0;
    assert(s@.skip(0) == s@);
    while i < cs.len()
        invariant
            i <= cs@.len(),
            cs@ == s@,
            crate::progress::index_of_char(s@, c) == if crate::progress::index_of_char(s@.skip(i as int), c) < 0 {
                -1
            } else {
                i + crate::progress::index_of_char(s@.skip(i as int), c)
            },
        decreases cs@.len() - i,
    {
        assert(s@.skip(i as int)[0] == s@[i as int]);
        if cs[i] == c {
            return Some(i);
        }
        assert(s@.skip(i as int).drop_first() == s@.skip(i + 1));
        i = i + 1;
    }
    assert(s@.skip(i as int).len() == 0);
    None
}

fn strip_closing_brackets(s: &str) -> (r: &str)
    ensures
        r@ == without_closing_brackets(s@),
{
    let cs = chars_of(s);
    let mut end = cs.len();
    assert(s@.take(end as int) == s@);
    while end > 0 && cs[end - 1] == ']'
        invariant
            end <= cs@.len(),
            cs@ == s@,
            without_closing_brackets(s@) == without_closing_brackets(s@.take(end as int)),
        decreases end,
    {
        assert(s@.take(end as int).drop_last() == s@.take(end - 1));
        end = end - 1;
    }
    s.substring_char(0, end)
}

/// The pieces of `s` between commas.
fn split_commas(s: &str) -> (r: Vec<&str>)
    ensures
        crate::strings::str_views(r@) == comma_parts(s@),
    decreases s@.len(),
{
    match index_of(s, ',') {
        None => {
            let r = vec![s];
            assert(crate::strings::str_views(r@) =~= seq![s@]);
            r
        },
        Some(i) => {
            let n = s.unicode_len();
            let head = s.substring_char(0, i);
            let tail = s.substring_char(i + 1, n);
            assert(tail@ =~= s@.skip(i + 1));
            let rest = split_commas(tail);
            let mut r = vec![head];
            let mut rest = rest;
            let ghost rv = crate::strings::str_views(rest@);
            r.append(&mut rest);
            assert(crate::strings::str_views(r@) =~= seq![s@.take(i as int)] + rv);
            r
        },
    }
}

fn tracking_of(t: &str, prev: (u32, u32)) -> (r: (u32, u32))
    ensures
        ({
            let b = crate::progress::index_of_char(t@, '[');
            (r.0 as nat, r.1 as nat) == if b >= 0 {
                tracking_counts(comma_parts(without_closing_brackets(t@.skip(b + 1))), (prev.0 as nat, prev.1 as nat))
            } else {
                (prev.0 as nat, prev.1 as nat)
            }
        }),
{
    match index_of(t, '[') {
        None => prev,
        Some(b) => {
            let n = t.unicode_len();
            let after = t.substring_char(b + 1, n);
            assert(after@ =~= t@.skip(b + 1));
            let info = strip_closing_brackets(after);
            let parts = split_commas(info);
            let ghost pv = crate::strings::str_views(parts@);
            let mut ahead = prev.0;
            let mut behind = prev.1;
            let mut k: usize = 0;
            while k < parts.len()
                invariant
                    k <= parts@.len(),
                    pv == crate::strings::str_views(parts@),
                    (ahead as nat, behind as nat) == tracking_counts(pv.take(k as int), (prev.0 as nat, prev.1 as nat)),
                decreases parts@.len() - k,
            {
                assert(pv.take(k + 1).drop_last() == pv.take(k as int));
                assert(pv.take(k + 1).last() == parts@[k as int]@);
                let part = crate::strings::trim(parts[k]);
                match strip_prefix(part, "ahead ") {
                    Some(v) => {
                        ahead = parse_u32(v);
                    },
                    None => match strip_prefix(part, "behind ") {
                        Some(v) => {
                            behind = parse_u32(v);
                        },
                        None => {},
                    },
                }
                k = k + 1;
            }
            assert(pv.take(parts@.len() as int) == pv);
            (ahead, behind)
        },
    }
}

/// Reads the output of `git status --porcelain=v1 -b`: the branch and its
/// tracking counts from the branch line, and the conflicts, untracked files
/// and staged and unstaged changes from the status lines.
pub fn parse_git_status(output: &str) -> (s: GitStatus)
    requires
        output@.len() < u32::MAX,
    ensures
        s@ == status_walk(crate::strings::lines_of(output@)),
{
    let ls = crate::strings::lines(output);
    let ghost lv = crate::strings::str_views(ls@);
    proof {
        lemma_lines_count(output@);
    }
    let mut st = GitStatus {
        branch: Some("HEAD".to_owned()),
        staged: 0,
        unstaged: 0,
        untracked: 0,
        conflicts: 0,
        ahead: 0,
        behind: 0,
    };
    let mut k: usize = 0;
    while k < ls.len()
        invariant
            k <= ls@.len(),
            lv == crate::strings::str_views(ls@),
            lv.len() <= output@.len(),
            output@.len() < u32::MAX,
            st@ == status_walk(lv.take(k as int)),
            st.staged <= k && st.unstaged <= k && st.untracked <= k && st.conflicts <= k,
        decreases ls@.len() - k,
    {
        assert(lv.take(k + 1).drop_last() == lv.take(k as int));
        assert(lv.take(k + 1).last() == ls@[k as int]@);
        let line = ls[k];
        match strip_prefix(line, "## ") {
            Some(rest) => {
                let rc = chars_of(rest);
                let dots = chars_of("...");
                let (branch_part, tracking) = match crate::strings::find_from(&rc, &dots, 0) {
                    Some(d) => {
                        proof {
                            crate::changelog::lemma_first_occurrence(rest@, "..."@, 0, d as int);
                            reveal_strlit("...");
                        }
                        let n = rest.unicode_len();
                        let t = rest.substring_char(d + 3, n);
                        assert(t@ =~= rest@.skip(d + 3));
                        (rest.substring_char(0, d), Some(t))
                    },
                    None => {
                        proof {
                            crate::changelog::lemma_no_occurrence(rest@, "..."@, 0);
                        }
                        (rest, None)
                    },
                };
                if str_eq(branch_part, "HEAD (no branch)") || str_eq(branch_part, "No Commits") {
                    st.branch = None;
                } else {
                    st.branch = Some(branch_part.to_owned());
                }
                match tracking {
                    Some(t) => {
                        let (a, b) = tracking_of(t, (st.ahead, st.behind));
                        st.ahead = a;
                        st.behind = b;
                    },
                    None => {},
                }
            },
            None => {
                let bytes = line.as_bytes();
                if bytes.len() >= 2 {
                    let x = bytes[0] as char;
                    let y = bytes[1] as char;
                    if (x == 'D' && y == 'D') || (x == 'A' && y == 'U') || (x == 'U' && y == 'D') || (x == 'U'
                        && y == 'A') || (x == 'D' && y == 'U') || (x == 'A' && y == 'A') || (x == 'U' && y
                        == 'U') {
                        st.conflicts = st.conflicts + 1;
                    } else if x == '?' && y == '?' {
                        st.untracked = st.untracked + 1;
                    } else {
                        if x != ' ' && x != '?' {
                            st.staged = st.staged + 1;
                        }
                        if y != ' ' && y != '?' {
                            st.unstaged = st.unstaged + 1;
                        }
                    }
                }
            },
        }
        k = k + 1;
    }
    assert(lv.take(ls@.len() as int) == lv);
    st
}

proof fn lemma_lines_count(s: Seq<char>)
    ensures
        crate::strings::lines_of(s).len() <= s.len(),
    decreases s.len(),
{
    let i = crate::strings::first_newline(s);
    if s.len() > 0 && i >= 0 {
        crate::strings::lemma_first_newline_bound(s);
        lemma_lines_count(s.skip(i + 1));
    }
}


/// The branch as shown: its name, or on a detached head the short commit in
/// parentheses, `(detached)` without one.
pub open spec fn branch_label_text(branch: Option<Seq<char>>, short_hash: Option<Seq<char>>) -> Seq<char> {
    match branch {
        Some(b) => b,
        None => match short_hash {
            Some(h) => "("@ + h + ")"@,
            None => "(detached)"@,
        },
    }
}

/// The branch as shown, given the short commit hash `git rev-parse` gave
/// for a detached head.
pub fn branch_label(status: &GitStatus, short_hash: Option<&str>) -> (s: String)
    ensures
        s@ == branch_label_text(status@.branch, match short_hash {
            Some(h) => Some(h@),
            None => None,
        }),
{
    match &status.branch {
        Some(b) => b.clone(),
        None => {
            let mut s = String::new();
            match short_hash {
                Some(h) => {
                    push_str(&mut s, "(");
                    push_str(&mut s, h);
                    push_str(&mut s, ")");
                },
                None => push_str(&mut s, "(detached)"),
            }
            s
        },
    }
}

pub open spec fn reset_code() -> Seq<char> {
    "\u{1b}[0m"@
}

/// One coloured count: colour, mark, number, reset; nothing for zero.
pub open spec fn count_part(color: Seq<char>, mark: Seq<char>, n: nat) -> Seq<Seq<char>> {
    if n > 0 {
        seq![color + mark + crate::text::decimal(n) + reset_code()]
    } else {
        seq![]
    }
}

/// The git segment: the branch in bold, an operation in progress, the commits
/// ahead and behind, then conflicts, staged, unstaged and untracked counts,
/// separated by spaces.
pub open spec fn git_segment_text(label: Seq<char>, st: GitView, op: Option<Seq<char>>) -> Seq<char> {
    let parts = seq!["\u{1b}[1m"@ + label + reset_code()] + match op {
        Some(o) => seq!["\u{1b}[31m"@ + "|"@ + o + reset_code()],
        None => seq![],
    } + count_part("\u{1b}[32m"@, "\u{2191}"@, st.ahead) + count_part("\u{1b}[31m"@, "\u{2193}"@, st.behind)
        + count_part("\u{1b}[31m"@, "!"@, st.conflicts) + count_part("\u{1b}[32m"@, "+"@, st.staged) + count_part(
        "\u{1b}[33m"@,
        "~"@,
        st.unstaged,
    ) + count_part("\u{1b}[2m"@, "?"@, st.untracked);
    crate::strings::joined(parts, " "@)
}

fn push_part(parts: &mut Vec<String>, color: &str, mark: &str, n: u32)
    ensures
        text_views(final(parts)@) == text_views(old(parts)@) + count_part(color@, mark@, n as nat),
{
    let ghost p0 = text_views(parts@);
    if n > 0 {
        let mut s = String::new();
        push_str(&mut s, color);
        push_str(&mut s, mark);
        let d = crate::text::u64_to_decimal(n as u64);
        push_str(&mut s, d.as_str());
        push_str(&mut s, "\u{1b}[0m");
        parts.push(s);
        assert(text_views(parts@) =~= p0 + count_part(color@, mark@, n as nat));
    } else {
        assert(text_views(parts@) =~= p0 + count_part(color@, mark@, n as nat));
    }
}

pub open spec fn text_views(v: Seq<String>) -> Seq<Seq<char>> {
    v.map_values(|s: String| s@)
}

fn join_with(parts: &Vec<String>, sep: &str) -> (s: String)
    ensures
        s@ == crate::strings::joined(text_views(parts@), sep@),
{
    let ghost pv = text_views(parts@);
    let mut s = String::new();
    let mut k: usize = 0;
    while k < parts.len()
        invariant
            k <= parts@.len(),
            pv == text_views(parts@),
            s@ == crate::strings::joined(pv.take(k as int), sep@),
        decreases parts@.len() - k,
    {
        let ghost part = pv.take(k + 1);
        assert(part.drop_last() == pv.take(k as int));
        assert(part.last() == parts@[k as int]@);
        if k > 0 {
            push_str(&mut s, sep);
        }
        push_str(&mut s, parts[k].as_str());
        proof {
            if k == 0 {
                assert(part.len() == 1);
                assert(s@ =~= part[0]);
            }
        }
        k = k + 1;
    }
    assert(pv.take(parts@.len() as int) == pv);
    s
}

/// Builds the git segment of the status line.
pub fn format_git_segment(label: &str, status: &GitStatus, operation: Option<&str>) -> (s: String)
    ensures
        s@ == git_segment_text(label@, status@, match operation {
            Some(o) => Some(o@),
            None => None,
        }),
{
    let mut parts: Vec<String> = Vec::new();
    let mut first = String::new();
    push_str(&mut first, "\u{1b}[1m");
    push_str(&mut first, label);
    push_str(&mut first, "\u{1b}[0m");
    parts.push(first);
    match operation {
        Some(op) => {
            let mut s = String::new();
            push_str(&mut s, "\u{1b}[31m");
            push_str(&mut s, "|");
            push_str(&mut s, op);
            push_str(&mut s, "\u{1b}[0m");
            parts.push(s);
        },
        None => {},
    }
    let ghost head = text_views(parts@);
    push_part(&mut parts, "\u{1b}[32m", "\u{2191}", status.ahead);
    push_part(&mut parts, "\u{1b}[31m", "\u{2193}", status.behind);
    push_part(&mut parts, "\u{1b}[31m", "!", status.conflicts);
    push_part(&mut parts, "\u{1b}[32m", "+", status.staged);
    push_part(&mut parts, "\u{1b}[33m", "~", status.unstaged);
    push_part(&mut parts, "\u{1b}[2m", "?", status.untracked);
    proof {
        let opv = match operation {
            Some(o) => Some(o@),
            None => None,
        };
        assert(head =~= seq!["\u{1b}[1m"@ + label@ + reset_code()] + match opv {
            Some(o) => seq!["\u{1b}[31m"@ + "|"@ + o + reset_code()],
            None => seq![],
        });
    }
    join_with(&parts, " ")
}

/// A path with the home directory written as `~`.
pub open spec fn display_path_text(path: Seq<char>, home: Seq<char>) -> Seq<char> {
    if home.len() > 0 && starts_with(path, home) {
        "~"@ + path.skip(home.len() as int)
    } else {
        path
    }
}

/// Shortens a path by writing the home directory prefix as `~`.
pub fn display_path(path: &str, home: &str) -> (s: String)
    ensures
        s@ == display_path_text(path@, home@),
{
    if home.unicode_len() > 0 && crate::strings::starts_with_text(path, home) {
        let mut s = String::new();
        push_str(&mut s, "~");
        let n = path.unicode_len();
        let rest = path.substring_char(home.unicode_len(), n);
        push_str(&mut s, rest);
        assert(rest@ =~= path@.skip(home@.len() as int));
        s
    } else {
        path.to_owned()
    }
}

/// The session's added and removed line counts: positive ones in green with
/// `+` and red with `-`; nothing when neither count is there or both are
/// nothing to show.
pub open spec fn lines_text(added: Option<i64>, removed: Option<i64>) -> Option<Seq<char>> {
    if added is None && removed is None {
        None
    } else {
        let a: Seq<char> = match added {
            Some(n) => if n > 0 {
                "\u{1b}[32m"@ + "+"@ + crate::text::decimal(n as nat) + reset_code()
            } else {
                seq![]
            },
            None => seq![],
        };
        let r: Seq<char> = match removed {
            Some(n) => if n > 0 {
                (if a.len() > 0 {
                    seq![' ']
                } else {
                    seq![]
                }) + "\u{1b}[31m"@ + "-"@ + crate::text::decimal(n as nat) + reset_code()
            } else {
                seq![]
            },
            None => seq![],
        };
        if a.len() + r.len() == 0 {
            None
        } else {
            Some(a + r)
        }
    }
}

/// Formats the session's line additions and deletions.
pub fn format_lines(added: Option<i64>, removed: Option<i64>) -> (r: Option<String>)
    ensures
        match r {
            Some(s) => lines_text(added, removed) == Some(s@),
            None => lines_text(added, removed) is None,
        },
{
    if added.is_none() && removed.is_none() {
        return None;
    }
    let mut s = String::new();
    match added {
        Some(n) => {
            if n > 0 {
                push_str(&mut s, "\u{1b}[32m");
                push_str(&mut s, "+");
                let d = crate::text::u64_to_decimal(n as u64);
                push_str(&mut s, d.as_str());
                push_str(&mut s, "\u{1b}[0m");
            }
        },
        None => {},
    }
    let ghost a = s@;
    match removed {
        Some(n) => {
            if n > 0 {
                if s.unicode_len() > 0 {
                    s.push(' ');
                }
                push_str(&mut s, "\u{1b}[31m");
                push_str(&mut s, "-");
                let d = crate::text::u64_to_decimal(n as u64);
                push_str(&mut s, d.as_str());
                push_str(&mut s, "\u{1b}[0m");
            }
        },
        None => {},
    }
    if s.unicode_len() == 0 {
        None
    } else {
        Some(s)
    }
}

/// The operation a repository is in the middle of, from which of git's
/// marker files its directory holds.
pub fn git_operation(merge_head: bool, cherry_pick_head: bool, revert_head: bool, bisect_log: bool, rebasing: bool) -> (r:
    Option<&'static str>)
    ensures
        match r {
            Some(op) => op@ == if merge_head {
                "MERGE"@
            } else if cherry_pick_head {
                "CHERRY-PICK"@
            } else if revert_head {
                "REVERT"@
            } else if bisect_log {
                "BISECT"@
            } else {
                "REBASE"@
            },
            None => !merge_head && !cherry_pick_head && !revert_head && !bisect_log && !rebasing,
        },
{
    if merge_head {
        Some("MERGE")
    } else if cherry_pick_head {
        Some("CHERRY-PICK")
    } else if revert_head {
        Some("REVERT")
    } else if bisect_log {
        Some("BISECT")
    } else if rebasing {
        Some("REBASE")
    } else {
        None
    }
}

/// The git directory a worktree's `.git` file points at.
pub fn gitdir_of(content: &str) -> (r: Option<&str>)
    ensures
        match r {
            Some(d) => after_prefix(trimmed(content@), "gitdir: "@) matches Some(rest) && d@ == trimmed(rest),
            None => after_prefix(trimmed(content@), "gitdir: "@) is None,
        },
{
    let t = crate::strings::trim(content);
    match strip_prefix(t, "gitdir: ") {
        Some(rest) => Some(crate::strings::trim(rest)),
        None => None,
    }
}

/// The context tokens in thousands, as the status line shows them.
pub fn token_text(input: u64, cache_creation: u64, cache_read: u64) -> (s: String)
    requires
        input + cache_creation + cache_read <= u64::MAX,
    ensures
        s@ == " \u{1b}[35m"@ + crate::text::decimal(((input + cache_creation + cache_read) / 1000) as nat) + "k"@
            + reset_code(),
{
    let total = input + cache_creation + cache_read;
    let mut s = String::new();
    push_str(&mut s, " \u{1b}[35m");
    let d = crate::text::u64_to_decimal(total / 1000);
    push_str(&mut s, d.as_str());
    push_str(&mut s, "k");
    push_str(&mut s, "\u{1b}[0m");
    s
}

/// The label of a usage limit's reset: `now`, in green, once the reset time
/// has passed; else the time as shown, in cyan, or `?` where it could not be
/// shown.
pub open spec fn reset_label_text(reset_ts: nat, now: nat, shown: Option<Seq<char>>) -> Seq<char> {
    if reset_ts <= now {
        "\u{1b}[32m"@ + "now"@ + reset_code()
    } else {
        "\u{1b}[36m"@ + match shown {
            Some(t) => t,
            None => "?"@,
        } + reset_code()
    }
}

/// Labels a usage limit's reset at `reset_ts`, seconds since the epoch, given
/// the time `now` and the reset time as the clock shows it.
pub fn reset_label(reset_ts: u64, now: u64, shown: Option<&str>) -> (s: String)
    ensures
        s@ == reset_label_text(
            reset_ts as nat,
            now as nat,
            match shown {
                Some(t) => Some(t@),
                None => None,
            },
        ),
{
    let mut s = String::new();
    if reset_ts <= now {
        push_str(&mut s, "\u{1b}[32m");
        push_str(&mut s, "now");
    } else {
        push_str(&mut s, "\u{1b}[36m");
        match shown {
            Some(t) => push_str(&mut s, t),
            None => push_str(&mut s, "?"),
        }
    }
    push_str(&mut s, "\u{1b}[0m");
    s
}

/// The `date` format a reset time is shown in: the time of day when the
/// reset falls today, else the weekday too.
pub fn reset_time_format(same_day: bool) -> (f: &'static str)
    ensures
        f@ == (if same_day {
            "+%H:%M"@
        } else {
            "+%a %H:%M"@
        }),
{
    if same_day {
        "+%H:%M"
    } else {
        "+%a %H:%M"
    }
}

/// The code characters of a status line whose first two characters are
/// ASCII are those two characters.
proof fn lemma_ascii_code_chars(line: Seq<char>)
    requires
        line.len() >= 2,
        line[0] as u32 <= 0x7f,
        line[1] as u32 <= 0x7f,
    ensures
        vstd::utf8::encode_utf8(line).len() >= 2,
        code_chars(line) == (line[0], line[1]),
{
    let c0 = line[0] as u32;
    let c1 = line[1] as u32;
    let rest = line.drop_first();
    assert(rest[0] == line[1]);
    assert(vstd::utf8::encode_utf8(line) == vstd::utf8::encode_scalar(c0) + vstd::utf8::encode_utf8(rest));
    assert(vstd::utf8::encode_utf8(rest) == vstd::utf8::encode_scalar(c1) + vstd::utf8::encode_utf8(
        rest.drop_first(),
    ));
    assert(c0 & 0x7f == c0) by (bit_vector)
        requires
            c0 <= 0x7f,
    ;
    assert(c1 & 0x7f == c1) by (bit_vector)
        requires
            c1 <= 0x7f,
    ;
    let b = vstd::utf8::encode_utf8(line);
    assert(b[0] == c0 as u8);
    assert(b[1] == c1 as u8);
    vstd::utf8::char_u32_cast(line[0], c0);
    vstd::utf8::char_u32_cast(line[1], c1);
    assert((c0 as u8) as char == line[0]);
    assert((c1 as u8) as char == line[1]);
}

/// A status line whose index column holds a change and whose work-tree
/// column is blank (a change staged with `git add` and not touched since)
/// adds one to the staged count and nothing else.
pub proof fn law_index_change_is_staged(st: GitView, line: Seq<char>)
    requires
        line.len() >= 2,
        'A' <= line[0] <= 'Z',
        line[1] == ' ',
    ensures
        status_step(st, line).staged == st.staged + 1,
        status_step(st, line).unstaged == st.unstaged,
        status_step(st, line).untracked == st.untracked,
        status_step(st, line).conflicts == st.conflicts,
{
    lemma_ascii_code_chars(line);
    assert(!starts_with(line, "## "@)) by {
        reveal_strlit("## ");
        if starts_with(line, "## "@) {
            assert(line.take(3)[0] == line[0]);
        }
    }
}

/// A status line whose index column is blank and whose work-tree column
/// holds a change (an edit not yet staged) adds one to the unstaged count
/// and nothing else.
pub proof fn law_worktree_change_is_unstaged(st: GitView, line: Seq<char>)
    requires
        line.len() >= 2,
        line[0] == ' ',
        'A' <= line[1] <= 'Z',
    ensures
        status_step(st, line).staged == st.staged,
        status_step(st, line).unstaged == st.unstaged + 1,
        status_step(st, line).untracked == st.untracked,
        status_step(st, line).conflicts == st.conflicts,
{
    lemma_ascii_code_chars(line);
    assert(!starts_with(line, "## "@)) by {
        reveal_strlit("## ");
        if starts_with(line, "## "@) {
            assert(line.take(3)[0] == line[0]);
        }
    }
}

/// A status line with a change in both columns that is not a merge conflict
/// adds one to both the staged and the unstaged count.
pub proof fn law_change_in_both_columns(st: GitView, line: Seq<char>)
    requires
        line.len() >= 2,
        'A' <= line[0] <= 'Z',
        'A' <= line[1] <= 'Z',
        !(line[0] == 'U' || line[1] == 'U' || (line[0] == 'A' && line[1] == 'A') || (line[0] == 'D'
            && line[1] == 'D')),
    ensures
        status_step(st, line).staged == st.staged + 1,
        status_step(st, line).unstaged == st.unstaged + 1,
        status_step(st, line).conflicts == st.conflicts,
{
    lemma_ascii_code_chars(line);
    assert(!starts_with(line, "## "@)) by {
        reveal_strlit("## ");
        if starts_with(line, "## "@) {
            assert(line.take(3)[0] == line[0]);
        }
    }
}

} // verus!
