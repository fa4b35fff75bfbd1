//! Release notes for an upgrade: matching release tags to versions, picking
//! the span of releases an upgrade brings in, and narrowing a CHANGELOG file
//! to the versions in question.

use vstd::prelude::*;

use crate::strings::{
    char_is_ascii_alphanumeric, char_is_ascii_digit, ends_with, find_from, is_ascii_alphanumeric,
    is_ascii_digit, joined, lines, lines_of, occurs_at, push_str, str_views, trim, trimmed,
};
use crate::text::{chars_eq, chars_of};

verus! {

/// The version without a `v` or `V` that introduces a number.
pub open spec fn normalized(v: Seq<char>) -> Seq<char> {
    if v.len() >= 2 && (v[0] == 'v' || v[0] == 'V') && is_ascii_digit(v[1]) {
        v.drop_first()
    } else {
        v
    }
}

/// Drops a `v` prefix, but only where it introduces a version: `vim-9.1` is
/// named after the program, not tagged `v`.
pub fn normalize_version(version: &str) -> (r: &str)
    ensures
        r@ == normalized(version@),
{
    let cs = chars_of(version);
    if cs.len() >= 2 && (cs[0] == 'v' || cs[0] == 'V') && char_is_ascii_digit(cs[1]) {
        let r = version.substring_char(1, cs.len());
        assert(r@ =~= version@.drop_first());
        r
    } else {
        version
    }
}

/// What follows the last `/`, or the whole text.
pub open spec fn last_segment(s: Seq<char>) -> Seq<char>
    decreases s.len(),
{
    if s.len() == 0 {
        s
    } else if s.last() == '/' {
        seq![]
    } else {
        last_segment(s.drop_last()).push(s.last())
    }
}

/// Whether a release tag denotes the version `wanted`: after the last `/`,
/// and with a leading `v` of a number dropped from both, the tag is the
/// version, or ends in it after a `-` or `_`.
pub open spec fn tag_names(tag: Seq<char>, wanted: Seq<char>) -> bool {
    let t = normalized(last_segment(tag));
    let w = normalized(wanted);
    t == w || (ends_with(t, w) && t.len() > w.len() && (t[t.len() - w.len() - 1] == '-' || t[t.len()
        - w.len() - 1] == '_'))
}

fn after_last_slash(s: &str) -> (r: &str)
    ensures
        r@ == last_segment(s@),
{
    let cs = chars_of(s);
    let n = cs.len();
    let mut i: usize = n;
    assert(s@.take(n as int) == s@);
    assert(s@.skip(n as int) =~= Seq::<char>::empty());
    assert(last_segment(s@) == last_segment(s@.take(i as int)) + s@.skip(i as int));
    while i > 0 && cs[i - 1] != '/'
        invariant
            i <= n,
            n == s@.len(),
            cs@ == s@,
            last_segment(s@) == last_segment(s@.take(i as int)) + s@.skip(i as int),
        decreases i,
    {
        assert(s@.take(i as int).drop_last() == s@.take(i - 1));
        assert(s@.take(i as int).last() == s@[i - 1]);
        assert(s@.skip(i - 1) == seq![s@[i - 1]] + s@.skip(i as int));
        i = i - 1;
    }
    proof {
        if i > 0 {
            assert(s@.take(i as int).last() == '/');
        }
        assert(s@.take(0) =~= Seq::<char>::empty());
        assert(last_segment(s@.take(i as int)) =~= Seq::<char>::empty());
    }
    let r = s.substring_char(i, n);
    assert(r@ =~= last_segment(s@));
    r
}

/// Whether a release tag denotes the version nixpkgs calls `wanted`.
///
/// Forges are inconsistent about what goes in front of the number: `1.8.2`,
/// `v1.8.2`, `jq-1.8.2`, `cli/v1.8.2`. A prefix is accepted only when a
/// separator divides it from the version, so `11.2.3` never answers for `1.2.3`.
pub fn tag_matches(tag: &str, wanted: &str) -> (b: bool)
    ensures
        b == tag_names(tag@, wanted@),
{
    let t = chars_of(normalize_version(after_last_slash(tag)));
    let w = chars_of(normalize_version(wanted));
    if chars_eq(&t, &w) {
        return true;
    }
    if t.len() > w.len() {
        let k = t.len() - w.len();
        let b = crate::strings::occurs_at_exec(&t, &w, k) && (t[k - 1] == '-' || t[k - 1] == '_');
        proof {
            assert(t@.subrange(k as int, t@.len() as int) == t@.skip(k as int));
        }
        b
    } else {
        proof {
            if ends_with(t@, w@) {
                assert(t@.len() == w@.len());
                assert(t@.skip(0) == t@);
            }
        }
        false
    }
}

/// How many `#`s a line opens with.
pub open spec fn heading_level(line: Seq<char>) -> nat
    decreases line.len(),
{
    if line.len() > 0 && line[0] == '#' {
        1 + heading_level(line.drop_first())
    } else {
        0
    }
}

/// Number of `#`s a markdown heading opens with; zero for anything else.
pub fn heading_level_of(line: &str) -> (n: usize)
    ensures
        n == heading_level(line@),
{
    let cs = chars_of(line);
    let mut i: usize = 0;
    assert(line@.skip(0) == line@);
    while i < cs.len() && cs[i] == '#'
        invariant
            i <= cs@.len(),
            cs@ == line@,
            heading_level(line@) == i + heading_level(line@.skip(i as int)),
        decreases cs@.len() - i,
    {
        assert(line@.skip(i as int)[0] == line@[i as int]);
        assert(line@.skip(i as int).drop_first() == line@.skip(i + 1));
        i = i + 1;
    }
    proof {
        if i < cs.len() {
            assert(line@.skip(i as int)[0] == line@[i as int]);
        }
    }
    i
}

/// The first position at or after `from` where `needle` occurs, or -1.
pub open spec fn first_occurrence(hay: Seq<char>, needle: Seq<char>, from: int) -> int
    decreases hay.len() + 1 - from,
{
    if from < 0 || from > hay.len() {
        -1
    } else if occurs_at(hay, needle, from) {
        from
    } else {
        first_occurrence(hay, needle, from + 1)
    }
}

pub proof fn lemma_first_occurrence(hay: Seq<char>, needle: Seq<char>, from: int, at: int)
    requires
        0 <= from <= at,
        occurs_at(hay, needle, at),
        forall|j: int| from <= j < at ==> !occurs_at(hay, needle, j),
    ensures
        first_occurrence(hay, needle, from) == at,
    decreases at - from,
{
    if from < at {
        lemma_first_occurrence(hay, needle, from + 1, at);
    }
}

pub proof fn lemma_no_occurrence(hay: Seq<char>, needle: Seq<char>, from: int)
    requires
        0 <= from,
        forall|j: int| from <= j ==> !occurs_at(hay, needle, j),
    ensures
        first_occurrence(hay, needle, from) == -1,
    decreases hay.len() + 1 - from,
{
    if from <= hay.len() {
        lemma_no_occurrence(hay, needle, from + 1);
    }
}

pub proof fn lemma_first_occurrence_bound(hay: Seq<char>, needle: Seq<char>, from: int)
    ensures
        first_occurrence(hay, needle, from) == -1 || (from <= first_occurrence(hay, needle, from)
            && occurs_at(hay, needle, first_occurrence(hay, needle, from))),
    decreases hay.len() + 1 - from,
{
    if 0 <= from <= hay.len() && !occurs_at(hay, needle, from) {
        lemma_first_occurrence_bound(hay, needle, from + 1);
    }
}

/// Whether the occurrence of `version` at `at` stands alone: no letter,
/// digit or `.` before it (a `v` is allowed), and no letter, digit, `.`, `-`
/// or `+` after it.
pub open spec fn stands_alone(line: Seq<char>, version: Seq<char>, at: int) -> bool {
    let end = at + version.len();
    &&& !(at > 0 && ((is_ascii_alphanumeric(line[at - 1]) && line[at - 1] != 'v' && line[at - 1] != 'V')
        || line[at - 1] == '.'))
    &&& !(end < line.len() && (is_ascii_alphanumeric(line[end]) || line[end] == '.' || line[end] == '-'
        || line[end] == '+'))
}

/// Whether one of the occurrences of `version` found left to right from
/// `from`, each search resuming after the previous match, stands alone.
pub open spec fn some_match_stands_alone(line: Seq<char>, version: Seq<char>, from: int) -> bool
    decreases line.len() + 1 - from,
{
    let at = first_occurrence(line, version, from);
    if version.len() == 0 || from < 0 || at < 0 {
        false
    } else {
        proof {
            lemma_first_occurrence_bound(line, version, from);
        }
        stands_alone(line, version, at) || some_match_stands_alone(line, version, at + version.len())
    }
}

/// Whether a heading names exactly this version.
pub open spec fn heading_names_version(line: Seq<char>, version: Seq<char>) -> bool {
    version.len() > 0 && heading_level(line) > 0 && some_match_stands_alone(line, version, 0)
}

fn stands_alone_exec(line: &Vec<char>, version: &Vec<char>, at: usize) -> (b: bool)
    requires
        occurs_at(line@, version@, at as int),
    ensures
        b == stands_alone(line@, version@, at as int),
{
    let ll = line.len();
    let end = at + version.len();
    let bad_before = at > 0 && ((char_is_ascii_alphanumeric(line[at - 1]) && line[at - 1] != 'v'
        && line[at - 1] != 'V') || line[at - 1] == '.');
    let bad_after = end < line.len() && (char_is_ascii_alphanumeric(line[end]) || line[end] == '.'
        || line[end] == '-' || line[end] == '+');
    !bad_before && !bad_after
}

/// Whether a heading names exactly this version. A plain substring test would
/// let `## 11.2.3` answer for `1.2.3`, so the match has to stand alone: nothing
/// may continue the number on either side, and nothing may extend it into a
/// different release (`1.2.3-rc1` is not `1.2.3`). A leading `v` is allowed,
/// being how half of all changelogs write a version.
pub fn heading_names(line: &str, version: &str) -> (b: bool)
    ensures
        b == heading_names_version(line@, version@),
{
    let l = chars_of(line);
    let v = chars_of(version);
    if v.len() == 0 || heading_level_of(line) == 0 {
        return false;
    }
    let mut from: usize = 0;
    loop
        invariant
            l@ == line@,
            v@ == version@,
            v@.len() > 0,
            from <= l@.len() + 1,
            heading_names_version(line@, version@) == some_match_stands_alone(line@, version@, from as int),
        decreases l@.len() + 1 - from,
    {
        match find_from(&l, &v, from) {
            None => {
                proof {
                    lemma_no_occurrence(line@, version@, from as int);
                }
                return false;
            },
            Some(at) => {
                proof {
                    lemma_first_occurrence(line@, version@, from as int, at as int);
                }
                if stands_alone_exec(&l, &v, at) {
                    return true;
                }
                from = at + v.len();
            },
        }
    }
}

/// The first line at or after `from` that is a heading naming `version`, or -1.
pub open spec fn first_heading_naming(ls: Seq<Seq<char>>, version: Seq<char>, from: int) -> int
    decreases ls.len() - from,
{
    if from < 0 || from >= ls.len() {
        -1
    } else if heading_names_version(ls[from], version) {
        from
    } else {
        first_heading_naming(ls, version, from + 1)
    }
}

/// The first line at or after `from` that is a heading of `level`, or -1.
pub open spec fn first_heading_of_level(ls: Seq<Seq<char>>, level: nat, from: int) -> int
    decreases ls.len() - from,
{
    if from < 0 || from >= ls.len() {
        -1
    } else if heading_level(ls[from]) == level {
        from
    } else {
        first_heading_of_level(ls, level, from + 1)
    }
}

/// The span of a changelog an upgrade from `old` to `new` covers: from the
/// heading naming `new` to the heading naming `old`, or, without one, to the
/// next heading of the same level, or to the end.
pub open spec fn changelog_slice(markdown: Seq<char>, old: Seq<char>, new: Seq<char>) -> Option<Seq<char>> {
    let ls = lines_of(markdown);
    let start = first_heading_naming(ls, new, 0);
    if start < 0 {
        None
    } else {
        let level = heading_level(ls[start]);
        let to_old = first_heading_naming(ls, old, start + 1);
        let to_level = first_heading_of_level(ls, level, start + 1);
        let end = if to_old >= 0 {
            to_old
        } else if to_level >= 0 {
            to_level
        } else {
            ls.len() as int
        };
        Some(joined(ls.subrange(start, end), seq!['\n']))
    }
}

pub proof fn lemma_first_heading_naming(ls: Seq<Seq<char>>, version: Seq<char>, from: int, at: int)
    requires
        0 <= from <= at <= ls.len(),
        forall|j: int| from <= j < at ==> !heading_names_version(#[trigger] ls[j], version),
    ensures
        at < ls.len() && heading_names_version(ls[at], version) ==> first_heading_naming(ls, version, from) == at,
        at == ls.len() ==> first_heading_naming(ls, version, from) == -1,
    decreases at - from,
{
    if from < at {
        lemma_first_heading_naming(ls, version, from + 1, at);
    }
}

pub proof fn lemma_first_heading_of_level(ls: Seq<Seq<char>>, level: nat, from: int, at: int)
    requires
        0 <= from <= at <= ls.len(),
        forall|j: int| from <= j < at ==> heading_level(#[trigger] ls[j]) != level,
    ensures
        at < ls.len() && heading_level(ls[at]) == level ==> first_heading_of_level(ls, level, from) == at,
        at == ls.len() ==> first_heading_of_level(ls, level, from) == -1,
    decreases at - from,
{
    if from < at {
        lemma_first_heading_of_level(ls, level, from + 1, at);
    }
}

/// Joins the lines `ls[from..to]` with newlines.
fn join_lines(ls: &Vec<&str>, from: usize, to: usize) -> (s: String)
    requires
        from <= to <= ls@.len(),
    ensures
        s@ == joined(str_views(ls@).subrange(from as int, to as int), seq!['\n']),
{
    let ghost v = str_views(ls@);
    let mut s = String::new();
    let mut k = from;
    while k < to
        invariant
            from <= k <= to <= ls@.len(),
            v == str_views(ls@),
            s@ == joined(v.subrange(from as int, k as int), seq!['\n']),
        decreases to - k,
    {
        let ghost part = v.subrange(from as int, k + 1);
        assert(part.drop_last() == v.subrange(from as int, k as int));
        assert(part.last() == ls@[k as int]@);
        if k > from {
            s.push('\n');
        }
        push_str(&mut s, ls[k]);
        proof {
            if k > from {
                assert(s@ =~= joined(part.drop_last(), seq!['\n']) + seq!['\n'] + part.last());
            } else {
                assert(part.len() == 1);
                assert(s@ =~= part[0]);
            }
        }
        k = k + 1;
    }
    s
}

/// Narrows a whole CHANGELOG.md to the span an upgrade actually covers.
///
/// These files run newest-first under a heading per release, so the span runs
/// from the heading naming `new` down to the one naming `old`: the versions
/// being installed, with the one already running excluded. Where `old` does
/// not appear (a new install, or a file that does not go back that far) the
/// section for `new` alone beats handing back the entire history. Without a
/// heading naming `new` there is nothing to show.
pub fn slice_changelog(markdown: &str, old: &str, new: &str) -> (r: Option<String>)
    ensures
        match r {
            Some(s) => changelog_slice(markdown@, old@, new@) == Some(s@),
            None => changelog_slice(markdown@, old@, new@) is None,
        },
{
    let ls = lines(markdown);
    let ghost lv = str_views(ls@);
    let n = ls.len();
    let mut start: usize = 0;
    while start < n && !heading_names(ls[start], new)
        invariant
            start <= n,
            n == ls@.len(),
            lv == str_views(ls@),
            forall|j: int| 0 <= j < start ==> !heading_names_version(#[trigger] lv[j], new@),
        decreases n - start,
    {
        start = start + 1;
    }
    proof {
        lemma_first_heading_naming(lv, new@, 0, start as int);
    }
    if start == n {
        return None;
    }
    let level = heading_level_of(ls[start]);
    let mut end_old: usize = start + 1;
    while end_old < n && !heading_names(ls[end_old], old)
        invariant
            start < end_old <= n,
            n == ls@.len(),
            lv == str_views(ls@),
            forall|j: int| start + 1 <= j < end_old ==> !heading_names_version(#[trigger] lv[j], old@),
        decreases n - end_old,
    {
        end_old = end_old + 1;
    }
    proof {
        lemma_first_heading_naming(lv, old@, start + 1, end_old as int);
    }
    let end = if end_old < n {
        end_old
    } else {
        let mut e: usize = start + 1;
        while e < n && heading_level_of(ls[e]) != level
            invariant
                start < e <= n,
                n == ls@.len(),
                lv == str_views(ls@),
                forall|j: int| start + 1 <= j < e ==> heading_level(#[trigger] lv[j]) != level,
            decreases n - e,
        {
            e = e + 1;
        }
        proof {
            lemma_first_heading_of_level(lv, level as nat, start + 1, e as int);
        }
        e
    };
    Some(join_lines(&ls, start, end))
}


/// One release of a project: its tag and its notes.
#[derive(Debug, Clone)]
pub struct Release {
    pub tag: String,
    pub body: String,
}

impl View for Release {
    type V = (Seq<char>, Seq<char>);

    open spec fn view(&self) -> (Seq<char>, Seq<char>) {
        (self.tag@, self.body@)
    }
}

pub open spec fn release_views(rs: Seq<Release>) -> Seq<(Seq<char>, Seq<char>)> {
    rs.map_values(|r: Release| r@)
}

/// The markdown of a list of releases: a `#` heading per tag, then its notes
/// trimmed, or a note that there are none.
pub open spec fn rendered_releases(rs: Seq<(Seq<char>, Seq<char>)>) -> Seq<char>
    decreases rs.len(),
{
    if rs.len() == 0 {
        seq![]
    } else {
        let r = rs.last();
        let body = trimmed(r.1);
        rendered_releases(rs.drop_last()) + "# "@ + r.0 + "\n\n"@ + if body.len() == 0 {
            "_No release notes._\n\n"@
        } else {
            body + "\n\n"@
        }
    }
}

/// Renders releases as markdown, one section per release in the given order.
pub fn render(releases: &Vec<Release>) -> (markdown: String)
    ensures
        markdown@ == rendered_releases(release_views(releases@)),
{
    let ghost rv = release_views(releases@);
    let mut markdown = String::new();
    let mut k: usize = 0;
    while k < releases.len()
        invariant
            k <= releases@.len(),
            rv == release_views(releases@),
            markdown@ == rendered_releases(rv.take(k as int)),
        decreases releases@.len() - k,
    {
        assert(rv.take(k + 1).drop_last() == rv.take(k as int));
        assert(rv.take(k + 1).last() == releases@[k as int]@);
        push_str(&mut markdown, "# ");
        push_str(&mut markdown, releases[k].tag.as_str());
        push_str(&mut markdown, "\n\n");
        let body = trim(releases[k].body.as_str());
        if body.unicode_len() == 0 {
            push_str(&mut markdown, "_No release notes._\n\n");
        } else {
            push_str(&mut markdown, body);
            push_str(&mut markdown, "\n\n");
        }
        k = k + 1;
    }
    assert(rv.take(releases@.len() as int) == rv);
    markdown
}

/// The field a forge puts release notes in.
pub fn body_field(host: &str) -> (f: &'static str)
    ensures
        f@ == (if host@ == "gitlab.com"@ { "description"@ } else { "body"@ }),
{
    if crate::text::str_eq(host, "gitlab.com") {
        "description"
    } else {
        "body"
    }
}

/// A URL reduced to what the tools read of it: its host and its path
/// segments, each absent where the URL has none.
#[derive(Debug, Clone)]
pub struct UrlParts {
    pub host: Option<String>,
    pub segments: Option<Vec<String>>,
}

pub type UrlView = (Option<Seq<char>>, Option<Seq<Seq<char>>>);

pub open spec fn string_views(v: Seq<String>) -> Seq<Seq<char>> {
    v.map_values(|s: String| s@)
}

pub open spec fn url_view(u: UrlParts) -> UrlView {
    (
        match u.host {
            Some(h) => Some(h@),
            None => None,
        },
        match u.segments {
            Some(s) => Some(string_views(s@)),
            None => None,
        },
    )
}

/// `url::Url::parse` applied to a string, reduced to the URL's `host_str`
/// and `path_segments`; `None` where it does not parse.
pub uninterp spec fn parsed_url(raw: Seq<char>) -> Option<UrlView>;

/// Parses `raw` with `url::Url::parse` and reads back `host_str` and
/// `path_segments`. The contract names the result, which depends on `raw`
/// alone, and says nothing more of it.
#[verifier::external_body]
pub(crate) fn parse_url(raw: &str) -> (r: Option<UrlParts>)
    ensures
        match r {
            Some(u) => parsed_url(raw@) == Some(url_view(u)),
            None => parsed_url(raw@) is None,
        },
{
    match url::Url::parse(raw) {
        Ok(url) => Some(
            UrlParts {
                host: url.host_str().map(|h| h.to_owned()),
                segments: url.path_segments().map(|parts| parts.map(|p| p.to_owned()).collect()),
            },
        ),
        Err(_) => None,
    }
}

/// A repository on a forge.
#[derive(Debug, Clone)]
pub struct RepoRef {
    pub host: String,
    pub owner: String,
    pub repo: String,
}

impl View for RepoRef {
    type V = (Seq<char>, Seq<char>, Seq<char>);

    open spec fn view(&self) -> (Seq<char>, Seq<char>, Seq<char>) {
        (self.host@, self.owner@, self.repo@)
    }
}

/// `s` with every trailing copy of `p` removed, as `trim_end_matches` does.
pub open spec fn without_suffixes(s: Seq<char>, p: Seq<char>) -> Seq<char>
    decreases s.len(),
{
    if p.len() > 0 && ends_with(s, p) {
        without_suffixes(s.take(s.len() - p.len()), p)
    } else {
        s
    }
}

/// The repository a URL points into: its host, and the first two path
/// segments as owner and repository, less any `.git`; both must be nonempty.
pub open spec fn repo_of_url(u: UrlView) -> Option<(Seq<char>, Seq<char>, Seq<char>)> {
    match u {
        (Some(host), Some(segs)) => if segs.len() >= 2 && segs[0].len() > 0 && without_suffixes(
            segs[1],
            ".git"@,
        ).len() > 0 {
            Some((host, segs[0], without_suffixes(segs[1], ".git"@)))
        } else {
            None
        },
        _ => None,
    }
}

fn strip_all_suffixes<'a>(s: &'a str, p: &str) -> (r: &'a str)
    ensures
        r@ == without_suffixes(s@, p@),
{
    let cs = chars_of(s);
    let ps = chars_of(p);
    if ps.len() == 0 {
        return s;
    }
    let mut end = cs.len();
    assert(s@.take(end as int) == s@);
    while end >= ps.len() && crate::strings::occurs_at_exec(&cs, &ps, end - ps.len())
        invariant
            end <= cs@.len(),
            cs@ == s@,
            ps@ == p@,
            ps@.len() > 0,
            without_suffixes(s@, p@) == without_suffixes(s@.take(end as int), p@),
        decreases end,
    {
        proof {
            let t = s@.take(end as int);
            assert(t.skip(t.len() - p@.len()) =~= s@.subrange(end - p@.len(), end as int));
            assert(t.take(t.len() - p@.len()) == s@.take(end - p@.len()));
        }
        end = end - ps.len();
    }
    proof {
        let t = s@.take(end as int);
        if end >= ps.len() {
            assert(t.skip(t.len() - p@.len()) =~= s@.subrange(end - p@.len(), end as int));
        }
    }
    s.substring_char(0, end)
}

/// The repository a parsed URL points into.
pub fn repo_ref_from_parts(u: &UrlParts) -> (r: Option<RepoRef>)
    ensures
        match r {
            Some(x) => repo_of_url(url_view(*u)) == Some(x@),
            None => repo_of_url(url_view(*u)) is None,
        },
{
    match (&u.host, &u.segments) {
        (Some(host), Some(segs)) => {
            if segs.len() < 2 {
                return None;
            }
            let owner = segs[0].as_str();
            let repo = strip_all_suffixes(segs[1].as_str(), ".git");
            if owner.unicode_len() == 0 || repo.unicode_len() == 0 {
                return None;
            }
            Some(RepoRef { host: host.clone(), owner: owner.to_owned(), repo: repo.to_owned() })
        },
        _ => None,
    }
}

/// The repository a URL points into, if it parses and names one.
pub fn repo_ref_from_url(raw: &str) -> (r: Option<RepoRef>)
    ensures
        match r {
            Some(x) => parsed_url(raw@) matches Some(u) && repo_of_url(u) == Some(x@),
            None => parsed_url(raw@) matches Some(u) ==> repo_of_url(u) is None,
        },
{
    match parse_url(raw) {
        Some(u) => repo_ref_from_parts(&u),
        None => None,
    }
}

/// The tag a release URL names: `<owner>/<repo>/releases/tag/<tag>` on GitHub
/// and its like, `<owner>/<repo>/-/releases/<tag>` on GitLab.
pub open spec fn release_tag_of_url(u: UrlView) -> Option<Seq<char>> {
    match u.1 {
        Some(segs) => if segs.len() >= 5 && segs[2] == "releases"@ && segs[3] == "tag"@ {
            Some(segs[4])
        } else if segs.len() >= 5 && segs[2] == "-"@ && segs[3] == "releases"@ {
            Some(segs[4])
        } else {
            None
        },
        None => None,
    }
}

/// The release tag a parsed URL names.
pub fn release_tag_from_parts(u: &UrlParts) -> (r: Option<String>)
    ensures
        match r {
            Some(t) => release_tag_of_url(url_view(*u)) == Some(t@),
            None => release_tag_of_url(url_view(*u)) is None,
        },
{
    match &u.segments {
        Some(segs) => {
            let ghost sv = string_views(segs@);
            if segs.len() >= 5 {
                assert(sv[2] == segs@[2]@ && sv[3] == segs@[3]@ && sv[4] == segs@[4]@);
                if crate::text::str_eq(segs[2].as_str(), "releases") && crate::text::str_eq(
                    segs[3].as_str(),
                    "tag",
                ) {
                    return Some(segs[4].clone());
                }
                if crate::text::str_eq(segs[2].as_str(), "-") && crate::text::str_eq(
                    segs[3].as_str(),
                    "releases",
                ) {
                    return Some(segs[4].clone());
                }
            }
            None
        },
        None => None,
    }
}

/// The tag named by a URL that points at one release, as nixpkgs' `changelog`
/// attribute usually does: `…/releases/tag/v1.2.3`, or GitLab's
/// `…/-/releases/v1.2.3`.
pub fn release_tag_from_url(raw: &str) -> (r: Option<String>)
    ensures
        match r {
            Some(t) => parsed_url(raw@) matches Some(u) && release_tag_of_url(u) == Some(t@),
            None => parsed_url(raw@) matches Some(u) ==> release_tag_of_url(u) is None,
        },
{
    match parse_url(raw) {
        Some(u) => release_tag_from_parts(&u),
        None => None,
    }
}


/// Where a walk over a project's releases, newest first, has got to.
pub struct ScanView {
    pub collecting: bool,
    pub collected: Seq<(Seq<char>, Seq<char>)>,
    pub stopped: bool,
}

/// One release of the walk: nothing is kept before the tag of `new`; from it
/// on each release is kept until the tag of `old`, which is not; with no
/// `old` only the release of `new` is kept.
pub open spec fn scan_step(st: ScanView, r: (Seq<char>, Seq<char>), old: Seq<char>, new: Seq<char>) -> ScanView {
    if !st.collecting && !tag_names(r.0, new) {
        st
    } else if old.len() == 0 {
        ScanView { collecting: true, collected: st.collected.push(r), stopped: true }
    } else if tag_names(r.0, old) {
        ScanView { collecting: true, collected: st.collected, stopped: true }
    } else {
        ScanView { collecting: true, collected: st.collected.push(r), stopped: false }
    }
}

/// The walk over a page of releases, up to where it stops.
pub open spec fn scan_page(st: ScanView, rs: Seq<(Seq<char>, Seq<char>)>, old: Seq<char>, new: Seq<char>) -> ScanView
    decreases rs.len(),
{
    if rs.len() == 0 || st.stopped {
        st
    } else {
        scan_page(scan_step(st, rs[0], old, new), rs.drop_first(), old, new)
    }
}

/// The releases an upgrade brings in, gathered page by page from a forge's
/// newest-first release list: everything after `old` up to and including
/// `new`, or, for a fresh install (no `old`), the release of `new` alone.
pub struct ReleaseScan {
    collecting: bool,
    collected: Vec<Release>,
    stopped: bool,
}

impl ReleaseScan {
    pub closed spec fn state(&self) -> ScanView {
        ScanView {
            collecting: self.collecting,
            collected: release_views(self.collected@),
            stopped: self.stopped,
        }
    }

    /// A walk that has seen nothing.
    pub fn new() -> (s: ReleaseScan)
        ensures
            s.state() == (ScanView { collecting: false, collected: seq![], stopped: false }),
    {
        let s = ReleaseScan { collecting: false, collected: Vec::new(), stopped: false };
        assert(release_views(s.collected@) =~= Seq::<(Seq<char>, Seq<char>)>::empty());
        s
    }

    /// Walks one page of releases; whether another page should be fetched. An
    /// empty page ends the walk, as does reaching its end.
    pub fn feed(&mut self, page: Vec<Release>, old_version: &str, new_version: &str) -> (more: bool)
        ensures
            final(self).state() == scan_page(old(self).state(), release_views(page@), old_version@, new_version@),
            more == (page@.len() > 0 && !final(self).state().stopped),
    {
        let ghost pv = release_views(page@);
        let ghost start = self.state();
        let n = page.len();
        let mut page = page;
        let ghost mut taken: int = 0;
        while page.len() > 0 && !self.stopped
            invariant
                0 <= taken <= pv.len(),
                n == pv.len(),
                release_views(page@) == pv.skip(taken),
                scan_page(start, pv, old_version@, new_version@) == scan_page(self.state(), pv.skip(taken), old_version@, new_version@),
            decreases page@.len(),
        {
            assert(pv.skip(taken).len() == page@.len());
            assert(release_views(page@)[0] == pv[taken]);
            let r = page.remove(0);
            let ghost st = self.state();
            proof {
                assert(pv.skip(taken)[0] == r@);
                assert(pv.skip(taken).drop_first() == pv.skip(taken + 1));
            }
            let ghost before = release_views(self.collected@);
            if self.collecting || tag_matches(r.tag.as_str(), new_version) {
                self.collecting = true;
                if old_version.unicode_len() == 0 {
                    self.collected.push(r);
                    self.stopped = true;
                    assert(release_views(self.collected@) =~= before.push(r@));
                } else if tag_matches(r.tag.as_str(), old_version) {
                    self.stopped = true;
                } else {
                    self.collected.push(r);
                    assert(release_views(self.collected@) =~= before.push(r@));
                }
            }
            proof {
                assert(self.state() == scan_step(st, r@, old_version@, new_version@));
                taken = taken + 1;
            }
        }
        proof {
            if !self.stopped {
                assert(taken == pv.len());
                assert(pv.skip(taken).len() == 0);
            }
        }
        n > 0 && !self.stopped
    }

    /// The releases gathered, oldest first; `None` when there are none.
    pub fn finish(self) -> (r: Option<Vec<Release>>)
        ensures
            match r {
                Some(rs) => self.state().collected.len() > 0 && release_views(rs@) == self.state().collected.reverse(),
                None => self.state().collected.len() == 0,
            },
    {
        if self.collected.len() == 0 {
            return None;
        }
        let ghost c = release_views(self.collected@);
        let mut collected = self.collected;
        let mut out: Vec<Release> = Vec::new();
        while collected.len() > 0
            invariant
                release_views(out@) == c.skip(collected@.len() as int).reverse(),
                release_views(collected@) == c.take(collected@.len() as int),
                collected@.len() <= c.len(),
            decreases collected@.len(),
        {
            let ghost k = collected@.len();
            let x = collected.pop().unwrap();
            proof {
                assert(c.take(k as int).last() == x@);
                assert(c.take(k - 1) == c.take(k as int).drop_last());
                assert(release_views(collected@) =~= c.take(k - 1));
                assert(c.skip(k - 1) =~= seq![x@] + c.skip(k as int));
            }
            let ghost before = release_views(out@);
            out.push(x);
            proof {
                assert(release_views(out@) =~= before.push(x@));
                assert(c.skip(k - 1).reverse() =~= c.skip(k as int).reverse().push(x@));
            }
        }
        assert(c.skip(0) == c);
        Some(out)
    }
}

/// The API address of one page of a repository's releases.
pub open spec fn releases_page_address(repo: (Seq<char>, Seq<char>, Seq<char>), page: Seq<char>) -> Seq<char> {
    let (host, owner, name) = repo;
    if host == "github.com"@ {
        "https://api.github.com/repos/"@ + owner + "/"@ + name + "/releases?per_page=100&page="@ + page
    } else if host == "gitlab.com"@ {
        "https://gitlab.com/api/v4/projects/"@ + owner + "%2F"@ + name + "/releases?per_page=100&page="@ + page
            + "&order_by=released_at&sort=desc"@
    } else {
        "https://"@ + host + "/api/v1/repos/"@ + owner + "/"@ + name + "/releases?limit=50&page="@ + page
    }
}

/// The API address of one page of a repository's releases on GitHub, GitLab,
/// or a Forgejo or Gitea host.
pub fn releases_page_url(repo: &RepoRef, page: u32) -> (url: String)
    ensures
        url@ == releases_page_address(repo@, crate::text::decimal(page as nat)),
{
    let number = crate::text::u64_to_decimal(page as u64);
    let mut url = String::new();
    if crate::text::str_eq(repo.host.as_str(), "github.com") {
        push_str(&mut url, "https://api.github.com/repos/");
        push_str(&mut url, repo.owner.as_str());
        push_str(&mut url, "/");
        push_str(&mut url, repo.repo.as_str());
        push_str(&mut url, "/releases?per_page=100&page=");
        push_str(&mut url, number.as_str());
    } else if crate::text::str_eq(repo.host.as_str(), "gitlab.com") {
        push_str(&mut url, "https://gitlab.com/api/v4/projects/");
        push_str(&mut url, repo.owner.as_str());
        push_str(&mut url, "%2F");
        push_str(&mut url, repo.repo.as_str());
        push_str(&mut url, "/releases?per_page=100&page=");
        push_str(&mut url, number.as_str());
        push_str(&mut url, "&order_by=released_at&sort=desc");
    } else {
        push_str(&mut url, "https://");
        push_str(&mut url, repo.host.as_str());
        push_str(&mut url, "/api/v1/repos/");
        push_str(&mut url, repo.owner.as_str());
        push_str(&mut url, "/");
        push_str(&mut url, repo.repo.as_str());
        push_str(&mut url, "/releases?limit=50&page=");
        push_str(&mut url, number.as_str());
    }
    url
}

/// The API address of the release a tag names.
pub open spec fn release_address(repo: (Seq<char>, Seq<char>, Seq<char>), tag: Seq<char>) -> Seq<char> {
    let (host, owner, name) = repo;
    if host == "github.com"@ {
        "https://api.github.com/repos/"@ + owner + "/"@ + name + "/releases/tags/"@ + tag
    } else if host == "gitlab.com"@ {
        "https://gitlab.com/api/v4/projects/"@ + owner + "%2F"@ + name + "/releases/"@ + tag
    } else {
        "https://"@ + host + "/api/v1/repos/"@ + owner + "/"@ + name + "/releases/tags/"@ + tag
    }
}

/// The API address of the release a tag names.
pub fn release_by_tag_url(repo: &RepoRef, tag: &str) -> (url: String)
    ensures
        url@ == release_address(repo@, tag@),
{
    let mut url = String::new();
    if crate::text::str_eq(repo.host.as_str(), "github.com") {
        push_str(&mut url, "https://api.github.com/repos/");
        push_str(&mut url, repo.owner.as_str());
        push_str(&mut url, "/");
        push_str(&mut url, repo.repo.as_str());
        push_str(&mut url, "/releases/tags/");
    } else if crate::text::str_eq(repo.host.as_str(), "gitlab.com") {
        push_str(&mut url, "https://gitlab.com/api/v4/projects/");
        push_str(&mut url, repo.owner.as_str());
        push_str(&mut url, "%2F");
        push_str(&mut url, repo.repo.as_str());
        push_str(&mut url, "/releases/");
    } else {
        push_str(&mut url, "https://");
        push_str(&mut url, repo.host.as_str());
        push_str(&mut url, "/api/v1/repos/");
        push_str(&mut url, repo.owner.as_str());
        push_str(&mut url, "/");
        push_str(&mut url, repo.repo.as_str());
        push_str(&mut url, "/releases/tags/");
    }
    push_str(&mut url, tag);
    url
}

/// The segments joined with `/`.
pub open spec fn slash_joined(segs: Seq<Seq<char>>) -> Seq<char> {
    joined(segs, "/"@)
}

/// Where the text of a changelog address can be fetched: a GitHub `blob` or
/// `raw` viewer page maps to the file on `raw.githubusercontent.com`; other
/// addresses of markdown files are fetched as they are; anything else is not
/// renderable. A GitHub address without a path names nothing.
pub open spec fn changelog_address(raw: Seq<char>, u: Option<UrlView>) -> Option<Seq<char>> {
    let markdown = ends_with(raw, ".md"@) || ends_with(raw, ".markdown"@);
    match u {
        Some((Some(host), segs)) => if host == "github.com"@ {
            match segs {
                None => None,
                Some(s) => if s.len() >= 4 && (s[2] == "blob"@ || s[2] == "raw"@) {
                    Some(
                        "https://raw.githubusercontent.com/"@ + s[0] + "/"@ + s[1] + "/"@ + s[3] + "/"@
                            + slash_joined(s.skip(4)),
                    )
                } else if markdown {
                    Some(raw)
                } else {
                    None
                },
            }
        } else if markdown {
            Some(raw)
        } else {
            None
        },
        _ => if markdown {
            Some(raw)
        } else {
            None
        },
    }
}

/// Appends `segs[from..]` joined with `/`.
pub(crate) fn push_slash_joined(s: &mut String, segs: &Vec<String>, from: usize)
    requires
        from <= segs@.len(),
    ensures
        final(s)@ == old(s)@ + slash_joined(string_views(segs@).skip(from as int)),
{
    let ghost sv = string_views(segs@);
    let ghost s0 = old(s)@;
    let mut k = from;
    while k < segs.len()
        invariant
            from <= k <= segs@.len(),
            sv == string_views(segs@),
            s@ == s0 + slash_joined(sv.subrange(from as int, k as int)),
        decreases segs@.len() - k,
    {
        let ghost part = sv.subrange(from as int, k + 1);
        assert(part.drop_last() == sv.subrange(from as int, k as int));
        assert(part.last() == segs@[k as int]@);
        if k > from {
            push_str(s, "/");
        }
        push_str(s, segs[k].as_str());
        proof {
            if k > from {
                assert(s@ =~= s0 + (slash_joined(part.drop_last()) + "/"@ + part.last()));
            } else {
                assert(part.len() == 1);
                assert(s@ =~= s0 + part[0]);
            }
        }
        k = k + 1;
    }
    assert(sv.subrange(from as int, segs@.len() as int) == sv.skip(from as int));
}

/// Where to fetch the changelog that `meta.changelog` points at, when it
/// points at something renderable.
pub fn changelog_fetch_url(raw: &str) -> (r: Option<String>)
    ensures
        match r {
            Some(u) => changelog_address(raw@, parsed_url(raw@)) == Some(u@),
            None => changelog_address(raw@, parsed_url(raw@)) is None,
        },
{
    let markdown = crate::strings::ends_with_text(raw, ".md") || crate::strings::ends_with_text(
        raw,
        ".markdown",
    );
    let parsed = parse_url(raw);
    match parsed {
        Some(u) => match &u.host {
            Some(host) => {
                if crate::text::str_eq(host.as_str(), "github.com") {
                    match &u.segments {
                        None => {
                            return None;
                        },
                        Some(segs) => {
                            let ghost sv = string_views(segs@);
                            if segs.len() >= 4 {
                                assert(sv[0] == segs@[0]@ && sv[1] == segs@[1]@ && sv[2] == segs@[2]@
                                    && sv[3] == segs@[3]@);
                                if crate::text::str_eq(segs[2].as_str(), "blob") || crate::text::str_eq(
                                    segs[2].as_str(),
                                    "raw",
                                ) {
                                    let mut s = String::new();
                                    push_str(&mut s, "https://raw.githubusercontent.com/");
                                    push_str(&mut s, segs[0].as_str());
                                    push_str(&mut s, "/");
                                    push_str(&mut s, segs[1].as_str());
                                    push_str(&mut s, "/");
                                    push_str(&mut s, segs[3].as_str());
                                    push_str(&mut s, "/");
                                    push_slash_joined(&mut s, segs, 4);
                                    return Some(s);
                                }
                            }
                        },
                    }
                }
            },
            None => {},
        },
        None => {},
    }
    if markdown {
        Some(raw.to_owned())
    } else {
        None
    }
}

/// Where a GitHub repository's `CHANGELOG.md` sits, for projects that keep
/// one without naming it; other hosts have no such place.
pub fn default_changelog_url(repo: &RepoRef) -> (r: Option<String>)
    ensures
        match r {
            Some(u) => repo@.0 == "github.com"@ && u@ == "https://raw.githubusercontent.com/"@ + repo@.1
                + "/"@ + repo@.2 + "/HEAD/CHANGELOG.md"@,
            None => repo@.0 != "github.com"@,
        },
{
    if !crate::text::str_eq(repo.host.as_str(), "github.com") {
        return None;
    }
    let mut s = String::new();
    push_str(&mut s, "https://raw.githubusercontent.com/");
    push_str(&mut s, repo.owner.as_str());
    push_str(&mut s, "/");
    push_str(&mut s, repo.repo.as_str());
    push_str(&mut s, "/HEAD/CHANGELOG.md");
    Some(s)
}

/// What the changelog file offers: the span of `text` for the upgrade, or the
/// whole text where no heading names `new`.
pub fn changelog_from_text(text: &str, old: &str, new: &str) -> (r: String)
    ensures
        r@ == match changelog_slice(text@, old@, new@) {
            Some(s) => s,
            None => text@,
        },
{
    match slice_changelog(text, old, new) {
        Some(s) => s,
        None => text.to_owned(),
    }
}

/// The last resort: a pointer to where the changelog lives.
pub fn changelog_link(raw: &str) -> (r: String)
    ensures
        r@ == "Changelog lives at <"@ + raw@ + ">.\n"@,
{
    let mut s = String::new();
    push_str(&mut s, "Changelog lives at <");
    push_str(&mut s, raw);
    push_str(&mut s, ">.\n");
    s
}

/// A tag without a `/` matches itself.
pub proof fn law_tag_matches_itself(tag: Seq<char>)
    requires
        forall|i: int| 0 <= i < tag.len() ==> tag[i] != '/',
    ensures
        tag_names(tag, tag),
{
    lemma_last_segment_whole(tag);
}

proof fn lemma_last_segment_whole(s: Seq<char>)
    requires
        forall|i: int| 0 <= i < s.len() ==> s[i] != '/',
    ensures
        last_segment(s) == s,
    decreases s.len(),
{
    if s.len() > 0 {
        lemma_last_segment_whole(s.drop_last());
        assert(s.drop_last().push(s.last()) =~= s);
    }
}

/// Dropping the `v` of a version twice drops no more than once.
pub proof fn law_normalized_is_idempotent(v: Seq<char>)
    ensures
        normalized(normalized(v)) == normalized(v),
{
}

/// A way of finding the release notes of an upgrade. They are tried in the
/// order given here, skipping those that do not apply, until one succeeds.
#[derive(Debug, Clone, Copy, PartialEq, Eq, Structural)]
pub enum Lookup {
    /// For a fresh install, the release that the package's changelog
    /// address names.
    PinnedRelease,
    /// The releases between the two versions.
    ReleaseSpan,
    /// The release that the changelog address names, when the span yielded
    /// nothing.
    RecordedRelease,
    /// The changelog file narrowed to the versions, or a link to it.
    ChangelogFile,
}

/// The place of a lookup in the order they are tried.
pub open spec fn lookup_rank(l: Lookup) -> nat {
    match l {
        Lookup::PinnedRelease => 0,
        Lookup::ReleaseSpan => 1,
        Lookup::RecordedRelease => 2,
        Lookup::ChangelogFile => 3,
    }
}

/// Whether a lookup applies: the release lookups need a repository, the
/// pinned and recorded ones a tag, and the pinned one a fresh install.
pub open spec fn lookup_applies(l: Lookup, has_repo: bool, fresh_install: bool, has_tag: bool) -> bool {
    match l {
        Lookup::PinnedRelease => has_repo && fresh_install && has_tag,
        Lookup::ReleaseSpan => has_repo,
        Lookup::RecordedRelease => has_repo && has_tag,
        Lookup::ChangelogFile => true,
    }
}

/// The first lookup at or after place `from` that applies.
pub open spec fn first_lookup_from(from: nat, has_repo: bool, fresh_install: bool, has_tag: bool) -> Option<Lookup> {
    if from <= 0 && lookup_applies(Lookup::PinnedRelease, has_repo, fresh_install, has_tag) {
        Some(Lookup::PinnedRelease)
    } else if from <= 1 && lookup_applies(Lookup::ReleaseSpan, has_repo, fresh_install, has_tag) {
        Some(Lookup::ReleaseSpan)
    } else if from <= 2 && lookup_applies(Lookup::RecordedRelease, has_repo, fresh_install, has_tag) {
        Some(Lookup::RecordedRelease)
    } else if from <= 3 {
        Some(Lookup::ChangelogFile)
    } else {
        None
    }
}

/// The lookup to try next: the first one when none has failed yet, else the
/// one after the lookup that `failed`; nothing once the changelog file has
/// failed too. `has_repo` says whether the package's changelog or homepage
/// names a repository, `fresh_install` whether there is no old version, and
/// `has_tag` whether the changelog address names a release.
pub fn next_lookup(failed: Option<Lookup>, has_repo: bool, fresh_install: bool, has_tag: bool) -> (r: Option<Lookup>)
    ensures
        r == first_lookup_from(
            match failed {
                Some(f) => lookup_rank(f) + 1,
                None => 0,
            },
            has_repo,
            fresh_install,
            has_tag,
        ),
{
    let from: u8 = match failed {
        Some(Lookup::PinnedRelease) => 1,
        Some(Lookup::ReleaseSpan) => 2,
        Some(Lookup::RecordedRelease) => 3,
        Some(Lookup::ChangelogFile) => 4,
        None => 0,
    };
    if from <= 0 && has_repo && fresh_install && has_tag {
        Some(Lookup::PinnedRelease)
    } else if from <= 1 && has_repo {
        Some(Lookup::ReleaseSpan)
    } else if from <= 2 && has_repo && has_tag {
        Some(Lookup::RecordedRelease)
    } else if from <= 3 {
        Some(Lookup::ChangelogFile)
    } else {
        None
    }
}

/// Every lookup comes after the one that failed before it, and the changelog
/// file is always tried last: the lookups end.
pub proof fn law_lookups_move_forward(failed: Lookup, has_repo: bool, fresh_install: bool, has_tag: bool)
    ensures
        first_lookup_from(lookup_rank(failed) + 1, has_repo, fresh_install, has_tag) matches Some(l)
            ==> lookup_rank(l) > lookup_rank(failed) && lookup_applies(l, has_repo, fresh_install, has_tag),
        failed == Lookup::ChangelogFile ==> first_lookup_from(
            lookup_rank(failed) + 1,
            has_repo,
            fresh_install,
            has_tag,
        ) is None,
        failed != Lookup::ChangelogFile ==> first_lookup_from(
            lookup_rank(failed) + 1,
            has_repo,
            fresh_install,
            has_tag,
        ) is Some,
{
}

} // verus!
