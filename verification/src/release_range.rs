//! Release notes of a package over a span of versions: reading the version
//! span asked for, picking the releases it covers out of a forge's
//! newest-first release list, and joining their notes.
use vstd::prelude::*;

use crate::changelog::{
    parse_url, parsed_url, push_slash_joined, release_views, slash_joined, string_views, Release,
    UrlView,
};
use crate::strings::{find_from, occurs_at, push_str, trim, trimmed};
use crate::text::{chars_eq, chars_of};

verus! {

/// A version with a leading `v` or `V` dropped.
pub open spec fn without_v(v: Seq<char>) -> Seq<char> {
    if v.len() > 0 && (v[0] == 'v' || v[0] == 'V') {
        v.drop_first()
    } else {
        v
    }
}

/// Drops a leading `v` or `V`.
pub fn normalize_version(v: &str) -> (r: &str)
    ensures
        r@ == without_v(v@),
{
    let n = v.unicode_len();
    if n > 0 && (v.get_char(0) == 'v' || v.get_char(0) == 'V') {
        let r = v.substring_char(1, n);
        assert(r@ =~= v@.drop_first());
        r
    } else {
        v
    }
}

/// Whether a release tag is the version asked for, a leading `v` aside.
pub fn tag_matches(tag: &str, wanted: &str) -> (b: bool)
    ensures
        b == (without_v(tag@) == without_v(wanted@)),
{
    let t = chars_of(normalize_version(tag));
    let w = chars_of(normalize_version(wanted));
    chars_eq(&t, &w)
}

/// The versions asked for: one, or a span whose ends may be open.
#[derive(Debug, Clone, PartialEq, Eq)]
pub enum VersionSpec {
    Single(String),
    Range { from: Option<String>, to: Option<String> },
}

/// A character in ASCII lower case.
pub open spec fn ascii_lower(c: char) -> char {
    if 'A' <= c <= 'Z' {
        ((c as u32) + 32) as char
    } else {
        c
    }
}

/// Whether a text is `latest`, in any ASCII case.
pub open spec fn is_latest(s: Seq<char>) -> bool {
    s.len() == 6 && forall|i: int| 0 <= i < 6 ==> #[trigger] ascii_lower(s[i]) == "latest"@[i]
}

/// One end of a span: open when blank or `latest`, else the version trimmed.
pub open spec fn span_end(s: Seq<char>) -> Option<Seq<char>> {
    let t = trimmed(s);
    if t.len() == 0 || is_latest(t) {
        None
    } else {
        Some(t)
    }
}

/// What a version argument asks for: a span `from..to` split at the first
/// `..`, else the one version, trimmed.
pub open spec fn version_spec_of(raw: Seq<char>) -> (bool, Option<Seq<char>>, Option<Seq<char>>) {
    if exists|i: int| 0 <= i && occurs_at(raw, ".."@, i) {
        let i = choose|i: int|
            0 <= i && occurs_at(raw, ".."@, i) && forall|j: int| 0 <= j < i ==> !occurs_at(raw, ".."@, j);
        (true, span_end(raw.take(i)), span_end(raw.skip(i + 2)))
    } else {
        (false, Some(trimmed(raw)), None)
    }
}

/// The view of a version spec: whether it is a span, and its two ends (the
/// one version first for a single one).
pub open spec fn spec_view(v: VersionSpec) -> (bool, Option<Seq<char>>, Option<Seq<char>>) {
    match v {
        VersionSpec::Single(s) => (false, Some(s@), None),
        VersionSpec::Range { from, to } => (
            true,
            match from {
                Some(f) => Some(f@),
                None => None,
            },
            match to {
                Some(t) => Some(t@),
                None => None,
            },
        ),
    }
}

fn ascii_lower_char(c: char) -> (r: char)
    ensures
        r == ascii_lower(c),
{
    if 'A' <= c && c <= 'Z' {
        ((c as u8) + 32) as char
    } else {
        c
    }
}

fn span_end_of(s: &str) -> (r: Option<String>)
    ensures
        r matches Some(t) ==> span_end(s@) == Some(t@),
        r is None ==> span_end(s@) is None,
{
    let t = trim(s);
    let cs = chars_of(t);
    if cs.len() == 0 {
        return None;
    }
    if cs.len() == 6 {
        let latest = chars_of("latest");
        proof {
            reveal_strlit("latest");
        }
        let mut i: usize = 0;
        let mut same = true;
        while i < 6 && same
            invariant
                i <= 6,
                cs@ == t@,
                cs@.len() == 6,
                latest@ == "latest"@,
                latest@.len() == 6,
                same ==> forall|j: int| 0 <= j < i ==> #[trigger] ascii_lower(t@[j]) == "latest"@[j],
                !same ==> !is_latest(t@),
            decreases 6 - i + (if same { 1int } else { 0int }),
        {
            if ascii_lower_char(cs[i]) != latest[i] {
                same = false;
            } else {
                i = i + 1;
            }
        }
        if same {
            return None;
        }
    }
    Some(t.to_owned())
}

/// Reads a version argument: `from..to` is a span, either end of which may
/// be blank or `latest` to leave it open; anything else is one version.
pub fn parse_version_spec(raw: &str) -> (spec: VersionSpec)
    ensures
        spec_view(spec) == version_spec_of(raw@),
{
    let cs = chars_of(raw);
    let dots = chars_of("..");
    proof {
        reveal_strlit("..");
    }
    match find_from(&cs, &dots, 0) {
        Some(i) => {
            proof {
                let k = choose|k: int|
                    0 <= k && occurs_at(raw@, ".."@, k) && forall|j: int|
                        0 <= j < k ==> !occurs_at(raw@, ".."@, j);
                if k < i {
                } else if k > i {
                    assert(!occurs_at(raw@, ".."@, i as int));
                }
                assert(k == i);
            }
            let n = raw.unicode_len();
            let from = raw.substring_char(0, i);
            let to = raw.substring_char(i + 2, n);
            assert(from@ == raw@.take(i as int));
            assert(to@ == raw@.skip(i + 2));
            VersionSpec::Range { from: span_end_of(from), to: span_end_of(to) }
        },
        None => VersionSpec::Single(trim(raw).to_owned()),
    }
}

/// The first release of a page whose tag is the version asked for.
pub fn first_matching(page: &Vec<Release>, wanted: &str) -> (r: Option<usize>)
    ensures
        r matches Some(i) ==> i < page@.len() && without_v(page@[i as int].tag@) == without_v(
            wanted@,
        ) && forall|j: int|
            0 <= j < i ==> without_v(#[trigger] page@[j].tag@) != without_v(wanted@),
        r is None ==> forall|j: int|
            0 <= j < page@.len() ==> without_v(#[trigger] page@[j].tag@) != without_v(wanted@),
{
    let mut i: usize = 0;
    while i < page.len()
        invariant
            i <= page@.len(),
            forall|j: int| 0 <= j < i ==> without_v(#[trigger] page@[j].tag@) != without_v(wanted@),
        decreases page@.len() - i,
    {
        if tag_matches(page[i].tag.as_str(), wanted) {
            return Some(i);
        }
        i = i + 1;
    }
    None
}

/// Where a walk over the releases of a span, newest first, has got to.
pub struct RangeView {
    pub collecting: bool,
    pub found_to: bool,
    pub found_from: bool,
    pub collected: Seq<(Seq<char>, Seq<char>)>,
    pub stopped: bool,
}

/// Whether the tag of a release is the version `v`, when there is one.
pub open spec fn is_end(tag: Seq<char>, v: Option<Seq<char>>) -> bool {
    match v {
        Some(w) => without_v(tag) == without_v(w),
        None => false,
    }
}

/// One release of the walk: releases before the newer end `to` are passed
/// over; from it on each is kept, up to and including the older end `from`,
/// where the walk stops.
pub open spec fn range_step(
    st: RangeView,
    r: (Seq<char>, Seq<char>),
    from: Option<Seq<char>>,
    to: Option<Seq<char>>,
) -> RangeView {
    if !st.collecting && !is_end(r.0, to) {
        st
    } else {
        let found_to = st.found_to || !st.collecting;
        if is_end(r.0, from) {
            RangeView {
                collecting: true,
                found_to,
                found_from: true,
                collected: st.collected.push(r),
                stopped: true,
            }
        } else {
            RangeView { collecting: true, found_to, collected: st.collected.push(r), ..st }
        }
    }
}

/// The walk over a page, up to where it stops.
pub open spec fn range_page(
    st: RangeView,
    rs: Seq<(Seq<char>, Seq<char>)>,
    from: Option<Seq<char>>,
    to: Option<Seq<char>>,
) -> RangeView
    decreases rs.len(),
{
    if rs.len() == 0 || st.stopped {
        st
    } else {
        range_page(range_step(st, rs[0], from, to), rs.drop_first(), from, to)
    }
}

/// Why a span of releases could not be gathered: an end that no release
/// matched.
#[derive(Debug, Clone, PartialEq, Eq)]
pub enum RangeError {
    /// The newer end was never found.
    MissingTo(String),
    /// The older end was never found.
    MissingFrom(String),
}

/// The releases of a span, gathered page by page from a forge's newest-first
/// release list: from the newer end `to` (or the newest release, when open)
/// down to the older end `from` (or the end of the list, when open), both
/// included.
pub struct RangeCollect {
    from: Option<String>,
    to: Option<String>,
    collecting: bool,
    found_to: bool,
    found_from: bool,
    collected: Vec<Release>,
    stopped: bool,
}

pub open spec fn opt_view(o: Option<String>) -> Option<Seq<char>> {
    match o {
        Some(s) => Some(s@),
        None => None,
    }
}

impl RangeCollect {
    pub closed spec fn state(&self) -> RangeView {
        RangeView {
            collecting: self.collecting,
            found_to: self.found_to,
            found_from: self.found_from,
            collected: release_views(self.collected@),
            stopped: self.stopped,
        }
    }

    /// An end is only missing when it was given.
    pub closed spec fn wf(&self) -> bool {
        &&& !self.found_to ==> self.to is Some
        &&& !self.found_from ==> self.from is Some
    }

    pub closed spec fn from_end(&self) -> Option<Seq<char>> {
        opt_view(self.from)
    }

    pub closed spec fn to_end(&self) -> Option<Seq<char>> {
        opt_view(self.to)
    }

    /// A walk over the span from `from` to `to` that has seen nothing: an
    /// open newer end is found at once, and so is an open older end.
    pub fn new(from: Option<String>, to: Option<String>) -> (s: RangeCollect)
        ensures
            s.wf(),
            s.from_end() == opt_view(from),
            s.to_end() == opt_view(to),
            s.state() == (RangeView {
                collecting: to is None,
                found_to: to is None,
                found_from: from is None,
                collected: seq![],
                stopped: false,
            }),
    {
        let collecting = to.is_none();
        let found_from = from.is_none();
        let s = RangeCollect {
            from,
            to,
            collecting,
            found_to: collecting,
            found_from,
            collected: Vec::new(),
            stopped: false,
        };
        assert(release_views(s.collected@) =~= Seq::<(Seq<char>, Seq<char>)>::empty());
        s
    }

    fn is_end_of(tag: &str, end: &Option<String>) -> (b: bool)
        ensures
            b == is_end(tag@, opt_view(*end)),
    {
        match end {
            Some(v) => tag_matches(tag, v.as_str()),
            None => false,
        }
    }

    /// Walks one page of releases; whether another page should be fetched.
    /// An empty page ends the walk, as does reaching the older end.
    pub fn feed(&mut self, page: Vec<Release>) -> (more: bool)
        requires
            old(self).wf(),
        ensures
            final(self).wf(),
            final(self).from_end() == old(self).from_end(),
            final(self).to_end() == old(self).to_end(),
            final(self).state() == range_page(
                old(self).state(),
                release_views(page@),
                old(self).from_end(),
                old(self).to_end(),
            ),
            more == (page@.len() > 0 && !final(self).state().stopped),
    {
        let ghost pv = release_views(page@);
        let ghost start = self.state();
        let ghost from = self.from_end();
        let ghost to = self.to_end();
        let n = page.len();
        let mut page = page;
        let ghost mut taken: int = 0;
        while page.len() > 0 && !self.stopped
            invariant
                0 <= taken <= pv.len(),
                n == pv.len(),
                from == self.from_end(),
                to == self.to_end(),
                self.wf(),
                release_views(page@) == pv.skip(taken),
                range_page(start, pv, from, to) == range_page(self.state(), pv.skip(taken), from, to),
            decreases page@.len(),
        {
            assert(pv.skip(taken).len() == page@.len());
            assert(release_views(page@)[0] == pv[taken]);
            let r = page.remove(0);
            let ghost st = self.state();
            proof {
                assert(pv.skip(taken)[0] == r@);
                assert(pv.skip(taken).drop_first() == pv.skip(taken + 1));
            }
            let ghost before = release_views(self.collected@);
            let passes = !self.collecting && !Self::is_end_of(r.tag.as_str(), &self.to);
            if !passes {
                if !self.collecting {
                    self.collecting = true;
                    self.found_to = true;
                }
                let is_from = Self::is_end_of(r.tag.as_str(), &self.from);
                self.collected.push(r);
                assert(release_views(self.collected@) =~= before.push(r@));
                if is_from {
                    self.found_from = true;
                    self.stopped = true;
                }
            }
            proof {
                assert(self.state() == range_step(st, r@, from, to));
                taken = taken + 1;
            }
        }
        proof {
            if !self.stopped {
                assert(taken == pv.len());
                assert(pv.skip(taken).len() == 0);
            }
        }
        n > 0 && !self.stopped
    }

    /// The releases gathered, oldest first; or the end that was never found,
    /// the newer one first.
    pub fn finish(self) -> (r: Result<Vec<Release>, RangeError>)
        requires
            self.wf(),
        ensures
            !self.state().found_to ==> (r matches Err(RangeError::MissingTo(v)) && self.to_end()
                == Some(v@)),
            self.state().found_to && !self.state().found_from ==> (r matches Err(
                RangeError::MissingFrom(v),
            ) && self.from_end() == Some(v@)),
            self.state().found_to && self.state().found_from ==> (r matches Ok(rs) && release_views(
                rs@,
            ) == self.state().collected.reverse()),
    {
        if !self.found_to {
            return match self.to {
                Some(v) => Err(RangeError::MissingTo(v)),
                None => Err(RangeError::MissingTo(String::new())),
            };
        }
        if !self.found_from {
            return match self.from {
                Some(v) => Err(RangeError::MissingFrom(v)),
                None => Err(RangeError::MissingFrom(String::new())),
            };
        }
        let ghost c = release_views(self.collected@);
        let mut collected = self.collected;
        let mut out: Vec<Release> = Vec::new();
        while collected.len() > 0
            invariant
                release_views(out@) == c.skip(collected@.len() as int).reverse(),
                release_views(collected@) == c.take(collected@.len() as int),
                collected@.len() <= c.len(),
            decreases collected@.len(),
        {
            let ghost k = collected@.len();
            let x = collected.pop().unwrap();
            proof {
                assert(c.take(k as int).last() == x@);
                assert(c.take(k - 1) == c.take(k as int).drop_last());
                assert(release_views(collected@) =~= c.take(k - 1));
                assert(c.skip(k - 1) =~= seq![x@] + c.skip(k as int));
            }
            let ghost before = release_views(out@);
            out.push(x);
            proof {
                assert(release_views(out@) =~= before.push(x@));
                assert(c.skip(k - 1).reverse() =~= c.skip(k as int).reverse().push(x@));
            }
        }
        assert(c.skip(0) == c);
        Ok(out)
    }
}

/// The markdown of a span of releases: for each, a `#` heading with its tag,
/// its notes trimmed, and a rule.
pub open spec fn joined_notes(rs: Seq<(Seq<char>, Seq<char>)>) -> Seq<char>
    decreases rs.len(),
{
    if rs.len() == 0 {
        seq![]
    } else {
        let r = rs.last();
        joined_notes(rs.drop_last()) + "# "@ + r.0 + "\n\n"@ + trimmed(r.1) + "\n\n---\n\n"@
    }
}

/// Joins the notes of releases into one markdown text, in the given order.
pub fn release_notes_markdown(releases: &Vec<Release>) -> (markdown: String)
    ensures
        markdown@ == joined_notes(release_views(releases@)),
{
    let ghost rv = release_views(releases@);
    let mut markdown = String::new();
    let mut k: usize = 0;
    while k < releases.len()
        invariant
            k <= releases@.len(),
            rv == release_views(releases@),
            markdown@ == joined_notes(rv.take(k as int)),
        decreases releases@.len() - k,
    {
        assert(rv.take(k + 1).drop_last() == rv.take(k as int));
        assert(rv.take(k + 1).last() == releases@[k as int]@);
        push_str(&mut markdown, "# ");
        push_str(&mut markdown, releases[k].tag.as_str());
        push_str(&mut markdown, "\n\n");
        push_str(&mut markdown, trim(releases[k].body.as_str()));
        push_str(&mut markdown, "\n\n---\n\n");
        k = k + 1;
    }
    assert(rv.take(releases@.len() as int) == rv);
    markdown
}

/// Where a changelog address leads: a markdown file to fetch, a release
/// whose notes sit in a field of a forge's API answer, or nothing renderable.
#[derive(Debug, Clone, PartialEq, Eq)]
pub enum ChangelogSource {
    Markdown(String),
    ReleaseNotes { api: String, field: String },
    Link,
}

/// The view of a changelog source: 0 for markdown, 1 for release notes, 2
/// for a bare link, with the address and the field.
pub open spec fn source_view(c: ChangelogSource) -> (nat, Seq<char>, Seq<char>) {
    match c {
        ChangelogSource::Markdown(u) => (0, u@, seq![]),
        ChangelogSource::ReleaseNotes { api, field } => (1, api@, field@),
        ChangelogSource::Link => (2, seq![], seq![]),
    }
}

/// What a changelog address leads to: on GitHub, a `blob` page's file on
/// `raw.githubusercontent.com`, a release page's notes, or the latest
/// release's for the release list; on GitLab, a release page's notes; on any
/// host, a Forgejo or Gitea release page's notes; else a markdown file by its
/// name, or nothing.
pub open spec fn changelog_source_of(raw: Seq<char>, u: Option<UrlView>) -> (nat, Seq<char>, Seq<char>) {
    let markdown = crate::strings::ends_with(raw, ".md"@) || crate::strings::ends_with(
        raw,
        ".markdown"@,
    );
    let fallback = if markdown {
        (0nat, raw, Seq::<char>::empty())
    } else {
        (2nat, Seq::<char>::empty(), Seq::<char>::empty())
    };
    match u {
        None => fallback,
        Some((h, segs)) => {
            let host = match h {
                Some(x) => x,
                None => seq![],
            };
            let s = match segs {
                Some(x) => x,
                None => seq![],
            };
            if host == "github.com"@ && s.len() >= 4 && s[2] == "blob"@ {
                (
                    0,
                    "https://raw.githubusercontent.com/"@ + s[0] + "/"@ + s[1] + "/"@ + s[3] + "/"@
                        + slash_joined(s.skip(4)),
                    seq![],
                )
            } else if host == "github.com"@ && s.len() == 5 && s[2] == "releases"@ && s[3]
                == "tag"@ {
                (
                    1,
                    "https://api.github.com/repos/"@ + s[0] + "/"@ + s[1] + "/releases/tags/"@ + s[4],
                    "body"@,
                )
            } else if host == "github.com"@ && s.len() == 3 && s[2] == "releases"@ {
                (1, "https://api.github.com/repos/"@ + s[0] + "/"@ + s[1] + "/releases/latest"@, "body"@)
            } else if host == "gitlab.com"@ && s.len() == 5 && s[2] == "-"@ && s[3] == "releases"@ {
                (
                    1,
                    "https://gitlab.com/api/v4/projects/"@ + s[0] + "%2F"@ + s[1] + "/releases/"@ + s[4],
                    "description"@,
                )
            } else if s.len() == 5 && s[2] == "releases"@ && s[3] == "tag"@ {
                (
                    1,
                    "https://"@ + host + "/api/v1/repos/"@ + s[0] + "/"@ + s[1] + "/releases/tags/"@
                        + s[4],
                    "body"@,
                )
            } else {
                fallback
            }
        },
    }
}

fn texts_of(segs: &Option<Vec<String>>) -> (r: Vec<String>)
    ensures
        string_views(r@) == match segs {
            Some(x) => string_views(x@),
            None => seq![],
        },
{
    match segs {
        Some(x) => x.clone(),
        None => {
            let v: Vec<String> = Vec::new();
            assert(string_views(v@) =~= seq![]);
            v
        },
    }
}

/// Decides where a package's changelog address leads.
pub fn changelog_source(raw: &str) -> (c: ChangelogSource)
    ensures
        source_view(c) == changelog_source_of(raw@, parsed_url(raw@)),
{
    proof {
        reveal_strlit("");
    }
    let markdown = crate::strings::ends_with_text(raw, ".md") || crate::strings::ends_with_text(
        raw,
        ".markdown",
    );
    let fallback = if markdown {
        ChangelogSource::Markdown(raw.to_owned())
    } else {
        ChangelogSource::Link
    };
    let u = match parse_url(raw) {
        Some(u) => u,
        None => {
            return fallback;
        },
    };
    let host: String = match &u.host {
        Some(h) => h.clone(),
        None => String::new(),
    };
    let s = texts_of(&u.segments);
    let ghost sv = string_views(s@);
    let github = crate::text::str_eq(host.as_str(), "github.com");
    let gitlab = crate::text::str_eq(host.as_str(), "gitlab.com");
    let n = s.len();
    if github && n >= 4 && crate::text::str_eq(s[2].as_str(), "blob") {
        let mut r = String::new();
        push_str(&mut r, "https://raw.githubusercontent.com/");
        push_str(&mut r, s[0].as_str());
        push_str(&mut r, "/");
        push_str(&mut r, s[1].as_str());
        push_str(&mut r, "/");
        push_str(&mut r, s[3].as_str());
        push_str(&mut r, "/");
        push_slash_joined(&mut r, &s, 4);
        return ChangelogSource::Markdown(r);
    }
    let is_release_tag = n == 5 && crate::text::str_eq(s[2].as_str(), "releases")
        && crate::text::str_eq(s[3].as_str(), "tag");
    if github && is_release_tag {
        let mut api = String::new();
        push_str(&mut api, "https://api.github.com/repos/");
        push_str(&mut api, s[0].as_str());
        push_str(&mut api, "/");
        push_str(&mut api, s[1].as_str());
        push_str(&mut api, "/releases/tags/");
        push_str(&mut api, s[4].as_str());
        return ChangelogSource::ReleaseNotes { api, field: "body".to_owned() };
    }
    if github && n == 3 && crate::text::str_eq(s[2].as_str(), "releases") {
        let mut api = String::new();
        push_str(&mut api, "https://api.github.com/repos/");
        push_str(&mut api, s[0].as_str());
        push_str(&mut api, "/");
        push_str(&mut api, s[1].as_str());
        push_str(&mut api, "/releases/latest");
        return ChangelogSource::ReleaseNotes { api, field: "body".to_owned() };
    }
    if gitlab && n == 5 && crate::text::str_eq(s[2].as_str(), "-") && crate::text::str_eq(
        s[3].as_str(),
        "releases",
    ) {
        let mut api = String::new();
        push_str(&mut api, "https://gitlab.com/api/v4/projects/");
        push_str(&mut api, s[0].as_str());
        push_str(&mut api, "%2F");
        push_str(&mut api, s[1].as_str());
        push_str(&mut api, "/releases/");
        push_str(&mut api, s[4].as_str());
        return ChangelogSource::ReleaseNotes { api, field: "description".to_owned() };
    }
    if is_release_tag {
        let mut api = String::new();
        push_str(&mut api, "https://");
        push_str(&mut api, host.as_str());
        push_str(&mut api, "/api/v1/repos/");
        push_str(&mut api, s[0].as_str());
        push_str(&mut api, "/");
        push_str(&mut api, s[1].as_str());
        push_str(&mut api, "/releases/tags/");
        push_str(&mut api, s[4].as_str());
        return ChangelogSource::ReleaseNotes { api, field: "body".to_owned() };
    }
    fallback
}

/// A flake reference: as given when it names its flake, else an attribute of
/// nixpkgs.
pub open spec fn resolved_ref(raw: Seq<char>) -> Seq<char> {
    if raw.contains('#') {
        raw
    } else {
        "nixpkgs#"@ + raw
    }
}

/// Resolves a package argument to a flake reference.
pub fn resolve_ref(raw: &str) -> (r: String)
    ensures
        r@ == resolved_ref(raw@),
{
    let cs = chars_of(raw);
    let mut i: usize = 0;
    let mut found = false;
    while i < cs.len() && !found
        invariant
            i <= cs@.len(),
            cs@ == raw@,
            found ==> raw@.contains('#'),
            !found ==> forall|j: int| 0 <= j < i ==> raw@[j] != '#',
        decreases cs@.len() - i + (if found { 0int } else { 1int }),
    {
        if cs[i] == '#' {
            found = true;
            assert(raw@[i as int] == '#');
        } else {
            i = i + 1;
        }
    }
    if found {
        raw.to_owned()
    } else {
        let mut r = String::new();
        push_str(&mut r, "nixpkgs#");
        push_str(&mut r, raw);
        r
    }
}

/// Whether a version argument asks for the latest release, in any ASCII
/// case.
pub fn is_latest_version(v: &str) -> (b: bool)
    ensures
        b == is_latest(v@),
{
    let cs = chars_of(v);
    if cs.len() != 6 {
        return false;
    }
    let latest = chars_of("latest");
    proof {
        reveal_strlit("latest");
    }
    let mut i: usize = 0;
    while i < 6
        invariant
            i <= 6,
            cs@ == v@,
            cs@.len() == 6,
            latest@ == "latest"@,
            latest@.len() == 6,
            forall|j: int| 0 <= j < i ==> #[trigger] ascii_lower(v@[j]) == "latest"@[j],
        decreases 6 - i,
    {
        if ascii_lower_char(cs[i]) != latest[i] {
            return false;
        }
        i = i + 1;
    }
    true
}

/// The three lines of a box drawn round `text`, in bold magenta.
pub open spec fn boxed_lines(text: Seq<char>) -> Seq<Seq<char>> {
    let bar = Seq::new((text.len() + 2) as nat, |i: int| '\u{2500}');
    seq![
        "\u{1b}[1;35m\u{256d}"@ + bar + "\u{256e}\u{1b}[0m"@,
        "\u{1b}[1;35m\u{2502} "@ + text + " \u{2502}\u{1b}[0m"@,
        "\u{1b}[1;35m\u{2570}"@ + bar + "\u{256f}\u{1b}[0m"@,
    ]
}

/// Draws a box round `text`.
pub fn boxed(text: &str) -> (lines: Vec<String>)
    requires
        text@.len() + 2 <= usize::MAX,
    ensures
        lines@.len() == 3,
        forall|i: int| 0 <= i < 3 ==> #[trigger] lines@[i]@ == boxed_lines(text@)[i],
{
    let n = text.unicode_len() + 2;
    let mut bar = String::new();
    let mut k: usize = 0;
    while k < n
        invariant
            k <= n,
            bar@ == Seq::new(k as nat, |i: int| '\u{2500}'),
        decreases n - k,
    {
        bar.push('\u{2500}');
        k = k + 1;
        assert(bar@ =~= Seq::new(k as nat, |i: int| '\u{2500}'));
    }
    let mut top = String::new();
    push_str(&mut top, "\u{1b}[1;35m\u{256d}");
    push_str(&mut top, bar.as_str());
    push_str(&mut top, "\u{256e}\u{1b}[0m");
    let mut middle = String::new();
    push_str(&mut middle, "\u{1b}[1;35m\u{2502} ");
    push_str(&mut middle, text);
    push_str(&mut middle, " \u{2502}\u{1b}[0m");
    let mut bottom = String::new();
    push_str(&mut bottom, "\u{1b}[1;35m\u{2570}");
    push_str(&mut bottom, bar.as_str());
    push_str(&mut bottom, "\u{256f}\u{1b}[0m");
    let mut lines: Vec<String> = Vec::new();
    lines.push(top);
    lines.push(middle);
    lines.push(bottom);
    lines
}

/// An access token as Nix keeps one for a host, without what comes before
/// its first `:`, if it has one.
pub open spec fn token_of_entry(entry: Seq<char>) -> Seq<char> {
    match crate::capture::first_index_of(entry, ':') {
        Some(i) => entry.skip(i + 1),
        None => entry,
    }
}

/// The token of an access-token entry from Nix's configuration: the text
/// after its first `:`, or all of it.
pub fn token_from_entry(entry: &str) -> (t: String)
    ensures
        t@ == token_of_entry(entry@),
{
    match crate::capture::find_char(entry, ':') {
        Some(i) => {
            let n = crate::text::chars_of(entry).len();
            entry.substring_char(i + 1, n).to_owned()
        },
        None => entry.to_owned(),
    }
}

} // verus!
