//! Nix store paths: the package name and version a path encodes.
//!
//! The grammar is `<prefix><32 letters or digits>-<name>[-<version>]`, with
//! the prefix `/nix/store/` or `/tmp/<dir>/`, found anywhere in the path and
//! running to its end; the name is the shortest that leaves a version that
//! starts with a digit, or the whole rest where there is none.

use vstd::prelude::*;

use crate::strings::{is_ascii_alphanumeric, is_ascii_digit, starts_with};
use crate::text::chars_of;

verus! {

/// Whether `s[from..]` holds no newline.
pub open spec fn no_newline_from(s: Seq<char>, from: int) -> bool {
    forall|k: int| from <= k < s.len() ==> s[k] != '\n'
}

/// Whether `s[from..to]` holds no newline.
pub open spec fn no_newline_in(s: Seq<char>, from: int, to: int) -> bool {
    forall|k: int| from <= k < to ==> s[k] != '\n'
}

/// The split of the tail from `t` into a name of `len` characters or more and
/// an optional version: the first length at which a `-` and a digit follow
/// and the rest has no newline, or the whole tail when no such length comes
/// before it; the name itself has no newline.
pub open spec fn tail_split(s: Seq<char>, t: int, len: int) -> Option<(int, bool)>
    decreases s.len() - t - len + 1,
{
    if len < 1 || t + len > s.len() || !no_newline_in(s, t, t + len) {
        None
    } else if t + len + 1 < s.len() && s[t + len] == '-' && is_ascii_digit(s[t + len + 1])
        && no_newline_from(s, t + len + 2) {
        Some((len, true))
    } else if t + len == s.len() {
        Some((len, false))
    } else {
        tail_split(s, t, len + 1)
    }
}

/// Whether 32 letters or digits and a `-` stand at `at`.
pub open spec fn hash_at(s: Seq<char>, at: int) -> bool {
    &&& 0 <= at
    &&& at + 33 <= s.len()
    &&& forall|k: int| at <= k < at + 32 ==> is_ascii_alphanumeric(s[k])
    &&& s[at + 32] == '-'
}

/// The tail of a match whose prefix ends at `p`: where the name starts and
/// how it splits.
pub open spec fn after_prefix(s: Seq<char>, p: int) -> Option<(int, int, bool)> {
    if hash_at(s, p) {
        match tail_split(s, p + 33, 1) {
            Some((len, v)) => Some((p + 33, len, v)),
            None => None,
        }
    } else {
        None
    }
}

/// A `/tmp/<dir>/` prefix at `at` with a directory of `k` characters or more:
/// the shortest directory that the rest of the match accepts.
pub open spec fn tmp_match(s: Seq<char>, at: int, k: int) -> Option<(int, int, bool)>
    decreases s.len() - at - k,
{
    if k < 1 || at + 5 + k >= s.len() || !no_newline_in(s, at + 5, at + 5 + k) {
        None
    } else if s[at + 5 + k] == '/' && after_prefix(s, at + 5 + k + 1) is Some {
        after_prefix(s, at + 5 + k + 1)
    } else {
        tmp_match(s, at, k + 1)
    }
}

/// A match starting at `at`: `/nix/store/` first, then `/tmp/<dir>/`.
pub open spec fn match_at(s: Seq<char>, at: int) -> Option<(int, int, bool)> {
    let nix = if starts_with(s.skip(at), "/nix/store/"@) {
        after_prefix(s, at + 11)
    } else {
        None
    };
    if nix is Some {
        nix
    } else if starts_with(s.skip(at), "/tmp/"@) {
        tmp_match(s, at, 1)
    } else {
        None
    }
}

/// The leftmost match at or after `at`: where the name starts, its length,
/// and whether a version follows.
pub open spec fn first_match(s: Seq<char>, at: int) -> Option<(int, int, bool)>
    decreases s.len() - at + 1,
{
    if at < 0 || at > s.len() {
        None
    } else if match_at(s, at) is Some {
        match_at(s, at)
    } else {
        first_match(s, at + 1)
    }
}

/// The name and version a store path encodes, if it is one.
pub open spec fn store_path_parts(s: Seq<char>) -> Option<(Seq<char>, Option<Seq<char>>)> {
    match first_match(s, 0) {
        None => None,
        Some((start, len, has_version)) => Some(
            (
                s.subrange(start, start + len),
                if has_version {
                    Some(s.skip(start + len + 1))
                } else {
                    None
                },
            ),
        ),
    }
}

/// Why a path is not a store path.
#[derive(Debug, Clone, Copy, PartialEq, Eq, Structural)]
pub enum StorePathError {
    /// The path does not match the store path format.
    NoMatch,
}

fn no_newline_range(cs: &Vec<char>, from: usize, to: usize) -> (b: bool)
    requires
        from <= to <= cs@.len(),
    ensures
        b == no_newline_in(cs@, from as int, to as int),
{
    let mut k = from;
    while k < to
        invariant
            from <= k <= to <= cs@.len(),
            no_newline_in(cs@, from as int, k as int),
        decreases to - k,
    {
        if cs[k] == '\n' {
            return false;
        }
        k = k + 1;
    }
    true
}

fn hash_at_exec(cs: &Vec<char>, at: usize) -> (b: bool)
    ensures
        b == hash_at(cs@, at as int),
{
    let n = cs.len();
    if at > n || n - at < 33 {
        return false;
    }
    let mut k: usize = 0;
    while k < 32
        invariant
            at + 33 <= n,
            n == cs@.len(),
            k <= 32,
            forall|j: int| at <= j < at + k ==> is_ascii_alphanumeric(cs@[j]),
        decreases 32 - k,
    {
        if !crate::strings::char_is_ascii_alphanumeric(cs[at + k]) {
            return false;
        }
        k = k + 1;
    }
    cs[at + 32] == '-'
}

fn tail_split_exec(cs: &Vec<char>, t: usize) -> (r: Option<(usize, bool)>)
    requires
        cs@.len() + 64 <= usize::MAX,
        t <= cs@.len(),
    ensures
        match r {
            Some((len, v)) => tail_split(cs@, t as int, 1) == Some((len as int, v)) && t + len <= cs@.len()
                && (v ==> t + len + 1 < cs@.len()),
            None => tail_split(cs@, t as int, 1) is None,
        },
{
    let n = cs.len();
    let mut len: usize = 1;
    while t + len <= n
        invariant
            cs@.len() + 64 <= usize::MAX,
            n == cs@.len(),
            t <= n,
            1 <= len,
            t + len <= n + 1,
            tail_split(cs@, t as int, 1) == tail_split(cs@, t as int, len as int),
            no_newline_in(cs@, t as int, t + len - 1),
        decreases n + 1 - t - len,
    {
        if cs[t + len - 1] == '\n' {
            assert(!no_newline_in(cs@, t as int, t + len));
            return None;
        }
        assert(no_newline_in(cs@, t as int, t + len));
        if t + len + 1 < n && cs[t + len] == '-' && crate::strings::char_is_ascii_digit(cs[t + len + 1])
            && no_newline_range(cs, t + len + 2, n) {
            return Some((len, true));
        }
        if t + len == n {
            return Some((len, false));
        }
        len = len + 1;
    }
    None
}

fn after_prefix_exec(cs: &Vec<char>, p: usize) -> (r: Option<(usize, usize, bool)>)
    requires
        cs@.len() + 64 <= usize::MAX,
        p <= cs@.len() + 12,
    ensures
        match r {
            Some((a, b, c)) => after_prefix(cs@, p as int) == Some((a as int, b as int, c)) && a + b
                <= cs@.len() && (c ==> a + b + 1 < cs@.len()),
            None => after_prefix(cs@, p as int) is None,
        },
{
    if !hash_at_exec(cs, p) {
        return None;
    }
    match tail_split_exec(cs, p + 33) {
        Some((len, v)) => Some((p + 33, len, v)),
        None => None,
    }
}

fn tmp_match_exec(cs: &Vec<char>, at: usize) -> (r: Option<(usize, usize, bool)>)
    requires
        cs@.len() + 64 <= usize::MAX,
        at <= cs@.len(),
    ensures
        match r {
            Some((a, b, c)) => tmp_match(cs@, at as int, 1) == Some((a as int, b as int, c)) && a + b
                <= cs@.len() && (c ==> a + b + 1 < cs@.len()),
            None => tmp_match(cs@, at as int, 1) is None,
        },
{
    let n = cs.len();
    let mut k: usize = 1;
    while at + 5 + k < n
        invariant
            cs@.len() + 64 <= usize::MAX,
            n == cs@.len(),
            at <= n,
            1 <= k,
            k == 1 || at + 5 + k <= n,
            tmp_match(cs@, at as int, 1) == tmp_match(cs@, at as int, k as int),
            no_newline_in(cs@, at + 5, at + 5 + k - 1),
        decreases n - at - k,
    {
        if cs[at + 5 + k - 1] == '\n' {
            assert(!no_newline_in(cs@, at + 5, at + 5 + k));
            return None;
        }
        assert(no_newline_in(cs@, at + 5, at + 5 + k));
        if cs[at + 5 + k] == '/' {
            match after_prefix_exec(cs, at + 5 + k + 1) {
                Some(m) => {
                    return Some(m);
                },
                None => {},
            }
        }
        k = k + 1;
    }
    None
}

fn starts_at(cs: &Vec<char>, at: usize, p: &str) -> (b: bool)
    requires
        at <= cs@.len(),
    ensures
        b == starts_with(cs@.skip(at as int), p@),
{
    let pc = chars_of(p);
    let b = crate::strings::occurs_at_exec(cs, &pc, at);
    proof {
        if pc@.len() <= cs@.len() - at {
            assert(cs@.skip(at as int).take(pc@.len() as int) =~= cs@.subrange(at as int, at + pc@.len()));
        }
    }
    b
}

fn match_at_exec(cs: &Vec<char>, at: usize) -> (r: Option<(usize, usize, bool)>)
    requires
        cs@.len() + 64 <= usize::MAX,
        at <= cs@.len(),
    ensures
        match r {
            Some((a, b, c)) => match_at(cs@, at as int) == Some((a as int, b as int, c)) && a + b <= cs@.len()
                && (c ==> a + b + 1 < cs@.len()),
            None => match_at(cs@, at as int) is None,
        },
{
    proof {
        reveal_strlit("/nix/store/");
        reveal_strlit("/tmp/");
    }
    if starts_at(cs, at, "/nix/store/") {
        match after_prefix_exec(cs, at + 11) {
            Some(m) => {
                return Some(m);
            },
            None => {},
        }
    }
    if starts_at(cs, at, "/tmp/") {
        tmp_match_exec(cs, at)
    } else {
        None
    }
}

/// Parses a Nix store path into its package name and version.
pub fn parse_store_path(path: &str) -> (r: Result<(String, Option<String>), StorePathError>)
    requires
        path@.len() + 64 <= usize::MAX,
    ensures
        match r {
            Ok((name, version)) => store_path_parts(path@) == Some(
                (
                    name@,
                    match version {
                        Some(v) => Some(v@),
                        None => None,
                    },
                ),
            ),
            Err(_) => store_path_parts(path@) is None,
        },
{
    let cs = chars_of(path);
    let n = cs.len();
    let mut at: usize = 0;
    while at <= n
        invariant
            cs@.len() + 64 <= usize::MAX,
            cs@ == path@,
            n == cs@.len(),
            at <= n + 1,
            first_match(cs@, 0) == first_match(cs@, at as int),
        decreases n + 1 - at,
    {
        match match_at_exec(&cs, at) {
            Some((start, len, has_version)) => {
                assert(first_match(cs@, at as int) == match_at(cs@, at as int));
                let name = path.substring_char(start, start + len);
                let version = if has_version {
                    Some(path.substring_char(start + len + 1, n).to_owned())
                } else {
                    None
                };
                return Ok((name.to_owned(), version));
            },
            None => {},
        }
        assert(first_match(cs@, at as int) == first_match(cs@, at + 1));
        at = at + 1;
    }
    proof {
        assert(first_match(cs@, n + 1) is None);
    }
    Err(StorePathError::NoMatch)
}

} // verus!
