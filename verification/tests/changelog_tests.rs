use pkgtools::changelog::{
    next_lookup, Lookup, heading_names, normalize_version, release_tag_from_url, render, repo_ref_from_url,
    slice_changelog, tag_matches, Release, ReleaseScan,
};
use pkgtools::release_range::{
    self, first_matching, parse_version_spec, release_notes_markdown, RangeCollect, RangeError,
    VersionSpec,
};

use pkgtools::release_range::{changelog_source, ChangelogSource};
use pkgtools::release_range::{boxed, is_latest_version, resolve_ref, token_from_entry};

#[test]
fn tags_match_across_the_usual_prefixes() {
    for (tag, wanted) in [
        ("1.8.2", "1.8.2"),
        ("v1.8.2", "1.8.2"),
        ("jq-1.8.2", "1.8.2"),
        ("release_2024.1", "2024.1"),
        ("cli/v1.8.2", "1.8.2"),
        ("v1.8.2", "v1.8.2"),
    ] {
        assert!(tag_matches(tag, wanted), "{tag} should match {wanted}");
    }
}

#[test]
fn a_longer_version_is_not_a_match() {
    for (tag, wanted) in [
        ("11.2.3", "1.2.3"),
        ("1.2.30", "1.2.3"),
        ("v2.0.0", "1.0.0"),
        ("vim-9.1", "9.2"),
    ] {
        assert!(!tag_matches(tag, wanted), "{tag} must not match {wanted}");
    }
}

#[test]
fn a_leading_v_is_only_stripped_from_a_version() {
    assert_eq!(normalize_version("v1.2.3"), "1.2.3");
    assert_eq!(normalize_version("vim-9.1"), "vim-9.1");
    assert_eq!(normalize_version("1.2.3"), "1.2.3");
}

#[test]
fn release_urls_yield_their_tag() {
    assert_eq!(
        release_tag_from_url("https://github.com/jqlang/jq/releases/tag/jq-1.8.2").as_deref(),
        Some("jq-1.8.2")
    );
    assert_eq!(
        release_tag_from_url("https://gitlab.com/o/r/-/releases/v1.2.3").as_deref(),
        Some("v1.2.3")
    );
    assert_eq!(
        release_tag_from_url("https://github.com/helix-editor/helix/blob/25.07.1/CHANGELOG.md"),
        None
    );
}

const CHANGELOG: &str = "\
# Changelog

## 11.0.0
newest, unrelated

## 1.2.0
- added a thing
- fixed another

## 1.1.0
- an intermediate release

## 1.0.0
- the version already installed

## 0.9.0
- ancient history
";

#[test]
fn an_upgrade_spans_the_versions_it_installs() {
    let slice = slice_changelog(CHANGELOG, "1.0.0", "1.2.0").expect("1.2.0 is in the file");
    assert!(slice.starts_with("## 1.2.0"), "{slice}");
    assert!(slice.contains("an intermediate release"), "{slice}");
    assert!(!slice.contains("already installed"), "{slice}");
    assert!(!slice.contains("newest, unrelated"), "{slice}");
}

#[test]
fn an_install_shows_only_its_own_section() {
    let slice = slice_changelog(CHANGELOG, "", "1.1.0").expect("1.1.0 is in the file");
    assert_eq!(slice, "## 1.1.0\n- an intermediate release\n");
}

#[test]
fn a_heading_matches_only_its_own_version() {
    assert!(heading_names("## 1.0.0", "1.0.0"));
    assert!(heading_names("## v1.0.0 — codename", "1.0.0"));
    assert!(!heading_names("## 11.0.0", "1.0.0"));
    assert!(!heading_names("## 1.0.0-rc1", "1.0.0"));
    assert!(!heading_names("released 1.0.0", "1.0.0"), "not a heading");
}

#[test]
fn an_unknown_version_slices_nothing() {
    assert!(slice_changelog(CHANGELOG, "1.0.0", "7.7.7").is_none());
}

#[test]
fn a_tag_matches_itself() {
    for tag in ["1.0", "v2.3.4", "jq-1.8.2", "release_2024.1"] {
        assert!(tag_matches(tag, tag), "{tag}");
    }
}

#[test]
fn repository_addresses_are_read_from_urls() {
    let r = repo_ref_from_url("https://github.com/jqlang/jq").expect("a repository");
    assert_eq!(r.owner, "jqlang");
    assert_eq!(r.repo, "jq");
    assert_eq!(r.host, "github.com");
}

fn release(tag: &str, body: &str) -> Release {
    Release { tag: tag.to_owned(), body: body.to_owned() }
}

#[test]
fn an_upgrade_collects_the_releases_between() {
    let mut scan = ReleaseScan::new();
    let page = vec![
        release("v1.3.0", "newer"),
        release("v1.2.0", "two"),
        release("v1.1.0", "one"),
        release("v1.0.0", "installed"),
    ];
    let more = scan.feed(page, "1.0.0", "1.2.0");
    assert!(!more);
    let got = scan.finish().expect("releases");
    let tags: Vec<&str> = got.iter().map(|r| r.tag.as_str()).collect();
    assert_eq!(tags, vec!["v1.1.0", "v1.2.0"]);
}

#[test]
fn rendered_releases_carry_a_heading_each() {
    let md = render(&vec![release("v1", " notes "), release("v2", "")]);
    assert_eq!(md, "# v1\n\nnotes\n\n# v2\n\n_No release notes._\n\n");
}

#[test]
fn a_span_reads_both_ends() {
    assert_eq!(
        parse_version_spec("1.0..2.0"),
        VersionSpec::Range { from: Some("1.0".to_owned()), to: Some("2.0".to_owned()) }
    );
    assert_eq!(
        parse_version_spec(" 1.0 .. LATEST"),
        VersionSpec::Range { from: Some("1.0".to_owned()), to: None }
    );
    assert_eq!(parse_version_spec("..").clone(), VersionSpec::Range { from: None, to: None });
    assert_eq!(parse_version_spec(" 3.1 "), VersionSpec::Single("3.1".to_owned()));
}

#[test]
fn a_release_is_found_by_its_version() {
    let page = vec![release("v2.0", ""), release("1.5", ""), release("V1.5", "")];
    assert_eq!(first_matching(&page, "1.5"), Some(1));
    assert_eq!(first_matching(&page, "3.0"), None);
    assert!(release_range::tag_matches("v1.2", "V1.2"));
    assert!(!release_range::tag_matches("jq-1.2", "1.2"));
}

#[test]
fn a_span_of_releases_is_collected_oldest_first() {
    let mut range = RangeCollect::new(Some("1.0".to_owned()), Some("1.2".to_owned()));
    let more = range.feed(vec![
        release("v1.3", ""),
        release("v1.2", ""),
        release("v1.1", ""),
        release("v1.0", ""),
        release("v0.9", ""),
    ]);
    assert!(!more);
    let got = range.finish().expect("both ends found");
    let tags: Vec<&str> = got.iter().map(|r| r.tag.as_str()).collect();
    assert_eq!(tags, vec!["v1.0", "v1.1", "v1.2"]);
}

#[test]
fn a_missing_end_is_reported() {
    let mut range = RangeCollect::new(Some("0.1".to_owned()), Some("9.9".to_owned()));
    range.feed(vec![release("v1.0", "")]);
    range.feed(vec![]);
    assert_eq!(range.finish().unwrap_err(), RangeError::MissingTo("9.9".to_owned()));

    let mut range = RangeCollect::new(Some("0.1".to_owned()), None);
    range.feed(vec![release("v1.0", "")]);
    assert_eq!(range.finish().unwrap_err(), RangeError::MissingFrom("0.1".to_owned()));
}

#[test]
fn joined_notes_end_each_release_with_a_rule() {
    let md = release_notes_markdown(&vec![release("v1", " a \n")]);
    assert_eq!(md, "# v1\n\na\n\n---\n\n");
}

#[test]
fn changelog_addresses_lead_to_their_source() {
    assert_eq!(
        changelog_source("https://github.com/o/r/blob/main/docs/CHANGELOG.md"),
        ChangelogSource::Markdown("https://raw.githubusercontent.com/o/r/main/docs/CHANGELOG.md".to_owned())
    );
    assert_eq!(
        changelog_source("https://github.com/o/r/releases/tag/v1.2"),
        ChangelogSource::ReleaseNotes {
            api: "https://api.github.com/repos/o/r/releases/tags/v1.2".to_owned(),
            field: "body".to_owned()
        }
    );
    assert_eq!(
        changelog_source("https://github.com/o/r/releases"),
        ChangelogSource::ReleaseNotes {
            api: "https://api.github.com/repos/o/r/releases/latest".to_owned(),
            field: "body".to_owned()
        }
    );
    assert_eq!(
        changelog_source("https://gitlab.com/o/r/-/releases/v2"),
        ChangelogSource::ReleaseNotes {
            api: "https://gitlab.com/api/v4/projects/o%2Fr/releases/v2".to_owned(),
            field: "description".to_owned()
        }
    );
    assert_eq!(
        changelog_source("https://codeberg.org/o/r/releases/tag/1.0"),
        ChangelogSource::ReleaseNotes {
            api: "https://codeberg.org/api/v1/repos/o/r/releases/tags/1.0".to_owned(),
            field: "body".to_owned()
        }
    );
    assert_eq!(
        changelog_source("https://example.org/NEWS.md"),
        ChangelogSource::Markdown("https://example.org/NEWS.md".to_owned())
    );
    assert_eq!(changelog_source("https://example.org/news"), ChangelogSource::Link);
}

#[test]
fn package_arguments_resolve_to_flake_references() {
    assert_eq!(resolve_ref("k9s"), "nixpkgs#k9s");
    assert_eq!(resolve_ref(".#tool"), ".#tool");
    assert!(is_latest_version("Latest"));
    assert!(!is_latest_version("latest1"));
    assert_eq!(
        boxed("ab"),
        vec![
            "\u{1b}[1;35m╭────╮\u{1b}[0m".to_owned(),
            "\u{1b}[1;35m│ ab │\u{1b}[0m".to_owned(),
            "\u{1b}[1;35m╰────╯\u{1b}[0m".to_owned(),
        ]
    );
}

fn lookups(has_repo: bool, fresh_install: bool, has_tag: bool) -> Vec<Lookup> {
    let mut tried = Vec::new();
    let mut failed = None;
    while let Some(lookup) = next_lookup(failed, has_repo, fresh_install, has_tag) {
        tried.push(lookup);
        failed = Some(lookup);
    }
    tried
}

#[test]
fn lookups_fall_back_in_order_down_to_the_changelog_file() {
    assert_eq!(
        lookups(true, true, true),
        vec![
            Lookup::PinnedRelease,
            Lookup::ReleaseSpan,
            Lookup::RecordedRelease,
            Lookup::ChangelogFile
        ]
    );
    assert_eq!(
        lookups(true, false, true),
        vec![Lookup::ReleaseSpan, Lookup::RecordedRelease, Lookup::ChangelogFile]
    );
    assert_eq!(lookups(true, true, false), vec![Lookup::ReleaseSpan, Lookup::ChangelogFile]);
    assert_eq!(lookups(false, true, true), vec![Lookup::ChangelogFile]);
}

#[test]
fn an_access_token_drops_what_precedes_its_first_colon() {
    assert_eq!(token_from_entry("PAT:ghp_abc"), "ghp_abc");
    assert_eq!(token_from_entry("a:b:c"), "b:c");
    assert_eq!(token_from_entry("ghp_abc"), "ghp_abc");
    assert_eq!(token_from_entry(":"), "");
}
