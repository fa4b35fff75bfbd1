use pkgtools::closure::{
    compare_versions, determine_change_status_from_unique, diff_snapshots, file_name,
    format_versions_with_counts, parse_paths, ChangeStatus, Snapshot, VersionWithCount,
};
use pkgtools::statusline::{
    display_path, format_lines, gitdir_of, parse_git_status, reset_label, reset_time_format,
};
use pkgtools::storepath::parse_store_path;
use pkgtools::text::{parse_u32_text, Order};

use pkgtools::style::should_style;
use pkgtools::diff::write_size_diff;
use pkgtools::style::Color;
use pkgtools::closure::{path_is_readable, system_package_names};
use pkgtools::package_diff::{package_diff_lines, parse_store_paths};
use pkgtools::diff::versions_fit;
use pkgtools::version::Version;

fn counted(v: &str, count: usize) -> VersionWithCount {
    VersionWithCount { version: v.to_owned(), count }
}

#[test]
fn closure_versions_compare_by_parts() {
    assert_eq!(compare_versions("1.10", "1.9"), Order::Greater);
    assert_eq!(compare_versions("1.0", "1.0"), Order::Equal);
    assert_eq!(compare_versions("1.0a", "1.0b"), Order::Less);
    assert_eq!(compare_versions("2", "10"), Order::Less);
}

#[test]
fn change_status_from_unique_versions() {
    let s = |v: &[&str]| v.iter().map(|x| x.to_string()).collect::<Vec<_>>();
    assert_eq!(
        determine_change_status_from_unique(&s(&["1.0"]), &s(&["2.0"]), false),
        ChangeStatus::Upgraded
    );
    assert_eq!(
        determine_change_status_from_unique(&s(&["2.0"]), &s(&["1.0"]), false),
        ChangeStatus::Downgraded
    );
    assert_eq!(
        determine_change_status_from_unique(&s(&["1.0", "3.0"]), &s(&["2.0"]), false),
        ChangeStatus::UpgradeDowngrade
    );
    assert_eq!(
        determine_change_status_from_unique(&s(&[]), &s(&["2.0"]), true),
        ChangeStatus::UpgradeDowngrade
    );
}

#[test]
fn version_counts_are_listed_with_a_limit() {
    assert_eq!(format_versions_with_counts(&[counted("1.0", 1)], false), "1.0");
    assert_eq!(format_versions_with_counts(&[counted("1.0", 3)], false), "1.0 ×3");
    assert_eq!(
        format_versions_with_counts(&[counted("1", 1), counted("2", 1), counted("3", 1)], false),
        "1, 2, <others>"
    );
    assert_eq!(format_versions_with_counts(&[counted("1", 1)], true), "1, <others>");
    assert_eq!(format_versions_with_counts(&[], true), "<others>");
}

#[test]
fn file_names_are_the_last_component() {
    assert_eq!(file_name("/nix/store/abc-foo-1.0"), Some("abc-foo-1.0"));
    assert_eq!(file_name("/nix/store/"), Some("store"));
    assert_eq!(file_name("/"), None);
}

#[test]
fn store_paths_name_their_package() {
    assert_eq!(
        parse_store_path("/nix/store/aaaaaaaaaaaaaaaaaaaaaaaaaaaaaaaa-foo-1.0").unwrap(),
        ("foo".to_owned(), Some("1.0".to_owned()))
    );
    assert_eq!(
        parse_store_path("/nix/store/aaaaaaaaaaaaaaaaaaaaaaaaaaaaaaaa-hello-world").unwrap(),
        ("hello-world".to_owned(), None)
    );
    assert!(parse_store_path("/usr/bin/env").is_err());
}

#[test]
fn snapshots_without_changes_report_none() {
    let snap = Snapshot {
        system_path: "/nix/store/x-system".to_owned(),
        packages: vec![("foo".to_owned(), vec![("1.0".to_owned(), 1)])],
        system_packages: vec![],
    };
    let lines = diff_snapshots(&snap, &snap);
    assert!(lines.iter().any(|l| l == "No changes"), "{lines:?}");
}

#[test]
fn an_upgrade_is_listed_as_changed() {
    let old = Snapshot {
        system_path: "/old".to_owned(),
        packages: vec![("foo".to_owned(), vec![("1.0".to_owned(), 1)])],
        system_packages: vec!["foo".to_owned()],
    };
    let new = Snapshot {
        system_path: "/new".to_owned(),
        packages: vec![("foo".to_owned(), vec![("2.0".to_owned(), 1)])],
        system_packages: vec!["foo".to_owned()],
    };
    let lines = diff_snapshots(&old, &new);
    assert_eq!(lines[0], "<<< /old");
    assert_eq!(lines[1], ">>> /new");
    assert!(lines.iter().any(|l| l == "CHANGED"), "{lines:?}");
    assert!(lines.iter().any(|l| l.starts_with("[U*] foo") && l.ends_with("1.0 -> 2.0")), "{lines:?}");
}

#[test]
fn closure_paths_are_counted_by_version() {
    let paths = vec![
        "/nix/store/aaaaaaaaaaaaaaaaaaaaaaaaaaaaaaaa-foo-1.0".to_owned(),
        "/nix/store/bbbbbbbbbbbbbbbbbbbbbbbbbbbbbbbb-foo-1.0".to_owned(),
        "/nix/store/cccccccccccccccccccccccccccccccc-bar-2.0".to_owned(),
    ];
    let parsed = parse_paths(&paths);
    assert_eq!(parsed.len(), 2);
    assert_eq!(parsed[0], ("foo".to_owned(), vec![("1.0".to_owned(), 2)]));
}

#[test]
fn git_status_is_parsed() {
    let out = "## main...origin/main [ahead 2, behind 1]\nM  a.rs\n M b.rs\n?? c.rs\nUU d.rs\n";
    let status = parse_git_status(out);
    assert_eq!(status.branch.as_deref(), Some("main"));
    assert_eq!((status.ahead, status.behind), (2, 1));
    assert_eq!(status.untracked, 1);
    assert_eq!(status.conflicts, 1);
}

#[test]
fn home_is_shortened() {
    assert_eq!(display_path("/home/u/src", "/home/u"), "~/src");
    assert_eq!(display_path("/etc", "/home/u"), "/etc");
    assert_eq!(display_path("/etc", ""), "/etc");
}

#[test]
fn line_counts_are_coloured() {
    assert_eq!(format_lines(None, None), None);
    assert_eq!(
        format_lines(Some(3), Some(2)).as_deref(),
        Some("\u{1b}[32m+3\u{1b}[0m \u{1b}[31m-2\u{1b}[0m")
    );
    assert_eq!(format_lines(Some(0), Some(0)), None);
}

#[test]
fn gitdir_files_point_to_the_repository() {
    assert_eq!(gitdir_of("gitdir: /repo/.git/worktrees/x\n"), Some("/repo/.git/worktrees/x"));
    assert_eq!(gitdir_of("nonsense"), None);
}

#[test]
fn a_passed_reset_reads_now() {
    assert_eq!(reset_label(10, 20, Some("12:00")), "\u{1b}[32mnow\u{1b}[0m");
    assert_eq!(reset_label(30, 20, Some("12:00")), "\u{1b}[36m12:00\u{1b}[0m");
    assert_eq!(reset_label(30, 20, None), "\u{1b}[36m?\u{1b}[0m");
    assert_eq!(reset_time_format(true), "+%H:%M");
    assert_eq!(reset_time_format(false), "+%a %H:%M");
}

#[test]
fn numbers_parse_like_str_parse() {
    assert_eq!(parse_u32_text("42"), Some(42));
    assert_eq!(parse_u32_text("+7"), Some(7));
    assert_eq!(parse_u32_text("4294967295"), Some(u32::MAX));
    assert_eq!(parse_u32_text("4294967296"), None);
    assert_eq!(parse_u32_text("-1"), None);
    assert_eq!(parse_u32_text(""), None);
}

#[test]
fn colour_follows_the_environment() {
    assert!(!should_style(Some("1"), None, Some("1"), true));
    assert!(should_style(Some(""), None, None, true));
    assert!(!should_style(None, Some("0"), Some("1"), true));
    assert!(should_style(None, None, Some("1"), false));
    assert!(!should_style(None, None, Some("0"), false));
    assert!(should_style(None, None, None, true));
}

#[test]
fn size_diffs_show_both_sizes_and_the_change() {
    let lines = write_size_diff(1024, 3072);
    assert_eq!(lines.len(), 2);
    assert_eq!(lines[0][0].text, "SIZE");
    assert!(lines[0][0].style.bold);
    assert_ne!(lines[0][2].text, "1024");
    assert!(lines[0][2].text.contains("KiB"), "{}", lines[0][2].text);
    assert_eq!(lines[0][2].style.color, Color::Red);
    assert_eq!(lines[1][2].style.color, Color::Green);
    let shrink = write_size_diff(3072, 1024);
    assert_eq!(shrink[1][2].style.color, Color::Red);
}

#[test]
fn closure_paths_are_checked_before_reading() {
    assert!(path_is_readable("/nix/store/aaaaaaaaaaaaaaaaaaaaaaaaaaaaaaaa-foo-1.0"));
    assert!(path_is_readable("/"));
    // A multi-byte character right at the hash boundary cannot be split there.
    assert!(!path_is_readable("/x/aaaaaaaaaaaaaaaaaaaaaaaaaaaaaaa€-foo"));
}

#[test]
fn store_paths_are_read_into_packages() {
    let paths = vec![
        "/nix/store/aaaaaaaaaaaaaaaaaaaaaaaaaaaaaaaa-foo-1.0".to_owned(),
        "/not/a/store/path".to_owned(),
    ];
    assert_eq!(parse_store_paths(&paths), vec![("foo".to_owned(), Some("1.0".to_owned()))]);
    let new = vec!["/nix/store/bbbbbbbbbbbbbbbbbbbbbbbbbbbbbbbb-foo-2.0".to_owned()];
    let (lines, count) = package_diff_lines(&paths, &new, &vec![], &vec![]).unwrap();
    assert_eq!(count, 1);
    assert!(!lines.is_empty());
}

#[test]
fn version_lists_fit_the_pairing() {
    assert!(versions_fit(&vec![Version::new("1.0")], &vec![Version::new("2.0")]));
    assert!(versions_fit(&vec![], &vec![]));
}

#[test]
fn system_packages_are_named_once_each() {
    let paths: Vec<String> = [
        "/nix/store/aaaaaaaaaaaaaaaaaaaaaaaaaaaaaaaa-firefox-128.0",
        "/nix/store/bbbbbbbbbbbbbbbbbbbbbbbbbbbbbbbb-git-2.45.1",
        "/nix/store/cccccccccccccccccccccccccccccccc-firefox-129.0",
        "not a store path",
        "/nix/store/dddddddddddddddddddddddddddddddd-htop",
    ]
    .iter()
    .map(|p| p.to_string())
    .collect();
    assert_eq!(system_package_names(&paths), vec!["firefox", "git", "htop"]);
}
