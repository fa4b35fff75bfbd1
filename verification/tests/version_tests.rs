use pkgtools::diff::{
    add_selection_status, generate_diffs_from_paths, Change, DerivationSelectionStatus, Diff,
    DiffStatus,
};
use pkgtools::levenshtein::levenshtein;
use pkgtools::matching::{match_version_lists, EitherOrBoth};
use pkgtools::text::Order;
use pkgtools::version::{Version, VersionComponent, VersionIter, VersionPiece};

fn components(v: &str) -> Vec<VersionComponent<'_>> {
    VersionIter::from(v).components()
}

#[test]
fn basic_component_edit_dist() {
    let from = Version::new("foo-123.0-man-pages");
    let from: Vec<VersionComponent> = from.components();

    let to = Version::new("foo-123.4.12-man-pages");
    let to: Vec<VersionComponent> = to.components();

    let dist = levenshtein(&from, &to);
    assert_eq!(dist, 2);
}

#[test]
fn levenshtein_distance_tests() {
    let chars = |s: &str| s.chars().collect::<Vec<_>>();
    assert_eq!(levenshtein(&chars("kitten"), &chars("sitting")), 3);
    assert_eq!(levenshtein(&chars(""), &chars("hello")), 5);
    assert_eq!(levenshtein(&chars("abcd"), &chars("dcba")), 4);
    assert_eq!(levenshtein(&chars("12345"), &chars("12345")), 0);
    assert_eq!(levenshtein(&chars("distance"), &chars("difference")), 5);
}

#[test]
fn match_version_lists_test() {
    let version_list_a = [
        Version::new("5.116.0"),
        Version::new("5.116.0-bin"),
        Version::new("6.16.0"),
    ];
    let version_list_b = [Version::new("6.17.0")];

    let matched = match_version_lists(&version_list_a, &version_list_b);

    for version in matched {
        match version {
            EitherOrBoth::Both(left, right) => {
                println!("{} {}", left.as_str(), right.as_str());
            },
            EitherOrBoth::Left(left) => {
                println!("{}", left.as_str());
            },
            EitherOrBoth::Right(right) => {
                println!("{}", right.as_str());
            },
        }
    }
}

#[test]
fn generate_diffs_from_paths_test() {
    let diff_1 = (
        vec![Version::new("1.1.0"), Version::new("1.3")],
        vec![Version::new("1.1.0"), Version::new("1.4")],
    );
    let paths = vec![("tmp".to_owned(), diff_1)];
    let mut vec_1 = generate_diffs_from_paths(paths);
    add_selection_status(&mut vec_1, &[], &[]);
    let res_2 = Diff {
        name: "tmp".to_owned(),
        old: vec![Version::new("1.3")],
        new: vec![Version::new("1.4")],
        status: DiffStatus::Changed(Change::Upgraded),
        selection: DerivationSelectionStatus::Unselected,
        has_common_versions: true,
    };
    assert_eq!(vec_1.first().unwrap(), &res_2);

    let diff_2 = (
        vec![Version::new("1.2.0"), Version::new("1.5")],
        vec![Version::new("1.2.0")],
    );
    let paths = vec![("tmp".to_owned(), diff_2)];
    let mut vec_2 = generate_diffs_from_paths(paths);
    add_selection_status(&mut vec_2, &[], &[]);
    let res_2 = Diff {
        name: "tmp".to_owned(),
        old: vec![Version::new("1.5")],
        new: vec![],
        status: DiffStatus::Changed(Change::UpgradeDowngrade),
        selection: DerivationSelectionStatus::Unselected,
        has_common_versions: true,
    };
    assert_eq!(vec_2.first().unwrap(), &res_2);
}

#[test]
fn version_component_iter() {
    let version = "132.1.2test234-1-man----.--.......---------..---";

    assert_eq!(
        VersionIter::from(version)
            .pieces()
            .into_iter()
            .filter_map(VersionPiece::component)
            .collect::<Vec<_>>(),
        [
            VersionComponent("132"),
            VersionComponent("1"),
            VersionComponent("2test234"),
            VersionComponent("1"),
            VersionComponent("man")
        ]
    );
}

#[test]
fn version_comparison() {
    // Numeric comparison
    assert!(Version::new("2.0.0") > Version::new("1.9.9"));
    assert!(Version::new("2.1.0") > Version::new("2.0.9"));
    assert!(Version::new("2.0.1") > Version::new("2.0.0"));

    // Pre-release designations
    assert!(Version::new("1.0.0") > Version::new("1.0.0-pre"));
    assert!(Version::new("1.0.0-beta") > Version::new("1.0.0-alpha"));

    // Mixed numeric and text
    assert!(Version::new("1.0.0-beta.11") > Version::new("1.0.0-beta.2"));

    // Equivalence
    assert_eq!(Version::new("1.0.0"), Version::new("1.0.0"));
}

#[test]
fn version_order_is_antisymmetric_on_examples() {
    let pairs = [("2.0.0", "1.9.9"), ("1.0", "1.0.0"), ("1.0a", "1.0b"), ("10", "9")];
    for (a, b) in pairs {
        let ab = Version::new(a).compare(&Version::new(b));
        let ba = Version::new(b).compare(&Version::new(a));
        let flipped = match ab {
            Order::Less => Order::Greater,
            Order::Equal => Order::Equal,
            Order::Greater => Order::Less,
        };
        assert_eq!(ba, flipped, "{a} vs {b}");
    }
}

#[test]
fn levenshtein_is_symmetric_on_examples() {
    let a = components("1.2.3-rc1");
    let b = components("1.3-final");
    assert_eq!(levenshtein(&a, &b), levenshtein(&b, &a));
    assert_eq!(levenshtein(&a, &a), 0);
}

#[test]
fn separators_alternate_with_components() {
    let pieces = VersionIter::from("1.2-x").pieces();
    let seps: Vec<&str> = pieces.iter().filter_map(|p| p.separator()).collect();
    assert_eq!(seps, vec![".", "-"]);
}

#[test]
fn unchanged_versions_give_no_diff() {
    let paths = vec![(
        "same".to_owned(),
        (vec![Version::new("1.0")], vec![Version::new("1.0")]),
    )];
    assert!(generate_diffs_from_paths(paths).is_empty());
}

#[test]
fn an_added_package_is_reported_added() {
    let paths = vec![("new".to_owned(), (vec![], vec![Version::new("2.0")]))];
    let diffs = generate_diffs_from_paths(paths);
    assert_eq!(diffs.len(), 1);
    assert_eq!(diffs[0].status, DiffStatus::Added);
}

#[test]
fn version_order_is_transitive_for_numbers_that_fit() {
    let a = Version::new("1.1-rc");
    let b = Version::new("1.2");
    let c = Version::new("1.10");
    assert_eq!(a.compare(&b), Order::Less);
    assert_eq!(b.compare(&c), Order::Less);
    assert_eq!(a.compare(&c), Order::Less);
    // Equal versions compare alike with a third one.
    let d = Version::new("1.02");
    assert_eq!(b.compare(&d), Order::Equal);
    assert_eq!(b.compare(&c), d.compare(&c));
}

#[test]
fn a_number_past_u64_is_compared_as_text() {
    let small = Version::new("9");
    let middle = Version::new("10");
    let huge = Version::new("100000000000000000000");
    assert_eq!(small.compare(&middle), Order::Less);
    assert_eq!(middle.compare(&huge), Order::Less);
    assert_eq!(small.compare(&huge), Order::Greater);
}

#[test]
fn sorted_versions_come_out_in_order() {
    let mut versions: Vec<Version> =
        ["1.10", "1.2", "1.1-rc", "0.9", "1.02"].iter().map(|v| Version::new(v)).collect();
    pkgtools::sorting::sort_versions(&mut versions);
    let names: Vec<&str> = versions.iter().map(|v| v.name.as_str()).collect();
    // "1.2" and "1.02" are equal versions and keep their order.
    assert_eq!(names, vec!["0.9", "1.1-rc", "1.2", "1.02", "1.10"]);
    for pair in versions.windows(2) {
        assert_ne!(pair[0].compare(&pair[1]), Order::Greater);
    }
}

#[test]
fn deduplicating_counts_each_version() {
    let mut versions: Vec<Version> =
        ["2.3", "1.0", "2.3", "4.8", "2.3", "1.0"].iter().map(|v| Version::new(v)).collect();
    pkgtools::diff::deduplicate_versions(&mut versions);
    let shown: Vec<(&str, usize)> = versions.iter().map(|v| (v.name.as_str(), v.amount)).collect();
    assert_eq!(shown, vec![("1.0", 2), ("2.3", 3), ("4.8", 1)]);
    assert_eq!(versions.iter().map(|v| v.amount).sum::<usize>(), 6);
}

#[test]
fn versions_that_compare_equal_keep_their_own_names_once_each() {
    let mut versions: Vec<Version> = ["1.0", "1-0", "1.00", "1.0"].iter().map(|v| Version::new(v)).collect();
    pkgtools::diff::deduplicate_versions(&mut versions);
    let shown: Vec<(&str, usize)> = versions.iter().map(|v| (v.name.as_str(), v.amount)).collect();
    assert_eq!(shown, vec![("1.0", 2), ("1-0", 1), ("1.00", 1)]);
}

#[test]
fn pre_is_equal_to_itself_and_below_every_other_text() {
    let pre = VersionComponent("pre");
    assert_eq!(pre.compare(&VersionComponent("pre")), Order::Equal);
    assert_eq!(pre.compare(&VersionComponent("alpha")), Order::Less);
    assert_eq!(VersionComponent("alpha").compare(&pre), Order::Greater);
    assert_eq!(Version::new("1.0-pre").compare(&Version::new("1.0-pre")), Order::Equal);
    assert_eq!(Version::new("1.0-pre").compare(&Version::new("1.0")), Order::Less);
}

#[test]
fn each_side_of_a_version_diff_spells_its_version() {
    for (old, new) in [
        (("1.2.3", 2), ("1.2.4", 1)),
        (("1.0.0-beta.2", 1), ("1.0.0-beta.11", 3)),
        (("abcdefghijklmnopqrstuvwxyz", 1), ("zyxwvutsrqponmlkjihgfedcba", 1)),
        (("", 1), ("2.0", 1)),
    ] {
        let old_ver = Version { name: old.0.to_string(), amount: old.1 };
        let new_ver = Version { name: new.0.to_string(), amount: new.1 };
        let mut old_acc = Vec::new();
        let mut new_acc = Vec::new();
        pkgtools::diff::fmt_single_version_diff(&mut old_acc, &mut new_acc, &old_ver, &new_ver);
        let text = |acc: &Vec<pkgtools::style::Segment>| acc.iter().map(|s| s.text.as_str()).collect::<String>();
        let shown = |name: &str, n: usize| if n > 1 { format!("{name} \u{d7}{n}") } else { name.to_string() };
        assert_eq!(text(&old_acc), shown(old.0, old.1));
        assert_eq!(text(&new_acc), shown(new.0, new.1));
    }
}
