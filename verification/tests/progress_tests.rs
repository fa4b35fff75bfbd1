use pkgtools::monitor::{Event, Field, Monitor};
use pkgtools::progress::{bar, display_width, fit, marquee, parse_plan, store_name, truncate, Plan};
use pkgtools::units::{human_bytes, human_duration, rate};

const DRY_RUN: &str = "\
warning: Git tree is dirty
these 2 derivations will be built:
  /nix/store/aaaaaaaaaaaaaaaaaaaaaaaaaaaaaaaa-foo-1.0.drv
  /nix/store/bbbbbbbbbbbbbbbbbbbbbbbbbbbbbbbb-bar-2.0.drv
these 3 paths will be fetched (22.54 MiB download, 22.99 MiB unpacked):
  /nix/store/cccccccccccccccccccccccccccccccc-baz-3.0
  /nix/store/dddddddddddddddddddddddddddddddd-qux-4.0
  /nix/store/eeeeeeeeeeeeeeeeeeeeeeeeeeeeeeee-quux-5.0
";

const FETCHED: &str = "/nix/store/cccccccccccccccccccccccccccccccc-baz-3.0";
const OTHER: &str = "/nix/store/dddddddddddddddddddddddddddddddd-qux-4.0";
const DRV_A: &str = "/nix/store/aaaaaaaaaaaaaaaaaaaaaaaaaaaaaaaa-foo-1.0.drv";
const DRV_B: &str = "/nix/store/bbbbbbbbbbbbbbbbbbbbbbbbbbbbbbbb-bar-2.0.drv";

fn event(action: &str, id: u64, kind: u64, fields: Vec<Field>) -> Event {
    Event { action: action.to_owned(), id, fields, kind, msg: None, level: 0 }
}

fn text(s: &str) -> Field {
    Field::Text(s.to_owned())
}

fn start(id: u64, kind: u64, path: &str) -> Event {
    event("start", id, kind, vec![text(path), text(""), text("")])
}

fn stop(id: u64) -> Event {
    event("stop", id, 0, vec![])
}

fn message(level: u64, msg: &str) -> Event {
    Event {
        action: "msg".to_owned(),
        id: 0,
        fields: vec![],
        kind: 0,
        msg: Some(msg.to_owned()),
        level,
    }
}

fn monitor_with_plan() -> Monitor {
    let mut plan = Plan { builds: 1, known: true, ..Plan::default() };
    plan.add_fetch(FETCHED);
    Monitor::new_at(plan, 0)
}

fn start_fetch(monitor: &mut Monitor) {
    monitor.handle_event_at(
        &event(
            "start",
            1,
            100,
            vec![text(FETCHED), text("https://cache.nixos.org"), text("local")],
        ),
        100,
        0,
    );
}

#[test]
fn parses_both_sections() {
    let plan = parse_plan(DRY_RUN);
    assert_eq!(plan.builds, 2);
    assert_eq!(plan.fetches.len(), 3);
    assert!(plan.fetches_path(FETCHED));
    assert_eq!(plan.sizes.as_deref(), Some("22.54 MiB download, 22.99 MiB unpacked"));
}

#[test]
fn an_unresolved_plan_announces_nothing() {
    let planning = Monitor::new(Plan::default());
    assert!(
        planning.summary().is_empty(),
        "an unresolved plan must not describe itself: {:?}",
        planning.summary()
    );
}

#[test]
fn empty_plan_when_nothing_to_do() {
    let plan = parse_plan("warning: Git tree is dirty\n");
    assert_eq!(plan.builds, 0);
    assert!(plan.fetches.is_empty());
    assert_eq!(Monitor::new(plan).summary(), vec!["Nothing to do".to_owned()]);
}

#[test]
fn tracks_planned_fetches_but_not_local_copies() {
    let mut monitor = monitor_with_plan();
    start_fetch(&mut monitor);
    assert_eq!(monitor.in_flight(), 1);

    monitor.handle_event_at(
        &start(2, 100, "/nix/store/ffffffffffffffffffffffffffffffff-etc-fstab"),
        100,
        0,
    );
    assert_eq!(monitor.in_flight(), 1);
}

#[test]
fn counts_completions_against_the_plan() {
    let mut monitor = monitor_with_plan();
    start_fetch(&mut monitor);
    monitor.handle_event_at(
        &event("start", 3, 105, vec![text(DRV_A), text(""), Field::Int(1), Field::Int(1)]),
        100,
        0,
    );
    monitor.handle_event_at(&event("result", 3, 104, vec![text("buildPhase")]), 100, 0);
    assert_eq!(monitor.item(3).unwrap().phase.as_deref(), Some("buildPhase"));

    assert!(monitor.row_at(monitor.item(3).unwrap(), true, 100, 1, 0).starts_with("[1/1]"));

    monitor.handle_event_at(&stop(1), 100, 0);
    monitor.handle_event_at(&stop(3), 100, 0);

    assert_eq!(monitor.fetched(), 1);
    assert_eq!(monitor.built(), 1);
    assert_eq!(monitor.in_flight(), 0);
    assert_eq!(monitor.log().len(), 2, "both finished rows are logged");
}

#[test]
fn the_scrollback_counts_up_within_each_kind() {
    let mut plan = Plan { builds: 2, known: true, ..Plan::default() };
    plan.add_fetch(FETCHED);
    plan.add_fetch(OTHER);
    let mut monitor = Monitor::new_at(plan, 0);

    start_fetch(&mut monitor);
    for (id, path) in [(2, OTHER), (3, DRV_A), (4, DRV_B)] {
        let kind = if path.ends_with(".drv") { 105 } else { 100 };
        monitor.handle_event_at(
            &event("start", id, kind, vec![text(path), text(""), Field::Int(1), Field::Int(1)]),
            100,
            0,
        );
    }
    for id in [3, 1, 4, 2] {
        monitor.handle_event_at(&stop(id), 100, 0);
    }

    let ordinals: Vec<&str> = monitor
        .log()
        .iter()
        .map(|line| line.split(']').next().unwrap_or(line))
        .collect();
    assert_eq!(
        ordinals,
        vec!["[1/2", "[2/2", "[1/2", "[2/2"],
        "each run must count up: {:?}",
        monitor.log()
    );
}

#[test]
fn every_row_in_flight_gets_its_own_number() {
    let mut plan = Plan { known: true, ..Plan::default() };
    plan.add_fetch(FETCHED);
    plan.add_fetch(OTHER);
    let mut monitor = Monitor::new_at(plan, 0);

    start_fetch(&mut monitor);
    monitor.handle_event_at(&start(2, 100, OTHER), 100, 0);

    let (rows, _) = monitor.active_rows_at(120, 8, 0);
    assert!(rows[0].starts_with("[1/2]"), "{rows:?}");
    assert!(
        rows[1].starts_with("[2/2]"),
        "a second row in flight must not repeat the first's number: {rows:?}"
    );
}

#[test]
fn suppresses_chatty_messages() {
    let mut monitor = monitor_with_plan();
    monitor.handle_event_at(&message(4, "linking '/nix/store/x' to '/nix/store/y'"), 100, 0);
    assert!(monitor.log().is_empty());

    monitor.handle_event_at(&message(1, "warning: something real"), 100, 0);
    assert_eq!(monitor.log().len(), 1);
}

#[test]
fn a_finished_download_reads_as_complete() {
    let mut monitor = monitor_with_plan();
    start_fetch(&mut monitor);
    monitor.handle_event_at(
        &event(
            "result",
            1,
            105,
            vec![Field::Int(700), Field::Int(1024), Field::Int(0), Field::Int(0)],
        ),
        100,
        0,
    );
    let live = monitor.row_at(monitor.item(1).unwrap(), false, 120, 1, 0);
    assert!(live.contains("68%"), "in flight: {live}");

    monitor.handle_event_at(&stop(1), 100, 0);
    let finished = monitor.log()[0].to_owned();
    assert!(finished.contains("100%"), "finished: {finished}");
    assert!(finished.contains("1.0 KiB"), "finished: {finished}");
    assert_eq!(monitor.bytes_done(), 1024);
}

#[test]
fn the_detail_column_is_the_same_width_at_every_rate() {
    let widths: Vec<usize> = [0u64, 1_024, 921_600, 41_943_040, 3_221_225_472]
        .into_iter()
        .map(|bytes| {
            format!("{:>12} {:>10}", rate(bytes, 1, 0), human_bytes(bytes)).chars().count()
        })
        .collect();
    assert!(
        widths.iter().all(|&width| width == 12 + 1 + 10),
        "a rate or size overflowed its slot: {widths:?}"
    );
}

#[test]
fn bars_occupy_exactly_their_width() {
    for (num, den) in [(0u64, 1u64), (1, 100), (1, 2), (999, 1000), (1, 1)] {
        assert_eq!(display_width(&bar(num, den, 20)), 20, "bar({num}/{den})");
    }
}

#[test]
fn marquee_occupies_its_width_at_every_frame() {
    for frame in 0..64 {
        assert_eq!(display_width(&marquee(frame, 20)), 20, "frame {frame}");
    }
}

#[test]
fn rows_fit_the_terminal() {
    let mut monitor = monitor_with_plan();
    start_fetch(&mut monitor);
    monitor.handle_event_at(
        &event(
            "result",
            1,
            105,
            vec![Field::Int(512), Field::Int(1024), Field::Int(0), Field::Int(0)],
        ),
        100,
        0,
    );

    for width in [60, 80, 100, 120, 200] {
        let row = monitor.row_at(monitor.item(1).unwrap(), false, width, 1, 0);
        assert!(display_width(&row) <= width, "row overflowed a {width}-column terminal");
    }
}

#[test]
fn every_row_kind_has_the_same_width() {
    let mut plan = Plan { builds: 29, known: true, ..Plan::default() };
    plan.add_fetch(FETCHED);
    for n in 0..150 {
        plan.add_fetch(&format!("/nix/store/{n:032}-pkg-{n}"));
    }
    let mut monitor = Monitor::new_at(plan, 0);

    start_fetch(&mut monitor);
    monitor.handle_event_at(
        &event(
            "result",
            1,
            105,
            vec![Field::Int(512), Field::Int(1024), Field::Int(0), Field::Int(0)],
        ),
        100,
        0,
    );
    monitor.handle_event_at(
        &event(
            "start",
            2,
            105,
            vec![
                text("/nix/store/aaaaaaaaaaaaaaaaaaaaaaaaaaaaaaaa-a-very-long-package-name-1.0.drv"),
                text(""),
                Field::Int(1),
                Field::Int(1),
            ],
        ),
        100,
        0,
    );
    monitor.handle_event_at(
        &event("result", 2, 104, vec![text("updateAutotoolsGnuConfigScriptsPhase")]),
        100,
        0,
    );

    for width in [80, 100, 120, 160] {
        let download = monitor.row_at(monitor.item(1).unwrap(), false, width, 1, 0);
        let build = monitor.row_at(monitor.item(2).unwrap(), false, width, 1, 0);
        let finished = monitor.row_at(monitor.item(2).unwrap(), true, width, 1, 0);
        let total = monitor.total_row_at(width, 0).expect("plan is not empty");

        let widths = [
            display_width(&download),
            display_width(&build),
            display_width(&finished),
            display_width(&total),
        ];
        assert!(
            widths.windows(2).all(|pair| pair[0] == pair[1]),
            "at {width} columns the row kinds differ: {widths:?}"
        );
        assert!(widths[0] <= width, "row of {} overflowed {width} columns", widths[0]);
    }
}

#[test]
fn store_name_strips_hash_and_drv() {
    assert_eq!(store_name("/nix/store/aaaaaaaaaaaaaaaaaaaaaaaaaaaaaaaa-foo-1.0.drv"), "foo-1.0");
}

#[test]
fn truncated_lines_fit_their_width() {
    let line = "a rather long line of build output that will not fit";
    for width in [0, 1, 5, 20, 100] {
        assert!(display_width(&truncate(line, width)) <= width, "width {width}");
    }
    assert_eq!(truncate("short", 10), "short");
}

#[test]
fn fitted_names_have_exactly_their_width() {
    for width in [0usize, 3, 8, 30] {
        assert_eq!(fit("some-package-name-1.2.3", width).chars().count(), width);
    }
}

#[test]
fn human_sizes_and_durations() {
    assert_eq!(human_bytes(0), "0 B");
    assert_eq!(human_bytes(1024), "1.0 KiB");
    assert_eq!(human_bytes(1536), "1.5 KiB");
    assert_eq!(human_duration(59), "00m59s");
    assert_eq!(human_duration(425), "07m05s");
}

#[test]
fn escape_sequences_take_no_columns() {
    assert_eq!(display_width("ab"), 2);
    assert_eq!(display_width("\u{1b}[1;32mab\u{1b}[0m"), 2);
    assert_eq!(display_width("日本"), 2);
}

#[test]
fn a_cut_line_leaves_the_last_column_free() {
    let line = "\u{1b}[32mabcdef\u{1b}[0m";
    assert_eq!(display_width(&truncate(line, 4)), 3);
    assert_eq!(display_width(&truncate(line, 6)), 6);
    assert_eq!(display_width(&truncate(line, 0)), 0);
}

#[test]
fn a_plan_that_arrives_later_is_announced() {
    let mut monitor = Monitor::new(Plan::default());
    assert!(monitor.summary().is_empty());
    monitor.set_plan(parse_plan("warning: Git tree is dirty\n"));
    assert_eq!(monitor.summary(), vec!["Nothing to do".to_owned()]);
}
