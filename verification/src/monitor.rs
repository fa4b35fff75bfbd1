//! The build monitor: which downloads and builds are in flight, how many of
//! each have finished, and the rows that show them.

use vstd::prelude::*;

use crate::progress::{
    BarDraw, Plan, PlanView, composed, compose, display_width, display_width_of, holds_text,
    right_aligned, store_name, store_name_of, text_views,
};
use crate::strings::push_str;
use crate::text::{decimal, str_eq, u64_to_decimal, usize_to_decimal};
use crate::units::{bytes_text, duration_text, human_bytes, human_duration, rate, rate_text};

verus! {

/// What an item in flight is.
#[derive(Debug, Clone, Copy, PartialEq, Eq, Structural)]
pub enum Kind {
    Download,
    Build,
}

/// A download or build in flight.
#[derive(Debug, Clone)]
pub struct Item {
    pub kind: Kind,
    pub name: String,
    pub done: u64,
    pub expected: u64,
    pub phase: Option<String>,
    /// When it started, in milliseconds of the monitor's clock.
    pub started: u64,
}

pub struct ItemView {
    pub kind: Kind,
    pub name: Seq<char>,
    pub done: nat,
    pub expected: nat,
    pub phase: Option<Seq<char>>,
    pub started: nat,
}

impl View for Item {
    type V = ItemView;

    open spec fn view(&self) -> ItemView {
        ItemView {
            kind: self.kind,
            name: self.name@,
            done: self.done as nat,
            expected: self.expected as nat,
            phase: match self.phase {
                Some(p) => Some(p@),
                None => None,
            },
            started: self.started as nat,
        }
    }
}

/// One field of a log event, which Nix writes as a string or an integer.
#[derive(Debug, Clone)]
pub enum Field {
    Int(u64),
    Text(String),
    Other,
}

/// One event of Nix's `internal-json` log.
#[derive(Debug, Clone)]
pub struct Event {
    pub action: String,
    pub id: u64,
    pub fields: Vec<Field>,
    pub kind: u64,
    pub msg: Option<String>,
    pub level: u64,
}

pub open spec fn act_copy_path() -> u64 {
    100
}

pub open spec fn act_build() -> u64 {
    105
}

pub open spec fn res_build_log_line() -> u64 {
    101
}

pub open spec fn res_set_phase() -> u64 {
    104
}

pub open spec fn res_progress() -> u64 {
    105
}

pub open spec fn log_tail() -> nat {
    40
}

/// The milliseconds between two clock readings, none when the clock went back.
pub open spec fn elapsed(now: nat, since: nat) -> nat {
    if now >= since {
        (now - since) as nat
    } else {
        0
    }
}

/// `std::time::Instant`, a reading of the monotonic clock.
#[verifier::external_type_specification]
#[verifier::external_body]
pub struct ExInstant(std::time::Instant);

/// A reading of the monotonic clock, by `std::time::Instant::now`. Nothing is
/// stated of it: it depends on the time.
#[verifier::external_body]
fn clock_origin() -> (t: std::time::Instant) {
    std::time::Instant::now()
}

/// The whole milliseconds that the monotonic clock has moved on since
/// `origin`, by `Instant::elapsed` and `Duration::as_millis`. Nothing is
/// stated of it: it depends on the time (the clock never goes back, and the
/// reading is zero rather than negative).
#[verifier::external_body]
fn clock_ms(origin: &std::time::Instant) -> (t: u64) {
    origin.elapsed().as_millis() as u64
}

/// Times are whole milliseconds on the monotonic clock, counted from the
/// instant `origin` at which the monitor was made.
pub struct Monitor {
    origin: std::time::Instant,
    items: Vec<(u64, Item)>,
    plan: Plan,
    fetched: usize,
    built: usize,
    bytes_done: u64,
    frame: usize,
    started: u64,
    notes: Vec<String>,
    fetched_rows: Vec<String>,
    built_rows: Vec<String>,
    build_log: Vec<String>,
}

/// The larger of the two totals, at least one.
pub open spec fn widest_total(p: PlanView) -> nat {
    let t = if p.fetches.len() > p.builds {
        p.fetches.len()
    } else {
        p.builds
    };
    if t > 1 {
        t
    } else {
        1
    }
}

pub open spec fn total_of(p: PlanView, kind: Kind) -> nat {
    match kind {
        Kind::Download => p.fetches.len(),
        Kind::Build => p.builds,
    }
}

/// The `[n/total]` cell, both numbers as wide as the larger total.
pub open spec fn counter_text(p: PlanView, kind: Kind, ordinal: nat) -> Seq<char> {
    let total = total_of(p, kind);
    let width = decimal(widest_total(p)).len();
    let cap = if total > 1 {
        total
    } else {
        1
    };
    let shown = if ordinal < cap {
        ordinal
    } else {
        cap
    };
    "["@ + right_aligned(decimal(shown), width) + "/"@ + right_aligned(decimal(total), width) + "]"@
}

/// A fraction as a whole percentage, rounded half up.
pub open spec fn percent_of(num: nat, den: nat) -> nat {
    (200 * num + den) / (2 * den)
}

/// The row of an item: for a download its rate, size and share done (all of
/// it once done); for a build its phase, `built` once done, and a marquee
/// while it runs.
pub open spec fn item_row(p: PlanView, frame: nat, item: ItemView, done: bool, width: nat, ordinal: nat, now: nat) -> Seq<char> {
    let el = elapsed(now, item.started);
    let counter = counter_text(p, item.kind, ordinal);
    let time = duration_text(el / 1000);
    match item.kind {
        Kind::Download => {
            let total = if item.expected > item.done {
                item.expected
            } else {
                item.done
            };
            let (moved, num, den) = if done {
                (total, 1nat, 1nat)
            } else if item.expected > 0 {
                (item.done, if item.done < item.expected { item.done } else { item.expected }, item.expected)
            } else {
                (item.done, 0nat, 1nat)
            };
            let detail = right_aligned(rate_text(moved, el * 1_000_000), 12) + " "@ + right_aligned(
                bytes_text(total),
                10,
            );
            composed(
                counter,
                item.name,
                decimal(percent_of(num, den)) + "%"@,
                detail,
                time,
                width,
                BarDraw::Fraction(num as u64, den as u64),
            )
        },
        Kind::Build => {
            let status = if done {
                "built"@
            } else {
                match item.phase {
                    Some(ph) => ph,
                    None => "building"@,
                }
            };
            composed(
                counter,
                item.name,
                if done { "100%"@ } else { ""@ },
                status,
                time,
                width,
                if done { BarDraw::Fraction(1, 1) } else { BarDraw::Marquee(frame as usize) },
            )
        },
    }
}

/// What a monitor holds.
pub struct MonitorView {
    pub items: Seq<(u64, ItemView)>,
    pub plan: PlanView,
    pub fetched: nat,
    pub built: nat,
    pub bytes_done: nat,
    pub frame: nat,
    pub started: nat,
    pub notes: Seq<Seq<char>>,
    pub fetched_rows: Seq<Seq<char>>,
    pub built_rows: Seq<Seq<char>>,
    pub build_log: Seq<Seq<char>>,
}

pub open spec fn item_views(items: Seq<(u64, Item)>) -> Seq<(u64, ItemView)> {
    items.map_values(|e: (u64, Item)| (e.0, e.1@))
}

impl View for Monitor {
    type V = MonitorView;

    closed spec fn view(&self) -> MonitorView {
        MonitorView {
            items: item_views(self.items@),
            plan: self.plan@,
            fetched: self.fetched as nat,
            built: self.built as nat,
            bytes_done: self.bytes_done as nat,
            frame: self.frame as nat,
            started: self.started as nat,
            notes: text_views(self.notes@),
            fetched_rows: text_views(self.fetched_rows@),
            built_rows: text_views(self.built_rows@),
            build_log: text_views(self.build_log@),
        }
    }
}

/// The ids of the items in flight increase along the list, and the plan's
/// totals add up within `usize`.
pub open spec fn monitor_wf(m: MonitorView) -> bool {
    &&& forall|i: int, j: int| 0 <= i < j < m.items.len() ==> m.items[i].0 < m.items[j].0
    &&& crate::progress::plan_fits(m.plan)
}

impl Monitor {
    /// A monitor for `plan`, started `now` milliseconds after its clock's
    /// origin, with nothing in flight or done.
    pub fn new_at(plan: Plan, now: u64) -> (m: Monitor)
        requires
            crate::progress::plan_fits(plan@),
        ensures
            monitor_wf(m@),
            m@ == (MonitorView {
                items: seq![],
                plan: plan@,
                fetched: 0,
                built: 0,
                bytes_done: 0,
                frame: 0,
                started: now as nat,
                notes: seq![],
                fetched_rows: seq![],
                built_rows: seq![],
                build_log: seq![],
            }),
    {
        let m = Monitor {
            origin: clock_origin(),
            items: Vec::new(),
            plan,
            fetched: 0,
            built: 0,
            bytes_done: 0,
            frame: 0,
            started: now,
            notes: Vec::new(),
            fetched_rows: Vec::new(),
            built_rows: Vec::new(),
            build_log: Vec::new(),
        };
        assert(item_views(m.items@) =~= seq![]);
        assert(text_views(m.notes@) =~= seq![]);
        assert(text_views(m.fetched_rows@) =~= seq![]);
        assert(text_views(m.built_rows@) =~= seq![]);
        assert(text_views(m.build_log@) =~= seq![]);
        m
    }

    /// A monitor for `plan`, started now.
    pub fn new(plan: Plan) -> (m: Monitor)
        requires
            crate::progress::plan_fits(plan@),
        ensures
            monitor_wf(m@),
            m@ == (MonitorView {
                items: seq![],
                plan: plan@,
                fetched: 0,
                built: 0,
                bytes_done: 0,
                frame: 0,
                started: 0,
                notes: seq![],
                fetched_rows: seq![],
                built_rows: seq![],
                build_log: seq![],
            }),
    {
        Monitor::new_at(plan, 0)
    }

    fn digits(&self) -> (n: usize)
        ensures
            n == decimal(widest_total(self@.plan)).len(),
    {
        let f = self.plan.fetches.len();
        let b = self.plan.builds;
        let t = if f > b {
            f
        } else {
            b
        };
        let t = if t > 1 {
            t
        } else {
            1
        };
        assert(text_views(self.plan.fetches@).len() == f);
        usize_to_decimal(t).unicode_len()
    }

    /// How many downloads and builds are in flight.
    pub fn in_flight(&self) -> (n: usize)
        ensures
            n == self@.items.len(),
    {
        self.items.len()
    }

    /// The item in flight with event id `id`, if any.
    pub fn item(&self, id: u64) -> (r: Option<&Item>)
        ensures
            r matches Some(it) ==> exists|i: int|
                0 <= i < self@.items.len() && self@.items[i].0 == id && #[trigger] self@.items[i].1
                    == it@,
            r is None ==> forall|i: int| 0 <= i < self@.items.len() ==> #[trigger] self@.items[i].0 != id,
    {
        let mut i: usize = 0;
        while i < self.items.len()
            invariant
                i <= self.items@.len(),
                forall|j: int| 0 <= j < i ==> #[trigger] self@.items[j].0 != id,
            decreases self.items@.len() - i,
        {
            if self.items[i].0 == id {
                assert(self@.items[i as int].1 == self.items@[i as int].1@);
                return Some(&self.items[i].1);
            }
            i = i + 1;
        }
        None
    }

    /// How many downloads have finished.
    pub fn fetched(&self) -> (n: usize)
        ensures
            n == self@.fetched,
    {
        self.fetched
    }

    /// How many builds have finished.
    pub fn built(&self) -> (n: usize)
        ensures
            n == self@.built,
    {
        self.built
    }

    /// The bytes that finished downloads brought in.
    pub fn bytes_done(&self) -> (n: u64)
        ensures
            n == self@.bytes_done,
    {
        self.bytes_done
    }

    /// The `[n/total]` cell; `ordinal` is the item's own place in its run.
    pub fn counter(&self, kind: Kind, ordinal: usize) -> (s: String)
        ensures
            s@ == counter_text(self@.plan, kind, ordinal as nat),
    {
        let total = match kind {
            Kind::Download => self.plan.fetches.len(),
            Kind::Build => self.plan.builds,
        };
        assert(text_views(self.plan.fetches@).len() == self.plan.fetches@.len());
        let width = self.digits();
        let cap = if total > 1 {
            total
        } else {
            1
        };
        let shown = if ordinal < cap {
            ordinal
        } else {
            cap
        };
        let mut s = String::new();
        push_str(&mut s, "[");
        let a = usize_to_decimal(shown);
        push_padded(&mut s, a.as_str(), width);
        push_str(&mut s, "/");
        let b = usize_to_decimal(total);
        push_padded(&mut s, b.as_str(), width);
        push_str(&mut s, "]");
        s
    }

    /// The same width as `counter`, for rows that are not a numbered item.
    pub fn counter_slot(&self, label: &str) -> (s: String)
        ensures
            s@ == right_aligned(label@, decimal(widest_total(self@.plan)).len() * 2 + 3),
    {
        let d = self.digits();
        let _f = self.plan.fetches.len();
        proof {
            assert(text_views(self.plan.fetches@).len() == self.plan.fetches@.len());
            crate::text::lemma_decimal_len_bound(widest_total(self.plan@));
        }
        let mut s = String::new();
        push_padded(&mut s, label, d * 2 + 3);
        s
    }

    /// The row of an item, as of `now`.
    pub fn row_at(&self, item: &Item, done: bool, width: usize, ordinal: usize, now: u64) -> (s: String)
        ensures
            s@ == item_row(self@.plan, self@.frame, item@, done, width as nat, ordinal as nat, now as nat),
    {
        let el: u64 = if now >= item.started {
            now - item.started
        } else {
            0
        };
        let counter = self.counter(item.kind, ordinal);
        let time = human_duration(el / 1000);
        let _f = self.plan.fetches.len();
        proof {
            assert(text_views(self.plan.fetches@).len() == self.plan.fetches@.len());
            lemma_counter_display(self.plan@, item.kind, ordinal as nat);
        }
        match item.kind {
            Kind::Download => {
                let total = if item.expected > item.done {
                    item.expected
                } else {
                    item.done
                };
                let (moved, num, den): (u64, u64, u64) = if done {
                    (total, 1, 1)
                } else if item.expected > 0 {
                    (item.done, if item.done < item.expected { item.done } else { item.expected }, item.expected)
                } else {
                    (item.done, 0, 1)
                };
                let mut detail = String::new();
                let r = rate(moved, el / 1000, ((el % 1000) * 1_000_000) as u32);
                push_padded(&mut detail, r.as_str(), 12);
                push_str(&mut detail, " ");
                let size = human_bytes(total);
                push_padded(&mut detail, size.as_str(), 10);
                proof {
                    lemma_percent_bound(num as nat, den as nat);
                }
                let pct: u64 = ((200 * num as u128 + den as u128) / (2 * den as u128)) as u64;
                let mut percent = u64_to_decimal(pct);
                push_str(&mut percent, "%");
                proof {
                    assert((el / 1000) * 1_000_000_000 + (el % 1000) * 1_000_000 == el * 1_000_000);
                }
                compose(
                    counter.as_str(),
                    item.name.as_str(),
                    percent.as_str(),
                    detail.as_str(),
                    time.as_str(),
                    width,
                    BarDraw::Fraction(num, den),
                )
            },
            Kind::Build => {
                let status: &str = if done {
                    "built"
                } else {
                    match &item.phase {
                        Some(p) => p.as_str(),
                        None => "building",
                    }
                };
                let percent = if done {
                    "100%"
                } else {
                    ""
                };
                let draw = if done {
                    BarDraw::Fraction(1, 1)
                } else {
                    BarDraw::Marquee(self.frame)
                };
                compose(counter.as_str(), item.name.as_str(), percent, status, time.as_str(), width, draw)
            },
        }
    }
}

fn push_padded(out: &mut String, s: &str, width: usize)
    ensures
        final(out)@ == old(out)@ + right_aligned(s@, width as nat),
{
    let n = s.unicode_len();
    let ghost o0 = out@;
    if n < width {
        let mut k: usize = 0;
        while k < width - n
            invariant
                k <= width - n,
                out@ == o0 + Seq::new(k as nat, |i: int| ' '),
            decreases width - n - k,
        {
            out.push(' ');
            k = k + 1;
            assert(out@ =~= o0 + Seq::new(k as nat, |i: int| ' '));
        }
    }
    push_str(out, s);
    assert(out@ =~= o0 + right_aligned(s@, width as nat));
}

proof fn lemma_counter_display(p: PlanView, kind: Kind, ordinal: nat)
    requires
        p.fetches.len() <= usize::MAX,
        p.builds <= usize::MAX,
        ordinal <= usize::MAX,
    ensures
        display_width_of(counter_text(p, kind, ordinal)) + 68 <= usize::MAX,
{
    let c = counter_text(p, kind, ordinal);
    crate::progress::lemma_width_from_bound(c, false);
    let total = total_of(p, kind);
    let cap: nat = if total > 1 { total } else { 1 };
    let shown: nat = if ordinal < cap { ordinal } else { cap };
    crate::text::lemma_decimal_len_bound(widest_total(p));
    crate::text::lemma_decimal_len_bound(total);
    crate::text::lemma_decimal_len_bound(shown);
    let w = decimal(widest_total(p)).len();
    let a = right_aligned(decimal(shown), w);
    let b = right_aligned(decimal(total), w);
    assert(a.len() <= 20);
    assert(b.len() <= 20);
    assert(c == "["@ + a + "/"@ + b + "]"@);
    reveal_strlit("[");
    reveal_strlit("/");
    reveal_strlit("]");
    assert(c.len() <= 43);
}

proof fn lemma_percent_bound(num: nat, den: nat)
    requires
        num <= den,
        0 < den,
    ensures
        percent_of(num, den) <= 100,
{
    let x = 200 * num + den;
    let d = 2 * den;
    assert(x < 101 * d);
    assert(x / d <= 100) by (nonlinear_arith)
        requires
            x < 101 * d,
            d > 0,
    ;
}


/// The transaction table: nothing while the plan is unknown; otherwise the
/// paths to fetch (with Nix's size note) and the derivations to build, or
/// that there is nothing to do.
pub open spec fn summary_lines(p: PlanView) -> Seq<Seq<char>> {
    if !p.known {
        seq![]
    } else {
        let fetch: Seq<Seq<char>> = if p.fetches.len() > 0 {
            seq![
                "Fetching "@ + decimal(p.fetches.len()) + " paths"@ + match p.sizes {
                    Some(sz) => " ("@ + sz + ")"@,
                    None => seq![],
                },
            ]
        } else {
            seq![]
        };
        let build: Seq<Seq<char>> = if p.builds > 0 {
            seq!["Building "@ + decimal(p.builds) + " derivations"@]
        } else {
            seq![]
        };
        if fetch.len() + build.len() == 0 {
            seq!["Nothing to do"@]
        } else {
            fetch + build
        }
    }
}

/// The rows of the items in flight from `k` on, numbered on from `nd` for
/// downloads and `nb` for builds; numbers stop at `usize::MAX`.
pub open spec fn rows_from(
    p: PlanView,
    frame: nat,
    items: Seq<(u64, ItemView)>,
    nd: nat,
    nb: nat,
    width: nat,
    now: nat,
) -> Seq<Seq<char>>
    decreases items.len(),
{
    if items.len() == 0 {
        seq![]
    } else {
        let it = items[0].1;
        match it.kind {
            Kind::Download => seq![item_row(p, frame, it, false, width, nd, now)] + rows_from(
                p,
                frame,
                items.drop_first(),
                if nd < usize::MAX { nd + 1 } else { nd },
                nb,
                width,
                now,
            ),
            Kind::Build => seq![item_row(p, frame, it, false, width, nb, now)] + rows_from(
                p,
                frame,
                items.drop_first(),
                nd,
                if nb < usize::MAX { nb + 1 } else { nb },
                width,
                now,
            ),
        }
    }
}

pub open spec fn sat_inc(n: nat) -> nat {
    if n < usize::MAX {
        n + 1
    } else {
        n
    }
}

/// The rows of the items in flight, oldest first, at most `limit` of them,
/// each numbered on from the finished count of its kind.
pub open spec fn active_rows_text(m: MonitorView, width: nat, limit: nat, now: nat) -> Seq<Seq<char>> {
    rows_from(
        m.plan,
        m.frame,
        m.items.take(if limit < m.items.len() { limit as int } else { m.items.len() as int }),
        sat_inc(m.fetched),
        sat_inc(m.built),
        width,
        now,
    )
}

/// The finished count of one kind, and so the number its next item takes.
pub open spec fn next_ordinal(m: MonitorView, kind: Kind) -> nat {
    match kind {
        Kind::Download => sat_inc(m.fetched),
        Kind::Build => sat_inc(m.built),
    }
}

/// The overall row, when the plan has work to measure.
pub open spec fn total_row_text(m: MonitorView, width: nat, now: nat) -> Option<Seq<char>> {
    let total = m.plan.fetches.len() + m.plan.builds;
    if total == 0 {
        None
    } else {
        let el = elapsed(now, m.started);
        let finished = m.fetched + m.built;
        let num = if finished < total {
            finished
        } else {
            total
        };
        let detail = right_aligned(rate_text(m.bytes_done, el * 1_000_000), 12) + " "@ + right_aligned(
            bytes_text(m.bytes_done),
            10,
        );
        Some(
            composed(
                right_aligned(">>>"@, decimal(widest_total(m.plan)).len() * 2 + 3),
                "Total"@,
                decimal(percent_of(num, total)) + "%"@,
                detail,
                duration_text(el / 1000),
                width,
                BarDraw::Fraction(num as u64, total as u64),
            ),
        )
    }
}

/// A one-line account of what the transaction did.
pub open spec fn outcome_text(m: MonitorView, now: nat) -> Seq<char> {
    let parts: Seq<Seq<char>> = (if m.fetched > 0 {
        seq![decimal(m.fetched) + " fetched"@]
    } else {
        seq![]
    }) + (if m.built > 0 {
        seq![decimal(m.built) + " built"@]
    } else {
        seq![]
    });
    let parts = if parts.len() == 0 {
        seq!["nothing to do"@]
    } else {
        parts
    };
    crate::strings::joined(parts, ", "@) + " in "@ + duration_text(elapsed(now, m.started) / 1000)
}

impl Monitor {
    /// The dnf-style transaction table.
    ///
    /// Empty until `--dry-run` reports: while evaluation is still working the
    /// transaction is unknown, and claiming there is nothing to do would be a
    /// guess that is usually wrong.
    pub fn summary(&self) -> (lines: Vec<String>)
        ensures
            text_views(lines@) == summary_lines(self@.plan),
    {
        let mut lines: Vec<String> = Vec::new();
        if !self.plan.known {
            assert(text_views(lines@) =~= seq![]);
            return lines;
        }
        let nf = self.plan.fetches.len();
        assert(text_views(self.plan.fetches@).len() == nf);
        let ghost p = self@.plan;
        if nf > 0 {
            let mut line = String::new();
            push_str(&mut line, "Fetching ");
            let n = usize_to_decimal(nf);
            push_str(&mut line, n.as_str());
            push_str(&mut line, " paths");
            match &self.plan.sizes {
                Some(sz) => {
                    push_str(&mut line, " (");
                    push_str(&mut line, sz.as_str());
                    push_str(&mut line, ")");
                },
                None => {},
            }
            assert(line@ == "Fetching "@ + decimal(p.fetches.len()) + " paths"@ + match p.sizes {
                Some(sz) => " ("@ + sz + ")"@,
                None => seq![],
            });
            lines.push(line);
            assert(text_views(lines@) =~= seq![line@]);
        }
        let ghost l1 = text_views(lines@);
        if self.plan.builds > 0 {
            let mut line = String::new();
            push_str(&mut line, "Building ");
            let n = usize_to_decimal(self.plan.builds);
            push_str(&mut line, n.as_str());
            push_str(&mut line, " derivations");
            lines.push(line);
            assert(text_views(lines@) =~= l1.push(line@));
        }
        if lines.len() == 0 {
            let mut line = String::new();
            push_str(&mut line, "Nothing to do");
            lines.push(line);
        }
        proof {
            let fetch: Seq<Seq<char>> = if p.fetches.len() > 0 {
                seq![
                    "Fetching "@ + decimal(p.fetches.len()) + " paths"@ + match p.sizes {
                        Some(sz) => " ("@ + sz + ")"@,
                        None => seq![],
                    },
                ]
            } else {
                seq![]
            };
            let build: Seq<Seq<char>> = if p.builds > 0 {
                seq!["Building "@ + decimal(p.builds) + " derivations"@]
            } else {
                seq![]
            };
            if fetch.len() + build.len() == 0 {
                assert(text_views(lines@) =~= seq!["Nothing to do"@]);
            } else {
                assert(text_views(lines@) =~= fetch + build);
            }
        }
        lines
    }

    /// The scrollback: what Nix said, then every finished fetch, then every
    /// finished build.
    pub fn log(&self) -> (lines: Vec<&str>)
        ensures
            crate::strings::str_views(lines@) == self@.notes + self@.fetched_rows + self@.built_rows,
    {
        let mut lines: Vec<&str> = Vec::new();
        let ghost target = self@.notes + self@.fetched_rows + self@.built_rows;
        let mut i: usize = 0;
        while i < self.notes.len()
            invariant
                i <= self.notes@.len(),
                crate::strings::str_views(lines@) == text_views(self.notes@).take(i as int),
            decreases self.notes@.len() - i,
        {
            let ghost before = crate::strings::str_views(lines@);
            let x = self.notes[i].as_str();
            lines.push(x);
            proof {
                assert(crate::strings::str_views(lines@) =~= before.push(x@));
                assert(text_views(self.notes@).take(i + 1) =~= text_views(self.notes@).take(i as int).push(x@));
            }
            assert(crate::strings::str_views(lines@) =~= text_views(self.notes@).take(i + 1));
            i = i + 1;
        }
        assert(text_views(self.notes@).take(self.notes@.len() as int) == text_views(self.notes@));
        let ghost l1 = crate::strings::str_views(lines@);
        let mut i: usize = 0;
        while i < self.fetched_rows.len()
            invariant
                i <= self.fetched_rows@.len(),
                crate::strings::str_views(lines@) == l1 + text_views(self.fetched_rows@).take(i as int),
            decreases self.fetched_rows@.len() - i,
        {
            let ghost before = crate::strings::str_views(lines@);
            let x = self.fetched_rows[i].as_str();
            lines.push(x);
            proof {
                assert(crate::strings::str_views(lines@) =~= before.push(x@));
                assert(text_views(self.fetched_rows@).take(i + 1) =~= text_views(self.fetched_rows@).take(i as int).push(x@));
            }
            assert(crate::strings::str_views(lines@) =~= l1 + text_views(self.fetched_rows@).take(i + 1));
            i = i + 1;
        }
        assert(text_views(self.fetched_rows@).take(self.fetched_rows@.len() as int) == text_views(
            self.fetched_rows@,
        ));
        let ghost l2 = crate::strings::str_views(lines@);
        let mut i: usize = 0;
        while i < self.built_rows.len()
            invariant
                i <= self.built_rows@.len(),
                crate::strings::str_views(lines@) == l2 + text_views(self.built_rows@).take(i as int),
            decreases self.built_rows@.len() - i,
        {
            let ghost before = crate::strings::str_views(lines@);
            let x = self.built_rows[i].as_str();
            lines.push(x);
            proof {
                assert(crate::strings::str_views(lines@) =~= before.push(x@));
                assert(text_views(self.built_rows@).take(i + 1) =~= text_views(self.built_rows@).take(i as int).push(x@));
            }
            assert(crate::strings::str_views(lines@) =~= l2 + text_views(self.built_rows@).take(i + 1));
            i = i + 1;
        }
        assert(text_views(self.built_rows@).take(self.built_rows@.len() as int) == text_views(
            self.built_rows@,
        ));
        lines
    }

    /// Rows for the work in flight, oldest first, numbered on from the
    /// finished count of each kind, at most `limit` of them, and how many did
    /// not fit.
    #[verifier::rlimit(50)]
    pub fn active_rows_at(&self, width: usize, limit: usize, now: u64) -> (r: (Vec<String>, usize))
        ensures
            text_views(r.0@) == active_rows_text(self@, width as nat, limit as nat, now as nat),
            r.1 == if self@.items.len() > limit { self@.items.len() - limit } else { 0 },
    {
        let n = self.items.len();
        let shown = if limit < n {
            limit
        } else {
            n
        };
        let hidden = n - shown;
        let ghost iv = self@.items;
        let ghost vis = iv.take(shown as int);
        let mut nd: usize = if self.fetched < usize::MAX { self.fetched + 1 } else { self.fetched };
        let mut nb: usize = if self.built < usize::MAX { self.built + 1 } else { self.built };
        let mut rows: Vec<String> = Vec::new();
        let mut k: usize = 0;
        assert(vis.skip(0) == vis);
        while k < shown
            invariant
                shown <= n,
                n == self.items@.len(),
                iv == self@.items,
                vis == iv.take(shown as int),
                k <= shown,
                rows_from(self@.plan, self@.frame, vis, sat_inc(self@.fetched), sat_inc(self@.built), width as nat, now as nat)
                    == text_views(rows@) + rows_from(
                    self@.plan,
                    self@.frame,
                    vis.skip(k as int),
                    nd as nat,
                    nb as nat,
                    width as nat,
                    now as nat,
                ),
            decreases shown - k,
        {
            let item = &self.items[k as usize].1;
            proof {
                assert(vis.skip(k as int)[0] == iv[k as int]);
                assert(iv[k as int] == (self.items@[k as int].0, self.items@[k as int].1@));
                assert(vis.skip(k as int).drop_first() == vis.skip(k + 1));
            }
            let ghost before = text_views(rows@);
            match item.kind {
                Kind::Download => {
                    let row = self.row_at(item, false, width, nd, now);
                    rows.push(row);
                    nd = if nd < usize::MAX { nd + 1 } else { nd };
                },
                Kind::Build => {
                    let row = self.row_at(item, false, width, nb, now);
                    rows.push(row);
                    nb = if nb < usize::MAX { nb + 1 } else { nb };
                },
            }
            proof {
                assert(text_views(rows@) =~= before.push(text_views(rows@).last()));
            }
            k = k + 1;
        }
        proof {
            assert(vis.skip(shown as int) =~= Seq::<(u64, ItemView)>::empty());
            assert(text_views(rows@) + Seq::<Seq<char>>::empty() == text_views(rows@));
        }
        (rows, hidden)
    }

    /// Rows for the work in flight, as of now.
    pub fn active_rows(&self, width: usize, limit: usize) -> (r: (Vec<String>, usize))
        ensures
            exists|now: nat| text_views(r.0@) == #[trigger] active_rows_text(self@, width as nat, limit as nat, now),
            r.1 == if self@.items.len() > limit { self@.items.len() - limit } else { 0 },
    {
        let now = clock_ms(&self.origin);
        self.active_rows_at(width, limit, now)
    }

    /// Adopts the transaction once `--dry-run` has reported it.
    pub fn set_plan(&mut self, plan: Plan)
        requires
            monitor_wf(old(self)@),
            crate::progress::plan_fits(plan@),
        ensures
            monitor_wf(final(self)@),
            final(self)@ == (MonitorView { plan: plan@, ..old(self)@ }),
    {
        self.plan = plan;
    }

    /// The overall progress row, if there is a transaction to measure.
    pub fn total_row_at(&self, width: usize, now: u64) -> (r: Option<String>)
        requires
            monitor_wf(self@),
        ensures
            match r {
                Some(s) => total_row_text(self@, width as nat, now as nat) == Some(s@),
                None => total_row_text(self@, width as nat, now as nat) is None,
            },
    {
        let nf = self.plan.fetches.len();
        assert(text_views(self.plan.fetches@).len() == nf);
        let total = nf + self.plan.builds;
        if total == 0 {
            return None;
        }
        let el: u64 = if now >= self.started {
            now - self.started
        } else {
            0
        };
        let finished: u128 = self.fetched as u128 + self.built as u128;
        let num: usize = if finished < total as u128 {
            finished as usize
        } else {
            total
        };
        let mut detail = String::new();
        let r = rate(self.bytes_done, el / 1000, ((el % 1000) * 1_000_000) as u32);
        push_padded(&mut detail, r.as_str(), 12);
        push_str(&mut detail, " ");
        let size = human_bytes(self.bytes_done);
        push_padded(&mut detail, size.as_str(), 10);
        proof {
            lemma_percent_bound(num as nat, total as nat);
            assert((el / 1000) * 1_000_000_000 + (el % 1000) * 1_000_000 == el * 1_000_000);
        }
        let pct: u64 = ((200 * num as u128 + total as u128) / (2 * total as u128)) as u64;
        let mut percent = u64_to_decimal(pct);
        push_str(&mut percent, "%");
        let slot = self.counter_slot(">>>");
        let time = human_duration(el / 1000);
        proof {
            lemma_slot_display(self@.plan);
        }
        Some(
            compose(
                slot.as_str(),
                "Total",
                percent.as_str(),
                detail.as_str(),
                time.as_str(),
                width,
                BarDraw::Fraction(num as u64, total as u64),
            ),
        )
    }

    /// The overall progress row, as of now.
    pub fn total_row(&self, width: usize) -> (r: Option<String>)
        requires
            monitor_wf(self@),
        ensures
            exists|now: nat|
                match #[trigger] total_row_text(self@, width as nat, now) {
                    Some(t) => r matches Some(s) && t == s@,
                    None => r is None,
                },
    {
        let now = clock_ms(&self.origin);
        self.total_row_at(width, now)
    }

    /// The tail of the build output, so a failure can show why.
    pub fn build_log(&self) -> (log: &Vec<String>)
        ensures
            text_views(log@) == self@.build_log,
    {
        &self.build_log
    }

    /// A one-line account of what the transaction did, as of `now`.
    pub fn outcome_at(&self, now: u64) -> (s: String)
        ensures
            s@ == outcome_text(self@, now as nat),
    {
        let mut parts: Vec<String> = Vec::new();
        if self.fetched > 0 {
            let mut p = usize_to_decimal(self.fetched);
            push_str(&mut p, " fetched");
            parts.push(p);
        }
        if self.built > 0 {
            let mut p = usize_to_decimal(self.built);
            push_str(&mut p, " built");
            parts.push(p);
        }
        if parts.len() == 0 {
            let mut p = String::new();
            push_str(&mut p, "nothing to do");
            parts.push(p);
        }
        let mut s = String::new();
        let mut k: usize = 0;
        let ghost pv = text_views(parts@);
        while k < parts.len()
            invariant
                k <= parts@.len(),
                pv == text_views(parts@),
                s@ == crate::strings::joined(pv.take(k as int), ", "@),
            decreases parts@.len() - k,
        {
            let ghost part = pv.take(k + 1);
            assert(part.drop_last() == pv.take(k as int));
            assert(part.last() == parts@[k as int]@);
            if k > 0 {
                push_str(&mut s, ", ");
            }
            push_str(&mut s, parts[k].as_str());
            proof {
                if k == 0 {
                    assert(part.len() == 1);
                    assert(s@ =~= part[0]);
                }
            }
            k = k + 1;
        }
        assert(pv.take(parts@.len() as int) == pv);
        push_str(&mut s, " in ");
        let el: u64 = if now >= self.started {
            now - self.started
        } else {
            0
        };
        let d = human_duration(el / 1000);
        push_str(&mut s, d.as_str());
        proof {
            let expect: Seq<Seq<char>> = (if self@.fetched > 0 {
                seq![decimal(self@.fetched) + " fetched"@]
            } else {
                seq![]
            }) + (if self@.built > 0 {
                seq![decimal(self@.built) + " built"@]
            } else {
                seq![]
            });
            if expect.len() == 0 {
                assert(pv =~= seq!["nothing to do"@]);
            } else {
                assert(pv =~= expect);
            }
        }
        s
    }

    /// A one-line account of what the transaction did, as of now.
    pub fn outcome(&self) -> (s: String)
        ensures
            exists|now: nat| s@ == #[trigger] outcome_text(self@, now),
    {
        let now = clock_ms(&self.origin);
        self.outcome_at(now)
    }

    /// Advances the animation of indeterminate bars to the frame of `now`:
    /// one frame every 120 ms since the monitor started.
    pub fn tick_at(&mut self, now: u64)
        ensures
            final(self)@ == (MonitorView {
                frame: (elapsed(now as nat, old(self)@.started) / 120) as usize as nat,
                ..old(self)@
            }),
    {
        let el: u64 = if now >= self.started {
            now - self.started
        } else {
            0
        };
        self.frame = (el / 120) as usize;
    }

    /// Advances the animation of indeterminate bars to the present frame.
    pub fn tick(&mut self)
        ensures
            exists|now: nat|
                final(self)@ == (MonitorView {
                    frame: (#[trigger] elapsed(now, old(self)@.started) / 120) as usize as nat,
                    ..old(self)@
                }),
    {
        let now = clock_ms(&self.origin);
        self.tick_at(now);
    }
}

proof fn lemma_slot_display(p: PlanView)
    requires
        p.fetches.len() <= usize::MAX,
        p.builds <= usize::MAX,
    ensures
        display_width_of(right_aligned(">>>"@, decimal(widest_total(p)).len() * 2 + 3)) + 68 <= usize::MAX,
{
    let x = right_aligned(">>>"@, decimal(widest_total(p)).len() * 2 + 3);
    crate::progress::lemma_width_from_bound(x, false);
    crate::text::lemma_decimal_len_bound(widest_total(p));
    reveal_strlit(">>>");
}


pub enum FieldView {
    Int(u64),
    Text(Seq<char>),
    Other,
}

pub open spec fn field_view(f: Field) -> FieldView {
    match f {
        Field::Int(n) => FieldView::Int(n),
        Field::Text(t) => FieldView::Text(t@),
        Field::Other => FieldView::Other,
    }
}

pub struct EventView {
    pub action: Seq<char>,
    pub id: u64,
    pub fields: Seq<FieldView>,
    pub kind: u64,
    pub msg: Option<Seq<char>>,
    pub level: u64,
}

impl View for Event {
    type V = EventView;

    open spec fn view(&self) -> EventView {
        EventView {
            action: self.action@,
            id: self.id,
            fields: self.fields@.map_values(|f: Field| field_view(f)),
            kind: self.kind,
            msg: match self.msg {
                Some(m) => Some(m@),
                None => None,
            },
            level: self.level,
        }
    }
}

/// The integer at `i`, if that field is one.
pub open spec fn field_int(fs: Seq<FieldView>, i: int) -> Option<u64> {
    if 0 <= i < fs.len() {
        match fs[i] {
            FieldView::Int(n) => Some(n),
            _ => None,
        }
    } else {
        None
    }
}

/// The text at `i`, if that field is one.
pub open spec fn field_text(fs: Seq<FieldView>, i: int) -> Option<Seq<char>> {
    if 0 <= i < fs.len() {
        match fs[i] {
            FieldView::Text(t) => Some(t),
            _ => None,
        }
    } else {
        None
    }
}

/// Where the item `id` is, or -1.
pub open spec fn find_item(items: Seq<(u64, ItemView)>, id: u64) -> int
    decreases items.len(),
{
    if items.len() == 0 {
        -1
    } else if items.last().0 == id {
        items.len() - 1
    } else {
        find_item(items.drop_last(), id)
    }
}

/// Where an item `id` goes to keep the ids increasing.
pub open spec fn insert_position(items: Seq<(u64, ItemView)>, id: u64) -> nat
    decreases items.len(),
{
    if items.len() == 0 || items[0].0 >= id {
        0
    } else {
        1 + insert_position(items.drop_first(), id)
    }
}

/// The items with `it` as the item `id`, in its place.
pub open spec fn upsert(items: Seq<(u64, ItemView)>, id: u64, it: ItemView) -> Seq<(u64, ItemView)> {
    let p = insert_position(items, id) as int;
    if p < items.len() && items[p].0 == id {
        items.update(p, (id, it))
    } else {
        items.insert(p, (id, it))
    }
}

pub open spec fn sat_add(a: nat, b: nat) -> nat {
    if a + b <= u64::MAX {
        a + b
    } else {
        u64::MAX as nat
    }
}

/// A `start`: a build, or a fetch the plan announced, joins the items in
/// flight; anything else (a local copy, say) is ignored.
pub open spec fn on_start(m: MonitorView, e: EventView, now: nat) -> MonitorView {
    match field_text(e.fields, 0) {
        None => m,
        Some(path) => {
            let kind = if e.kind == act_build() {
                Some(Kind::Build)
            } else if e.kind == act_copy_path() && holds_text(m.plan.fetches, path) {
                Some(Kind::Download)
            } else {
                None
            };
            match kind {
                None => m,
                Some(k) => MonitorView {
                    items: upsert(
                        m.items,
                        e.id,
                        ItemView { kind: k, name: store_name_of(path), done: 0, expected: 0, phase: None, started: now },
                    ),
                    ..m
                },
            }
        },
    }
}

/// A `result`: progress and phase updates for an item in flight, or a line
/// of build output for the tail of the log.
pub open spec fn on_result(m: MonitorView, e: EventView) -> MonitorView {
    let i = find_item(m.items, e.id);
    if e.kind == res_progress() {
        if i < 0 {
            m
        } else {
            let it = m.items[i].1;
            let done = match field_int(e.fields, 0) {
                Some(n) => n as nat,
                None => 0,
            };
            let expected = match field_int(e.fields, 1) {
                Some(n) => n as nat,
                None => 0,
            };
            MonitorView { items: m.items.update(i, (e.id, ItemView { done, expected, ..it })), ..m }
        }
    } else if e.kind == res_set_phase() {
        match field_text(e.fields, 0) {
            Some(ph) => if i < 0 {
                m
            } else {
                let it = m.items[i].1;
                MonitorView { items: m.items.update(i, (e.id, ItemView { phase: Some(ph), ..it })), ..m }
            },
            None => m,
        }
    } else if e.kind == res_build_log_line() {
        match field_text(e.fields, 0) {
            Some(line) => {
                let log = m.build_log.push(line);
                MonitorView {
                    build_log: if log.len() > log_tail() {
                        log.drop_first()
                    } else {
                        log
                    },
                    ..m
                }
            },
            None => m,
        }
    } else {
        m
    }
}

/// A `stop`: the item leaves the flight, its finished row joins the run of
/// its kind, numbered next, and a fetch adds its size to the bytes done.
pub open spec fn on_stop(m: MonitorView, id: u64, width: nat, now: nat) -> MonitorView {
    let i = find_item(m.items, id);
    if i < 0 {
        m
    } else {
        let it = m.items[i].1;
        let line = item_row(m.plan, m.frame, it, true, width, next_ordinal(m, it.kind), now);
        let rest = m.items.remove(i);
        match it.kind {
            Kind::Download => MonitorView {
                items: rest,
                bytes_done: sat_add(
                    m.bytes_done,
                    if it.expected > it.done {
                        it.expected
                    } else {
                        it.done
                    },
                ),
                fetched: sat_inc(m.fetched),
                fetched_rows: m.fetched_rows.push(line),
                ..m
            },
            Kind::Build => MonitorView {
                items: rest,
                built: sat_inc(m.built),
                built_rows: m.built_rows.push(line),
                ..m
            },
        }
    }
}

/// What an event does to the monitor; a message is kept only at error or
/// warning level.
pub open spec fn after_event(m: MonitorView, e: EventView, width: nat, now: nat) -> MonitorView {
    if e.action == "start"@ {
        on_start(m, e, now)
    } else if e.action == "result"@ {
        on_result(m, e)
    } else if e.action == "stop"@ {
        on_stop(m, e.id, width, now)
    } else if e.action == "msg"@ {
        match e.msg {
            Some(msg) => if e.level <= 1 {
                MonitorView { notes: m.notes.push(msg), ..m }
            } else {
                m
            },
            None => m,
        }
    } else {
        m
    }
}

fn field_int_of(fs: &Vec<Field>, i: usize) -> (r: Option<u64>)
    ensures
        r == field_int(fs@.map_values(|f: Field| field_view(f)), i as int),
{
    if i < fs.len() {
        match &fs[i] {
            Field::Int(n) => Some(*n),
            _ => None,
        }
    } else {
        None
    }
}

fn field_text_of(fs: &Vec<Field>, i: usize) -> (r: Option<&str>)
    ensures
        match r {
            Some(t) => field_text(fs@.map_values(|f: Field| field_view(f)), i as int) == Some(t@),
            None => field_text(fs@.map_values(|f: Field| field_view(f)), i as int) is None,
        },
{
    if i < fs.len() {
        match &fs[i] {
            Field::Text(t) => Some(t.as_str()),
            _ => None,
        }
    } else {
        None
    }
}

impl Monitor {
    fn find(&self, id: u64) -> (r: Option<usize>)
        ensures
            match r {
                Some(i) => find_item(self@.items, id) == i as int && i < self.items@.len(),
                None => find_item(self@.items, id) < 0,
            },
    {
        let ghost iv = self@.items;
        let mut k = self.items.len();
        assert(iv.take(k as int) == iv);
        while k > 0
            invariant
                k <= self.items@.len(),
                iv == self@.items,
                find_item(iv, id) == find_item(iv.take(k as int), id),
            decreases k,
        {
            assert(iv.take(k as int).last() == iv[k - 1]);
            assert(iv.take(k as int).drop_last() == iv.take(k - 1));
            if self.items[k - 1].0 == id {
                return Some(k - 1);
            }
            k = k - 1;
        }
        None
    }

    fn insert_index(&self, id: u64) -> (p: usize)
        ensures
            p == insert_position(self@.items, id),
            p <= self.items@.len(),
    {
        let ghost iv = self@.items;
        let mut p: usize = 0;
        assert(iv.skip(0) == iv);
        while p < self.items.len() && self.items[p].0 < id
            invariant
                p <= self.items@.len(),
                iv == self@.items,
                insert_position(iv, id) == p + insert_position(iv.skip(p as int), id),
            decreases self.items@.len() - p,
        {
            assert(iv.skip(p as int)[0] == iv[p as int]);
            assert(iv.skip(p as int).drop_first() == iv.skip(p + 1));
            p = p + 1;
        }
        proof {
            if p < self.items@.len() {
                assert(iv.skip(p as int)[0] == iv[p as int]);
            }
        }
        p
    }

    /// Applies one event of Nix's log, as of `now`.
    pub fn handle_event_at(&mut self, event: &Event, width: usize, now: u64)
        requires
            monitor_wf(old(self)@),
        ensures
            monitor_wf(final(self)@),
            final(self)@ == after_event(old(self)@, event@, width as nat, now as nat),
    {
        let ghost m0 = self@;
        let ghost ev = event@;
        let a = event.action.as_str();
        if str_eq(a, "start") {
            self.on_start_at(event, now);
        } else if str_eq(a, "result") {
            self.on_result(event);
        } else if str_eq(a, "stop") {
            self.on_stop_at(event.id, width, now);
        } else if str_eq(a, "msg") {
            match &event.msg {
                Some(msg) => {
                    if event.level <= 1 {
                        let ghost n0 = text_views(self.notes@);
                        self.notes.push(msg.clone());
                        assert(text_views(self.notes@) =~= n0.push(msg@));
                    }
                },
                None => {},
            }
        }
    }

    /// Applies one event of Nix's log, as of now.
    pub fn handle_event(&mut self, event: &Event, width: usize)
        requires
            monitor_wf(old(self)@),
        ensures
            monitor_wf(final(self)@),
            exists|now: nat| final(self)@ == #[trigger] after_event(old(self)@, event@, width as nat, now),
    {
        let now = clock_ms(&self.origin);
        self.handle_event_at(event, width, now);
    }

    fn on_start_at(&mut self, event: &Event, now: u64)
        requires
            monitor_wf(old(self)@),
        ensures
            monitor_wf(final(self)@),
            final(self)@ == on_start(old(self)@, event@, now as nat),
    {
        let path = match field_text_of(&event.fields, 0) {
            Some(p) => p,
            None => {
                return;
            },
        };
        let kind = if event.kind == 105 {
            Kind::Build
        } else if event.kind == 100 && self.plan.fetches_path(path) {
            Kind::Download
        } else {
            return;
        };
        let item = Item { kind, name: store_name(path), done: 0, expected: 0, phase: None, started: now };
        let ghost iv = self@.items;
        let p = self.insert_index(event.id);
        let ghost it = item@;
        if p < self.items.len() && self.items[p].0 == event.id {
            self.items.set(p, (event.id, item));
            proof {
                assert(item_views(self.items@) =~= iv.update(p as int, (event.id, it)));
            }
        } else {
            self.items.insert(p, (event.id, item));
            proof {
                assert(item_views(self.items@) =~= iv.insert(p as int, (event.id, it)));
                lemma_insert_position(iv, event.id);
            }
        }
        proof {
            lemma_insert_position(iv, event.id);
            assert forall|i: int, j: int| 0 <= i < j < self@.items.len() implies self@.items[i].0 < self@.items[j].0 by {
                assert(self@.items == upsert(iv, event.id, it));
            }
        }
    }

    fn on_result(&mut self, event: &Event)
        requires
            monitor_wf(old(self)@),
        ensures
            monitor_wf(final(self)@),
            final(self)@ == on_result(old(self)@, event@),
    {
        let ghost iv = self@.items;
        if event.kind == 105 {
            match self.find(event.id) {
                Some(i) => {
                    let (id, mut it) = self.items.remove(i);
                    it.done = match field_int_of(&event.fields, 0) {
                        Some(n) => n,
                        None => 0,
                    };
                    it.expected = match field_int_of(&event.fields, 1) {
                        Some(n) => n,
                        None => 0,
                    };
                    let ghost itv = it@;
                    self.items.insert(i, (id, it));
                    proof {
                        lemma_find_item(iv, event.id);
                        assert(item_views(self.items@) =~= iv.update(i as int, (event.id, itv)));
                    }
                },
                None => {},
            }
        } else if event.kind == 104 {
            match field_text_of(&event.fields, 0) {
                Some(ph) => match self.find(event.id) {
                    Some(i) => {
                        let (id, mut it) = self.items.remove(i);
                        it.phase = Some(ph.to_owned());
                        let ghost itv = it@;
                        self.items.insert(i, (id, it));
                        proof {
                            lemma_find_item(iv, event.id);
                            assert(item_views(self.items@) =~= iv.update(i as int, (event.id, itv)));
                        }
                    },
                    None => {},
                },
                None => {},
            }
        } else if event.kind == 101 {
            match field_text_of(&event.fields, 0) {
                Some(line) => {
                    let ghost l0 = text_views(self.build_log@);
                    self.build_log.push(line.to_owned());
                    assert(text_views(self.build_log@) =~= l0.push(line@));
                    if self.build_log.len() > 40 {
                        let ghost l1 = text_views(self.build_log@);
                        self.build_log.remove(0);
                        assert(text_views(self.build_log@) =~= l1.drop_first());
                    }
                },
                None => {},
            }
        }
    }

    fn on_stop_at(&mut self, id: u64, width: usize, now: u64)
        requires
            monitor_wf(old(self)@),
        ensures
            monitor_wf(final(self)@),
            final(self)@ == on_stop(old(self)@, id, width as nat, now as nat),
    {
        let ghost m0 = self@;
        let i = match self.find(id) {
            Some(i) => i,
            None => {
                return;
            },
        };
        let ordinal = match self.items[i].1.kind {
            Kind::Download => if self.fetched < usize::MAX { self.fetched + 1 } else { self.fetched },
            Kind::Build => if self.built < usize::MAX { self.built + 1 } else { self.built },
        };
        let line = self.row_at(&self.items[i].1, true, width, ordinal, now);
        let (_, item) = self.items.remove(i);
        proof {
            assert(item_views(self.items@) =~= m0.items.remove(i as int));
            assert(m0.items[i as int].1 == item@);
        }
        match item.kind {
            Kind::Download => {
                let total = if item.expected > item.done {
                    item.expected
                } else {
                    item.done
                };
                self.bytes_done = self.bytes_done.saturating_add(total);
                self.fetched = if self.fetched < usize::MAX { self.fetched + 1 } else { self.fetched };
                let ghost r0 = text_views(self.fetched_rows@);
                self.fetched_rows.push(line);
                assert(text_views(self.fetched_rows@) =~= r0.push(line@));
            },
            Kind::Build => {
                self.built = if self.built < usize::MAX { self.built + 1 } else { self.built };
                let ghost r0 = text_views(self.built_rows@);
                self.built_rows.push(line);
                assert(text_views(self.built_rows@) =~= r0.push(line@));
            },
        }
        proof {
            let rest = m0.items.remove(i as int);
            assert forall|a: int, b: int| 0 <= a < b < rest.len() implies rest[a].0 < rest[b].0 by {
                if a < i {
                    if b < i {
                        assert(rest[a] == m0.items[a] && rest[b] == m0.items[b]);
                    } else {
                        assert(rest[a] == m0.items[a] && rest[b] == m0.items[b + 1]);
                    }
                } else {
                    assert(rest[a] == m0.items[a + 1] && rest[b] == m0.items[b + 1]);
                }
            }
        }
    }

    /// Keeps a line Nix printed outside its structured log, unless it is blank.
    pub fn note_line(&mut self, line: &str)
        ensures
            final(self)@ == (MonitorView {
                notes: if crate::strings::trimmed(line@).len() > 0 {
                    old(self)@.notes.push(line@)
                } else {
                    old(self)@.notes
                },
                ..old(self)@
            }),
    {
        if crate::strings::trim(line).unicode_len() > 0 {
            let ghost n0 = text_views(self.notes@);
            self.notes.push(line.to_owned());
            assert(text_views(self.notes@) =~= n0.push(line@));
        }
    }
}

/// The structured payload of a log line: what follows `@nix `.
pub fn nix_payload(line: &str) -> (r: Option<&str>)
    ensures
        match r {
            Some(p) => crate::strings::starts_with(line@, "@nix "@) && p@ == line@.skip(5),
            None => !crate::strings::starts_with(line@, "@nix "@),
        },
{
    if crate::strings::starts_with_text(line, "@nix ") {
        proof {
            reveal_strlit("@nix ");
        }
        let n = line.unicode_len();
        Some(line.substring_char(5, n))
    } else {
        None
    }
}

proof fn lemma_find_item(items: Seq<(u64, ItemView)>, id: u64)
    ensures
        find_item(items, id) >= 0 ==> find_item(items, id) < items.len() && items[find_item(items, id)].0 == id,
    decreases items.len(),
{
    if items.len() > 0 && items.last().0 != id {
        lemma_find_item(items.drop_last(), id);
    }
}

proof fn lemma_insert_position(items: Seq<(u64, ItemView)>, id: u64)
    requires
        forall|i: int, j: int| 0 <= i < j < items.len() ==> items[i].0 < items[j].0,
    ensures
        insert_position(items, id) <= items.len(),
        forall|k: int| 0 <= k < insert_position(items, id) ==> items[k].0 < id,
        forall|k: int| insert_position(items, id) <= k < items.len() ==> items[k].0 >= id,
    decreases items.len(),
{
    if items.len() > 0 && items[0].0 < id {
        let rest = items.drop_first();
        assert forall|i: int, j: int| 0 <= i < j < rest.len() implies rest[i].0 < rest[j].0 by {
            assert(rest[i] == items[i + 1] && rest[j] == items[j + 1]);
        }
        lemma_insert_position(rest, id);
        assert forall|k: int| 1 <= k < insert_position(items, id) implies items[k].0 < id by {
            assert(rest[k - 1] == items[k]);
        }
        assert forall|k: int| insert_position(items, id) <= k < items.len() implies items[k].0 >= id by {
            assert(rest[k - 1] == items[k]);
        }
    } else if items.len() > 0 {
        assert forall|k: int| 0 <= k < items.len() implies items[k].0 >= id by {
            if k > 0 {
                assert(items[0].0 < items[k].0);
            }
        }
    }
}

/// The scrollback counts up within each kind: an event adds at most one row
/// to the run of each kind, the row of the item it finishes, numbered one
/// past the rows of that kind already there, and the count of each kind
/// keeps up with its run.
pub proof fn law_scrollback_counts_up(m: MonitorView, e: EventView, width: nat, now: nat)
    requires
        m.fetched_rows.len() == m.fetched,
        m.built_rows.len() == m.built,
        m.fetched < usize::MAX,
        m.built < usize::MAX,
    ensures
        ({
            let n = after_event(m, e, width, now);
            &&& n.fetched_rows.len() == n.fetched
            &&& n.built_rows.len() == n.built
            &&& n.fetched_rows == m.fetched_rows || exists|it: ItemView|
                it.kind == Kind::Download && n.fetched_rows == m.fetched_rows.push(
                    #[trigger] item_row(m.plan, m.frame, it, true, width, n.fetched_rows.len(), now),
                )
            &&& n.built_rows == m.built_rows || exists|it: ItemView|
                it.kind == Kind::Build && n.built_rows == m.built_rows.push(
                    #[trigger] item_row(m.plan, m.frame, it, true, width, n.built_rows.len(), now),
                )
        }),
{
    let n = after_event(m, e, width, now);
    if e.action == "stop"@ && !(e.action == "start"@) && !(e.action == "result"@) {
        let i = find_item(m.items, e.id);
        if i >= 0 {
            let it = m.items[i].1;
            assert(n.fetched_rows.len() == m.fetched_rows.len() + 1 ==> n.fetched_rows == m.fetched_rows.push(
                item_row(m.plan, m.frame, it, true, width, n.fetched_rows.len(), now),
            ));
            assert(n.built_rows.len() == m.built_rows.len() + 1 ==> n.built_rows == m.built_rows.push(
                item_row(m.plan, m.frame, it, true, width, n.built_rows.len(), now),
            ));
        }
    }
}

} // verus!
