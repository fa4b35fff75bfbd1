//! What the progress display promises about columns: bars and marquees fill
//! exactly their width, names fill exactly their column, and no row is wider
//! than the terminal.
use vstd::prelude::*;

use crate::progress::{
    bar_full, bar_half, bar_halves, bar_text, bar_track, composed, cut, cyan, dim,
    display_width_of, esc, fitted, green, marquee_position, marquee_text, repeated, reset,
    truncated, width_from, BarDraw,
};
use crate::strings::is_ascii_alphabetic;

verus! {

/// Whether reading `s` from state `in_escape` ends inside an escape sequence.
pub open spec fn escape_after(s: Seq<char>, in_escape: bool) -> bool
    decreases s.len(),
{
    if s.len() == 0 {
        in_escape
    } else if in_escape {
        escape_after(s.drop_first(), !is_ascii_alphabetic(s[0]))
    } else if s[0] == esc() {
        escape_after(s.drop_first(), true)
    } else {
        escape_after(s.drop_first(), false)
    }
}

/// The columns of two texts one after the other add up, the second read from
/// where the first left off.
pub proof fn lemma_width_concat(a: Seq<char>, b: Seq<char>, e: bool)
    ensures
        width_from(a + b, e) == width_from(a, e) + width_from(b, escape_after(a, e)),
    decreases a.len(),
{
    if a.len() > 0 {
        assert((a + b).drop_first() =~= a.drop_first() + b);
        assert((a + b)[0] == a[0]);
        if e {
            lemma_width_concat(a.drop_first(), b, !is_ascii_alphabetic(a[0]));
        } else if a[0] == esc() {
            lemma_width_concat(a.drop_first(), b, true);
        } else {
            lemma_width_concat(a.drop_first(), b, false);
        }
    } else {
        assert(a + b =~= b);
    }
}

/// A run of one character that starts no escape takes one column each and
/// leaves no escape open.
pub proof fn lemma_repeated_width(c: char, n: nat)
    requires
        c != esc(),
    ensures
        width_from(repeated(c, n), false) == n,
        !escape_after(repeated(c, n), false),
    decreases n,
{
    if n > 0 {
        assert(repeated(c, n).drop_first() =~= repeated(c, (n - 1) as nat));
        lemma_repeated_width(c, (n - 1) as nat);
    } else {
        assert(repeated(c, n) =~= Seq::<char>::empty());
    }
}

/// A colour code takes no columns and closes itself.
pub proof fn lemma_code_width(code: Seq<char>, e: bool)
    requires
        code == green() || code == dim() || code == cyan() || code == reset(),
    ensures
        width_from(code, e) == 0,
        !escape_after(code, e),
{
    reveal_strlit("\u{1b}[32m");
    reveal_strlit("\u{1b}[90m");
    reveal_strlit("\u{1b}[36m");
    reveal_strlit("\u{1b}[0m");
    reveal_with_fuel(width_from, 6);
    reveal_with_fuel(escape_after, 6);
    assert(code.len() >= 4);
    assert(code[0] == esc());
    let s1 = code.drop_first();
    let s2 = s1.drop_first();
    let s3 = s2.drop_first();
    let s4 = s3.drop_first();
    assert(s1[0] == '[');
    assert(!is_ascii_alphabetic(code[0]));
    if code.len() == 5 {
        assert(!is_ascii_alphabetic(s2[0]));
        assert(!is_ascii_alphabetic(s3[0]));
        assert(s4[0] == 'm');
        assert(s4.drop_first().len() == 0);
    } else {
        assert(code == reset());
        assert(!is_ascii_alphabetic(s2[0]));
        assert(s3[0] == 'm');
        assert(s4.len() == 0);
    }
}

/// The columns of a text put together from closed pieces.
proof fn lemma_width_parts(a: Seq<char>, b: Seq<char>)
    requires
        !escape_after(a, false),
    ensures
        width_from(a + b, false) == width_from(a, false) + width_from(b, false),
        escape_after(a + b, false) == escape_after(b, false),
    decreases a.len(),
{
    lemma_width_concat(a, b, false);
    lemma_escape_concat(a, b, false);
}

proof fn lemma_escape_concat(a: Seq<char>, b: Seq<char>, e: bool)
    ensures
        escape_after(a + b, e) == escape_after(b, escape_after(a, e)),
    decreases a.len(),
{
    if a.len() > 0 {
        assert((a + b).drop_first() =~= a.drop_first() + b);
        assert((a + b)[0] == a[0]);
        if e {
            lemma_escape_concat(a.drop_first(), b, !is_ascii_alphabetic(a[0]));
        } else if a[0] == esc() {
            lemma_escape_concat(a.drop_first(), b, true);
        } else {
            lemma_escape_concat(a.drop_first(), b, false);
        }
    } else {
        assert(a + b =~= b);
    }
}

/// A progress bar for any fraction fills exactly its width.
pub proof fn law_bar_fills_its_width(num: nat, den: nat, width: nat)
    requires
        den > 0,
    ensures
        display_width_of(bar_text(num, den, width)) == width,
{
    let halves = bar_halves(num, den, width);
    let full = if halves / 2 < width {
        halves / 2
    } else {
        width
    };
    let half = halves % 2 > 0 && full < width;
    let used = if half {
        full + 1
    } else {
        full
    };
    let h: Seq<char> = if half {
        seq![bar_half()]
    } else {
        seq![]
    };
    let p1 = green();
    let p2 = repeated(bar_full(), full);
    let p4 = dim();
    let p5 = repeated(bar_track(), (width - used) as nat);
    let p6 = reset();
    lemma_code_width(p1, false);
    lemma_code_width(p4, false);
    lemma_code_width(p6, false);
    lemma_repeated_width(bar_full(), full);
    lemma_repeated_width(bar_track(), (width - used) as nat);
    reveal_with_fuel(width_from, 2);
    reveal_with_fuel(escape_after, 2);
    assert(width_from(h, false) == (if half { 1nat } else { 0nat }));
    assert(!escape_after(h, false));
    let t5 = p5 + p6;
    lemma_width_parts(p5, p6);
    let t4 = p4 + t5;
    lemma_width_parts(p4, t5);
    let t3 = h + t4;
    lemma_width_parts(h, t4);
    let t2 = p2 + t3;
    lemma_width_parts(p2, t3);
    let t1 = p1 + t2;
    lemma_width_parts(p1, t2);
    assert(bar_text(num, den, width) =~= t1);
}

/// The sliding segment of an indeterminate bar fills exactly its width at
/// every frame.
pub proof fn law_marquee_fills_its_width(frame: nat, width: nat)
    ensures
        display_width_of(marquee_text(frame, width)) == width,
{
    let span = if width < 5 {
        width
    } else {
        5
    };
    let position = marquee_position(frame, width);
    let travel = (width - span) as nat;
    if travel > 0 {
        let cycle = travel * 2;
        assert(frame % cycle < cycle) by (nonlinear_arith)
            requires
                cycle > 0,
        ;
    }
    assert(position + span <= width);
    let p1 = dim();
    let p2 = repeated(bar_track(), position);
    let p3 = cyan();
    let p4 = repeated(bar_full(), span);
    let p5 = dim();
    let p6 = repeated(bar_track(), (width - position - span) as nat);
    let p7 = reset();
    lemma_code_width(p1, false);
    lemma_code_width(p3, false);
    lemma_code_width(p5, false);
    lemma_code_width(p7, false);
    lemma_repeated_width(bar_track(), position);
    lemma_repeated_width(bar_full(), span);
    lemma_repeated_width(bar_track(), (width - position - span) as nat);
    let t6 = p6 + p7;
    lemma_width_parts(p6, p7);
    let t5 = p5 + t6;
    lemma_width_parts(p5, t6);
    let t4 = p4 + t5;
    lemma_width_parts(p4, t5);
    let t3 = p3 + t4;
    lemma_width_parts(p3, t4);
    let t2 = p2 + t3;
    lemma_width_parts(p2, t3);
    let t1 = p1 + t2;
    lemma_width_parts(p1, t2);
    assert(marquee_text(frame, width) =~= t1);
}

/// A name fitted to a column has exactly the column's width in characters.
pub proof fn law_fitted_fills_its_column(name: Seq<char>, width: nat)
    ensures
        fitted(name, width).len() == width,
{
}

proof fn lemma_cut_width(s: Seq<char>, width: nat, used: nat, e: bool)
    requires
        used + 1 <= width || used == 0,
    ensures
        width_from(cut(s, width, used, e), e) + used <= (if width > 0 {
            (width - 1) as nat
        } else {
            0
        }),
    decreases s.len(),
{
    if s.len() > 0 {
        let rest = s.drop_first();
        if e {
            let e2 = !is_ascii_alphabetic(s[0]);
            lemma_cut_width(rest, width, used, e2);
            let c = cut(rest, width, used, e2);
            assert((seq![s[0]] + c).drop_first() =~= c);
        } else if s[0] == esc() {
            lemma_cut_width(rest, width, used, true);
            let c = cut(rest, width, used, true);
            assert((seq![s[0]] + c).drop_first() =~= c);
        } else if used + 1 >= width {
        } else {
            lemma_cut_width(rest, width, used + 1, false);
            let c = cut(rest, width, used + 1, false);
            assert((seq![s[0]] + c).drop_first() =~= c);
        }
    }
}

/// A line truncated to a width takes at most that many columns.
pub proof fn law_truncated_fits(line: Seq<char>, width: nat)
    ensures
        display_width_of(truncated(line, width)) <= width,
{
    if display_width_of(line) > width {
        let c = cut(line, width, 0, false);
        lemma_cut_width(line, width, 0, false);
        lemma_width_concat(c, reset(), false);
        lemma_code_width(reset(), escape_after(c, false));
    }
}

/// Every progress row fits the terminal it is laid out for; `compose` states
/// it of each row it returns.
pub proof fn law_rows_fit_the_terminal(
    counter: Seq<char>,
    name: Seq<char>,
    percent: Seq<char>,
    detail: Seq<char>,
    time: Seq<char>,
    width: nat,
    draw: BarDraw,
)
    ensures
        display_width_of(composed(counter, name, percent, detail, time, width, draw)) <= width,
{
    let name_col = crate::progress::name_column_for(width);
    let fixed = display_width_of(counter) + name_col + 23 + 4 + 6 + 5;
    let room = if width > fixed {
        (width - fixed) as nat
    } else {
        0
    };
    let bar_width = if room < 28 {
        room
    } else {
        28
    };
    let bar = if bar_width >= 6 {
        crate::progress::drawn(draw, bar_width)
    } else {
        seq![]
    };
    let row = counter + " "@ + fitted(name, name_col) + " "@ + bar + " "@
        + crate::progress::right_aligned(percent, 4) + " "@ + fitted(detail, 23) + " "@ + time;
    law_truncated_fits(row, width);
}

/// Whether a text holds no escape character.
pub open spec fn plain_text(s: Seq<char>) -> bool {
    forall|i: int| 0 <= i < s.len() ==> s[i] != esc()
}

proof fn lemma_plain_width(s: Seq<char>)
    requires
        plain_text(s),
    ensures
        width_from(s, false) == s.len(),
        !escape_after(s, false),
    decreases s.len(),
{
    if s.len() > 0 {
        assert(plain_text(s.drop_first()));
        lemma_plain_width(s.drop_first());
    }
}

proof fn lemma_cut_exact(s: Seq<char>, width: nat, used: nat, e: bool)
    requires
        used + 1 <= width,
        width_from(s, e) + used >= width,
    ensures
        width_from(cut(s, width, used, e), e) + used == width - 1,
    decreases s.len(),
{
    if s.len() > 0 {
        let rest = s.drop_first();
        if e {
            let e2 = !is_ascii_alphabetic(s[0]);
            lemma_cut_exact(rest, width, used, e2);
            let c = cut(rest, width, used, e2);
            assert((seq![s[0]] + c).drop_first() =~= c);
        } else if s[0] == esc() {
            lemma_cut_exact(rest, width, used, true);
            let c = cut(rest, width, used, true);
            assert((seq![s[0]] + c).drop_first() =~= c);
        } else if used + 1 >= width {
        } else {
            lemma_cut_exact(rest, width, used + 1, false);
            let c = cut(rest, width, used + 1, false);
            assert((seq![s[0]] + c).drop_first() =~= c);
        }
    }
}

/// The columns a line takes once truncated to `width`: all of them when it
/// fits, else one fewer than the width, the last column left for the cut.
pub open spec fn truncated_width(w: nat, width: nat) -> nat {
    if w <= width {
        w
    } else if width == 0 {
        0
    } else {
        (width - 1) as nat
    }
}

/// How many columns a line takes once truncated depends only on how many it
/// took before.
pub proof fn law_truncated_width(line: Seq<char>, width: nat)
    ensures
        display_width_of(truncated(line, width)) == truncated_width(display_width_of(line), width),
{
    if display_width_of(line) > width {
        let c = cut(line, width, 0, false);
        if width > 0 {
            lemma_cut_exact(line, width, 0, false);
        } else {
            lemma_cut_width(line, width, 0, false);
        }
        lemma_width_concat(c, reset(), false);
        lemma_code_width(reset(), escape_after(c, false));
    }
}

/// The columns of an untruncated row: its pieces side by side, separated by
/// single spaces.
pub open spec fn row_columns(counter_width: nat, name_col: nat, bar_width: nat, percent_len: nat, time_len: nat) -> nat {
    counter_width + 1 + name_col + 1 + bar_width + 1 + (if percent_len < 4 { 4 } else { percent_len }) + 1 + 23
        + 1 + time_len
}

proof fn lemma_fitted_plain(name: Seq<char>, width: nat)
    requires
        plain_text(name),
    ensures
        plain_text(fitted(name, width)),
{
    let f = fitted(name, width);
    assert forall|i: int| 0 <= i < f.len() implies f[i] != esc() by {
        if name.len() <= width && i >= name.len() {
            assert(f[i] == ' ');
        }
    }
}

proof fn lemma_aligned_plain(p: Seq<char>, width: nat)
    requires
        plain_text(p),
    ensures
        plain_text(crate::progress::right_aligned(p, width)),
        crate::progress::right_aligned(p, width).len() == (if p.len() < width { width } else { p.len() }),
{
    let r = crate::progress::right_aligned(p, width);
    assert forall|i: int| 0 <= i < r.len() implies r[i] != esc() by {
        if p.len() < width {
            if i < width - p.len() {
                assert(r[i] == ' ');
            } else {
                assert(r[i] == p[i - (width - p.len())]);
            }
        }
    }
}

proof fn lemma_drawn_facts(draw: BarDraw, bar_width: nat)
    requires
        crate::progress::draw_ok(draw),
    ensures
        width_from(crate::progress::drawn(draw, bar_width), false) == bar_width,
        !escape_after(crate::progress::drawn(draw, bar_width), false),
{
    match draw {
        BarDraw::Fraction(n, d) => {
            law_bar_fills_its_width(n as nat, d as nat, bar_width);
            lemma_closed_bar(n as nat, d as nat, bar_width);
        },
        BarDraw::Marquee(f) => {
            law_marquee_fills_its_width(f as nat, bar_width);
            lemma_closed_marquee(f as nat, bar_width);
        },
    }
}

/// A piece followed by a space and a closed rest.
proof fn lemma_spaced(a: Seq<char>, rest: Seq<char>)
    requires
        !escape_after(a, false),
        !escape_after(rest, false),
    ensures
        width_from(a + " "@ + rest, false) == width_from(a, false) + 1 + width_from(rest, false),
        !escape_after(a + " "@ + rest, false),
{
    reveal_strlit(" ");
    reveal_with_fuel(width_from, 2);
    reveal_with_fuel(escape_after, 2);
    let sp = " "@;
    assert(width_from(sp, false) == 1);
    assert(!escape_after(sp, false));
    lemma_width_parts(sp, rest);
    lemma_width_parts(a, sp + rest);
    assert(a + (sp + rest) =~= a + sp + rest);
}

#[verifier::rlimit(30)]
proof fn lemma_row_width(
    counter: Seq<char>,
    name: Seq<char>,
    percent: Seq<char>,
    detail: Seq<char>,
    time: Seq<char>,
    width: nat,
    draw: BarDraw,
)
    requires
        !escape_after(counter, false),
        plain_text(name),
        plain_text(percent),
        plain_text(detail),
        plain_text(time),
        crate::progress::draw_ok(draw),
    ensures
        ({
            let name_col = crate::progress::name_column_for(width);
            let fixed = display_width_of(counter) + name_col + 23 + 4 + 6 + 5;
            let room = if width > fixed {
                (width - fixed) as nat
            } else {
                0
            };
            let bar_width = if room < 28 {
                room
            } else {
                28
            };
            let shown = if bar_width >= 6 {
                bar_width
            } else {
                0
            };
            let row = counter + " "@ + fitted(name, name_col) + " "@ + (if bar_width >= 6 {
                crate::progress::drawn(draw, bar_width)
            } else {
                seq![]
            }) + " "@ + crate::progress::right_aligned(percent, 4) + " "@ + fitted(detail, 23) + " "@
                + time;
            display_width_of(row) == row_columns(
                display_width_of(counter),
                name_col,
                shown,
                percent.len(),
                time.len(),
            )
        }),
{
    let name_col = crate::progress::name_column_for(width);
    let fixed = display_width_of(counter) + name_col + 23 + 4 + 6 + 5;
    let room = if width > fixed {
        (width - fixed) as nat
    } else {
        0
    };
    let bar_width = if room < 28 {
        room
    } else {
        28
    };
    let bar = if bar_width >= 6 {
        crate::progress::drawn(draw, bar_width)
    } else {
        seq![]
    };
    let f1 = fitted(name, name_col);
    let pr = crate::progress::right_aligned(percent, 4);
    let f2 = fitted(detail, 23);
    lemma_fitted_plain(name, name_col);
    lemma_fitted_plain(detail, 23);
    lemma_aligned_plain(percent, 4);
    law_fitted_fills_its_column(name, name_col);
    law_fitted_fills_its_column(detail, 23);
    lemma_plain_width(f1);
    lemma_plain_width(f2);
    lemma_plain_width(pr);
    lemma_plain_width(time);
    if bar_width >= 6 {
        lemma_drawn_facts(draw, bar_width);
    } else {
        assert(width_from(bar, false) == 0);
        assert(!escape_after(bar, false));
    }
    lemma_spaced(f2, time);
    let t9 = f2 + " "@ + time;
    lemma_spaced(pr, t9);
    let t7 = pr + " "@ + t9;
    lemma_spaced(bar, t7);
    let t5 = bar + " "@ + t7;
    lemma_spaced(f1, t5);
    let t3 = f1 + " "@ + t5;
    lemma_spaced(counter, t3);
    let row = counter + " "@ + f1 + " "@ + bar + " "@ + pr + " "@ + f2 + " "@ + time;
    assert(row =~= counter + " "@ + t3);
}

proof fn lemma_closed_bar(num: nat, den: nat, width: nat)
    requires
        den > 0,
    ensures
        !escape_after(bar_text(num, den, width), false),
{
    let halves = bar_halves(num, den, width);
    let full = if halves / 2 < width {
        halves / 2
    } else {
        width
    };
    let half = halves % 2 > 0 && full < width;
    let used = if half {
        full + 1
    } else {
        full
    };
    let h: Seq<char> = if half {
        seq![bar_half()]
    } else {
        seq![]
    };
    lemma_code_width(green(), false);
    lemma_code_width(dim(), false);
    lemma_code_width(reset(), false);
    lemma_repeated_width(bar_full(), full);
    lemma_repeated_width(bar_track(), (width - used) as nat);
    reveal_with_fuel(escape_after, 2);
    let p5 = repeated(bar_track(), (width - used) as nat);
    lemma_escape_concat(p5, reset(), false);
    lemma_escape_concat(dim(), p5 + reset(), false);
    lemma_escape_concat(h, dim() + (p5 + reset()), false);
    lemma_escape_concat(repeated(bar_full(), full), h + (dim() + (p5 + reset())), false);
    lemma_escape_concat(green(), repeated(bar_full(), full) + (h + (dim() + (p5 + reset()))), false);
    assert(bar_text(num, den, width) =~= green() + (repeated(bar_full(), full) + (h + (dim() + (p5
        + reset())))));
}

proof fn lemma_closed_marquee(frame: nat, width: nat)
    ensures
        !escape_after(marquee_text(frame, width), false),
{
    let span = if width < 5 {
        width
    } else {
        5
    };
    let position = marquee_position(frame, width);
    let p2 = repeated(bar_track(), position);
    let p4 = repeated(bar_full(), span);
    let p6 = repeated(bar_track(), (width - position - span) as nat);
    lemma_code_width(dim(), false);
    lemma_code_width(cyan(), false);
    lemma_code_width(reset(), false);
    lemma_repeated_width(bar_track(), position);
    lemma_repeated_width(bar_full(), span);
    lemma_repeated_width(bar_track(), (width - position - span) as nat);
    lemma_escape_concat(p6, reset(), false);
    lemma_escape_concat(dim(), p6 + reset(), false);
    lemma_escape_concat(p4, dim() + (p6 + reset()), false);
    lemma_escape_concat(cyan(), p4 + (dim() + (p6 + reset())), false);
    lemma_escape_concat(p2, cyan() + (p4 + (dim() + (p6 + reset()))), false);
    lemma_escape_concat(dim(), p2 + (cyan() + (p4 + (dim() + (p6 + reset())))), false);
    assert(marquee_text(frame, width) =~= dim() + (p2 + (cyan() + (p4 + (dim() + (p6 + reset()))))));
}

/// Rows that `compose` lays out for the same terminal line up (its result is
/// `composed` of its arguments): with counters of the same
/// width, percentages of at most four characters and times of the same
/// length, a download, a build and the total take the same columns, whatever
/// their names, details and bars.
pub proof fn law_rows_line_up(
    counter_a: Seq<char>,
    name_a: Seq<char>,
    percent_a: Seq<char>,
    detail_a: Seq<char>,
    time_a: Seq<char>,
    draw_a: BarDraw,
    counter_b: Seq<char>,
    name_b: Seq<char>,
    percent_b: Seq<char>,
    detail_b: Seq<char>,
    time_b: Seq<char>,
    draw_b: BarDraw,
    width: nat,
)
    requires
        display_width_of(counter_a) == display_width_of(counter_b),
        !escape_after(counter_a, false),
        !escape_after(counter_b, false),
        plain_text(name_a) && plain_text(name_b),
        plain_text(percent_a) && plain_text(percent_b),
        plain_text(detail_a) && plain_text(detail_b),
        plain_text(time_a) && plain_text(time_b),
        percent_a.len() <= 4 && percent_b.len() <= 4,
        time_a.len() == time_b.len(),
        crate::progress::draw_ok(draw_a) && crate::progress::draw_ok(draw_b),
    ensures
        display_width_of(composed(counter_a, name_a, percent_a, detail_a, time_a, width, draw_a))
            == display_width_of(composed(counter_b, name_b, percent_b, detail_b, time_b, width, draw_b)),
{
    lemma_row_width(counter_a, name_a, percent_a, detail_a, time_a, width, draw_a);
    lemma_row_width(counter_b, name_b, percent_b, detail_b, time_b, width, draw_b);
    let name_col = crate::progress::name_column_for(width);
    let fixed = display_width_of(counter_a) + name_col + 23 + 4 + 6 + 5;
    let room = if width > fixed {
        (width - fixed) as nat
    } else {
        0
    };
    let bar_width = if room < 28 {
        room
    } else {
        28
    };
    let row_a = counter_a + " "@ + fitted(name_a, name_col) + " "@ + (if bar_width >= 6 {
        crate::progress::drawn(draw_a, bar_width)
    } else {
        seq![]
    }) + " "@ + crate::progress::right_aligned(percent_a, 4) + " "@ + fitted(detail_a, 23) + " "@
        + time_a;
    let row_b = counter_b + " "@ + fitted(name_b, name_col) + " "@ + (if bar_width >= 6 {
        crate::progress::drawn(draw_b, bar_width)
    } else {
        seq![]
    }) + " "@ + crate::progress::right_aligned(percent_b, 4) + " "@ + fitted(detail_b, 23) + " "@
        + time_b;
    law_truncated_width(row_a, width);
    law_truncated_width(row_b, width);
}

} // verus!
