//! Styled text: what the tools print is computed as runs of text, each with
//! the colour and emphasis it is shown in, and painted at the edge.

use vstd::prelude::*;

verus! {

/// The colours the tools print in.
#[derive(Debug, Clone, Copy, PartialEq, Eq, Structural)]
pub enum Color {
    Plain,
    Red,
    Green,
    Yellow,
    Blue,
    Magenta,
    BrightCyan,
}

/// A colour with emphasis.
#[derive(Debug, Clone, Copy, PartialEq, Eq, Structural)]
pub struct Style {
    pub color: Color,
    pub bold: bool,
    pub italic: bool,
}

/// A run of text in one style.
#[derive(Debug, Clone)]
pub struct Segment {
    pub text: String,
    pub style: Style,
}

impl View for Segment {
    type V = (Seq<char>, Style);

    open spec fn view(&self) -> (Seq<char>, Style) {
        (self.text@, self.style)
    }
}

pub open spec fn segment_views(s: Seq<Segment>) -> Seq<(Seq<char>, Style)> {
    s.map_values(|x: Segment| x@)
}

pub open spec fn colored(c: Color) -> Style {
    Style { color: c, bold: false, italic: false }
}

pub open spec fn plain() -> Style {
    colored(Color::Plain)
}

/// The style of a colour alone.
pub fn color_style(c: Color) -> (s: Style)
    ensures
        s == colored(c),
{
    Style { color: c, bold: false, italic: false }
}

/// A segment of `text` in style `style`.
pub fn segment(text: &str, style: Style) -> (s: Segment)
    ensures
        s@ == (text@, style),
{
    Segment { text: text.to_owned(), style }
}

/// A segment of one character.
pub fn char_segment(c: char, style: Style) -> (s: Segment)
    ensures
        s@ == (seq![c], style),
{
    let mut text = String::new();
    text.push(c);
    proof {
        assert(text@ =~= seq![c]);
    }
    Segment { text, style }
}

/// Appends `extra` to `acc`.
pub fn append_segments(acc: &mut Vec<Segment>, extra: Vec<Segment>)
    ensures
        segment_views(final(acc)@) == segment_views(old(acc)@) + segment_views(extra@),
{
    let ghost e = extra@;
    let mut extra = extra;
    acc.append(&mut extra);
    proof {
        assert(segment_views(acc@) =~= segment_views(old(acc)@) + segment_views(e));
    }
}

/// Whether to colour output, by the conventions of `NO_COLOR` and
/// `CLICOLOR`: never when `NO_COLOR` is set and not empty, nor when
/// `CLICOLOR` is `0`; always when `CLICOLOR_FORCE` is set and not `0`; else
/// when writing to a terminal.
pub open spec fn styled(
    no_color: Option<Seq<char>>,
    clicolor: Option<Seq<char>>,
    clicolor_force: Option<Seq<char>>,
    is_terminal: bool,
) -> bool {
    if no_color matches Some(v) && v.len() > 0 {
        false
    } else if clicolor == Some("0"@) {
        false
    } else if clicolor_force matches Some(v) && v != "0"@ {
        true
    } else {
        is_terminal
    }
}

/// Decides whether to colour output from the values of `NO_COLOR`,
/// `CLICOLOR` and `CLICOLOR_FORCE` and whether output goes to a terminal.
pub fn should_style(
    no_color: Option<&str>,
    clicolor: Option<&str>,
    clicolor_force: Option<&str>,
    is_terminal: bool,
) -> (b: bool)
    ensures
        b == styled(
            match no_color {
                Some(s) => Some(s@),
                None => None,
            },
            match clicolor {
                Some(s) => Some(s@),
                None => None,
            },
            match clicolor_force {
                Some(s) => Some(s@),
                None => None,
            },
            is_terminal,
        ),
{
    if let Some(v) = no_color {
        if v.unicode_len() > 0 {
            return false;
        }
    }
    if let Some(v) = clicolor {
        if crate::text::str_eq(v, "0") {
            return false;
        }
    }
    if let Some(v) = clicolor_force {
        if !crate::text::str_eq(v, "0") {
            return true;
        }
    }
    is_terminal
}

} // verus!
