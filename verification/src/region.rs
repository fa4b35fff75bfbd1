//! Rectangles of the desktop, captured frames, and cutting a selection out of
//! the frames of the outputs it covers.
use vstd::prelude::*;

use crate::capture::{find_char, first_index_of, lemma_first_index_of};
use crate::sorting::{after_fn, insertion_sort, insertion_sorted, keys, Ranked};
use crate::text::{
    chars_of, i32_to_decimal, lemma_decimal_digits, lemma_signed_decimal_parses, parse_i32_text,
    parsed_i32, signed_decimal,
};

verus! {

/// A rectangle in desktop coordinates.
#[derive(Debug, Clone, Copy, PartialEq, Eq, Structural)]
pub struct Rect {
    pub x: i32,
    pub y: i32,
    pub width: i32,
    pub height: i32,
}

/// The rectangle from (`left`, `top`) to (`right`, `bottom`), when it is not
/// empty.
pub open spec fn span_rect(left: int, top: int, right: int, bottom: int) -> Option<Rect> {
    if right > left && bottom > top {
        Some(
            Rect {
                x: left as i32,
                y: top as i32,
                width: (right - left) as i32,
                height: (bottom - top) as i32,
            },
        )
    } else {
        None
    }
}

pub open spec fn max_int(a: int, b: int) -> int {
    if a >= b {
        a
    } else {
        b
    }
}

pub open spec fn min_int(a: int, b: int) -> int {
    if a <= b {
        a
    } else {
        b
    }
}

/// The part two rectangles share, when they share any.
pub open spec fn overlap(a: Rect, b: Rect) -> Option<Rect> {
    span_rect(
        max_int(a.x as int, b.x as int),
        max_int(a.y as int, b.y as int),
        min_int(a.x + a.width, b.x + b.width),
        min_int(a.y + a.height, b.y + b.height),
    )
}

impl Rect {
    /// The rectangle at (`x`, `y`) of `width` by `height`.
    pub fn new(x: i32, y: i32, width: i32, height: i32) -> (r: Rect)
        ensures
            r == (Rect { x, y, width, height }),
    {
        Rect { x, y, width, height }
    }

    /// The part this rectangle shares with `other`, when they share any.
    pub fn intersection(&self, other: &Rect) -> (r: Option<Rect>)
        ensures
            r == overlap(*self, *other),
    {
        let left: i64 = if self.x >= other.x {
            self.x as i64
        } else {
            other.x as i64
        };
        let top: i64 = if self.y >= other.y {
            self.y as i64
        } else {
            other.y as i64
        };
        let right_a: i64 = self.x as i64 + self.width as i64;
        let right_b: i64 = other.x as i64 + other.width as i64;
        let right: i64 = if right_a <= right_b {
            right_a
        } else {
            right_b
        };
        let bottom_a: i64 = self.y as i64 + self.height as i64;
        let bottom_b: i64 = other.y as i64 + other.height as i64;
        let bottom: i64 = if bottom_a <= bottom_b {
            bottom_a
        } else {
            bottom_b
        };
        if right > left && bottom > top {
            Some(
                Rect {
                    x: left as i32,
                    y: top as i32,
                    width: (right - left) as i32,
                    height: (bottom - top) as i32,
                },
            )
        } else {
            None
        }
    }

    /// Whether the two rectangles share any part.
    pub fn intersects(&self, other: &Rect) -> (b: bool)
        ensures
            b == overlap(*self, *other) is Some,
    {
        self.intersection(other).is_some()
    }

    /// The number of pixels the rectangle holds; none for an empty one.
    pub fn area(&self) -> (a: i64)
        ensures
            a == (if self.width > 0 && self.height > 0 {
                self.width * self.height
            } else {
                0
            }),
    {
        if self.width > 0 && self.height > 0 {
            assert(self.width * self.height <= i32::MAX * i32::MAX) by (nonlinear_arith)
                requires
                    0 < self.width <= i32::MAX,
                    0 < self.height <= i32::MAX,
            ;
            (self.width as i64) * (self.height as i64)
        } else {
            0
        }
    }
}

/// Moves a desktop rectangle into the coordinates of an output whose corner
/// is at (`offset_x`, `offset_y`).
pub fn translate_rect_to_local(rect: Rect, offset_x: i32, offset_y: i32) -> (r: Rect)
    requires
        i32::MIN <= rect.x - offset_x <= i32::MAX,
        i32::MIN <= rect.y - offset_y <= i32::MAX,
    ensures
        r == (Rect {
            x: (rect.x - offset_x) as i32,
            y: (rect.y - offset_y) as i32,
            width: rect.width,
            height: rect.height,
        }),
{
    Rect::new(rect.x - offset_x, rect.y - offset_y, rect.width, rect.height)
}

/// A rectangle written `X,Y WxH`, the way the compositor reports a window and
/// the recorder takes a region.
pub open spec fn geometry_text(r: Rect) -> Seq<char> {
    signed_decimal(r.x as int) + seq![','] + signed_decimal(r.y as int) + seq![' ']
        + signed_decimal(r.width as int) + seq!['x'] + signed_decimal(r.height as int)
}

/// Reads `X,Y WxH`: the text before the first `,`, the text from there to
/// the first space, from there to the first `x`, and the rest, each read as
/// an `i32`.
pub open spec fn parsed_geometry(s: Seq<char>) -> Option<Rect> {
    match first_index_of(s, ',') {
        None => None,
        Some(i) => {
            let rest = s.skip(i + 1);
            match first_index_of(rest, ' ') {
                None => None,
                Some(j) => {
                    let size = rest.skip(j + 1);
                    match first_index_of(size, 'x') {
                        None => None,
                        Some(k) => match (
                            parsed_i32(s.take(i)),
                            parsed_i32(rest.take(j)),
                            parsed_i32(size.take(k)),
                            parsed_i32(size.skip(k + 1)),
                        ) {
                            (Some(x), Some(y), Some(w), Some(h)) => Some(
                                Rect { x: x as i32, y: y as i32, width: w as i32, height: h as i32 },
                            ),
                            _ => None,
                        },
                    }
                },
            }
        },
    }
}

/// A region that does not read as `X,Y WxH`.
#[derive(Debug, Clone, PartialEq, Eq)]
pub struct InvalidGeometry {
    pub given: String,
}

impl Rect {
    /// The rectangle written `X,Y WxH`.
    pub fn to_geometry_string(&self) -> (s: String)
        ensures
            s@ == geometry_text(*self),
    {
        let mut s = i32_to_decimal(self.x);
        s.push(',');
        crate::strings::push_str(&mut s, i32_to_decimal(self.y).as_str());
        s.push(' ');
        crate::strings::push_str(&mut s, i32_to_decimal(self.width).as_str());
        s.push('x');
        crate::strings::push_str(&mut s, i32_to_decimal(self.height).as_str());
        s
    }

    /// Reads a rectangle written `X,Y WxH`.
    pub fn from_geometry_string(s: &str) -> (r: Result<Rect, InvalidGeometry>)
        ensures
            r matches Ok(rect) ==> parsed_geometry(s@) == Some(rect),
            r matches Err(e) ==> parsed_geometry(s@) is None && e.given@ == s@,
    {
        let fail = InvalidGeometry { given: s.to_owned() };
        let cs = chars_of(s);
        let n = cs.len();
        let i = match find_char(s, ',') {
            Some(i) => i,
            None => {
                return Err(fail);
            },
        };
        let position = s.substring_char(0, i);
        let rest = s.substring_char(i + 1, n);
        assert(rest@ == s@.skip(i + 1));
        let j = match find_char(rest, ' ') {
            Some(j) => j,
            None => {
                return Err(fail);
            },
        };
        let m = n - i - 1;
        let top = rest.substring_char(0, j);
        let size = rest.substring_char(j + 1, m);
        assert(size@ == rest@.skip(j + 1));
        let k = match find_char(size, 'x') {
            Some(k) => k,
            None => {
                return Err(fail);
            },
        };
        let width = size.substring_char(0, k);
        let height = size.substring_char(k + 1, m - j - 1);
        assert(height@ == size@.skip(k + 1));
        match (
            parse_i32_text(position),
            parse_i32_text(top),
            parse_i32_text(width),
            parse_i32_text(height),
        ) {
            (Some(x), Some(y), Some(w), Some(h)) => Ok(Rect::new(x, y, w, h)),
            _ => Err(fail),
        }
    }
}

/// A signed decimal holds no `,`, space or `x`: only a `-` and digits.
proof fn lemma_no_separator(v: i32, c: char)
    requires
        c == ',' || c == ' ' || c == 'x',
    ensures
        forall|i: int| 0 <= i < signed_decimal(v as int).len() ==> signed_decimal(v as int)[i] != c,
{
    let m: nat = if v < 0 {
        (-v) as nat
    } else {
        v as nat
    };
    lemma_decimal_digits(m);
    let d = crate::text::decimal(m);
    let t = signed_decimal(v as int);
    assert forall|i: int| 0 <= i < t.len() implies t[i] != c by {
        if v < 0 {
            if i > 0 {
                assert(t[i] == d[i - 1]);
                assert(crate::text::is_digit(d[i - 1]));
            }
        } else {
            assert(crate::text::is_digit(d[i]));
        }
    }
}

/// Splitting `a + [c] + b` at the first `c`, where `a` holds none.
proof fn lemma_split_at(a: Seq<char>, c: char, b: Seq<char>)
    requires
        forall|i: int| 0 <= i < a.len() ==> a[i] != c,
    ensures
        first_index_of(a + seq![c] + b, c) == Some(a.len() as int),
        (a + seq![c] + b).take(a.len() as int) == a,
        (a + seq![c] + b).skip(a.len() as int + 1) == b,
{
    let s = a + seq![c] + b;
    assert forall|i: int| 0 <= i < a.len() implies s[i] != c by {
        assert(s[i] == a[i]);
    }
    assert(s[a.len() as int] == c);
    lemma_first_index_of(s, c, a.len() as int);
    assert(s.take(a.len() as int) =~= a);
    assert(s.skip(a.len() as int + 1) =~= b);
}

/// A rectangle written as `X,Y WxH` reads back as itself.
pub proof fn law_geometry_round_trip(r: Rect)
    ensures
        parsed_geometry(geometry_text(r)) == Some(r),
{
    let x = signed_decimal(r.x as int);
    let y = signed_decimal(r.y as int);
    let w = signed_decimal(r.width as int);
    let h = signed_decimal(r.height as int);
    let size = w + seq!['x'] + h;
    let rest = y + seq![' '] + size;
    let s = geometry_text(r);
    assert(s =~= x + seq![','] + rest);
    lemma_no_separator(r.x, ',');
    lemma_split_at(x, ',', rest);
    lemma_no_separator(r.y, ' ');
    lemma_split_at(y, ' ', size);
    lemma_no_separator(r.width, 'x');
    lemma_split_at(w, 'x', h);
    lemma_signed_decimal_parses(r.x);
    lemma_signed_decimal_parses(r.y);
    lemma_signed_decimal_parses(r.width);
    lemma_signed_decimal_parses(r.height);
}

/// The selection drawn on an output: a rectangle, or nothing yet.
#[derive(Debug, Clone, Copy, PartialEq, Eq, Structural)]
pub struct Selection {
    pub rect: Option<Rect>,
}

impl Selection {
    /// Nothing selected.
    pub fn new() -> (s: Selection)
        ensures
            s.rect is None,
    {
        Selection { rect: None }
    }

    /// `rect` selected.
    pub fn from_rect(rect: Rect) -> (s: Selection)
        ensures
            s.rect == Some(rect),
    {
        Selection { rect: Some(rect) }
    }

    /// The selected rectangle, if any.
    pub fn get_rect(&self) -> (r: Option<Rect>)
        ensures
            r == self.rect,
    {
        self.rect
    }
}

/// The selection of a desktop rectangle, as the output whose corner is at
/// (`offset_x`, `offset_y`) draws it.
pub fn create_local_selection(global_rect: Rect, offset_x: i32, offset_y: i32) -> (s: Selection)
    requires
        i32::MIN <= global_rect.x - offset_x <= i32::MAX,
        i32::MIN <= global_rect.y - offset_y <= i32::MAX,
    ensures
        s.rect == Some(
            Rect {
                x: (global_rect.x - offset_x) as i32,
                y: (global_rect.y - offset_y) as i32,
                width: global_rect.width,
                height: global_rect.height,
            },
        ),
{
    let local_rect = translate_rect_to_local(global_rect, offset_x, offset_y);
    Selection::from_rect(local_rect)
}

/// The state of an output's overlay surface between redraws.
#[derive(Debug, Clone, Copy, PartialEq, Eq, Structural)]
pub struct SurfaceState {
    /// The compositor has configured the surface.
    pub configured: bool,
    /// A frame was committed and its callback has not come yet.
    pub waiting_for_frame: bool,
    /// The surface has a renderer and a buffer pool.
    pub ready: bool,
    /// Something asked for the surface to be drawn again.
    pub needs_render: bool,
    /// The last drawing showed part of a selection.
    pub last_had_selection: bool,
}

/// What an output's overlay draws on a redraw.
#[derive(Debug, Clone, Copy, PartialEq, Eq, Structural)]
pub enum OutputDraw {
    /// Nothing.
    Skip,
    /// The dimmed screen, with no selection on it.
    Dimmed,
    /// The dimmed screen with this selection, in the output's own coordinates.
    Selected(Selection),
}

/// Whether part of the selection falls on the output.
pub open spec fn shows_selection(selection: Selection, output: Rect) -> bool {
    selection.rect matches Some(r) && overlap(r, output) is Some
}

/// What an output at `output` draws of `selection`, and its surface after:
/// nothing while the surface is not configured, waits for a frame or cannot
/// draw; nothing when nothing asks for it again and it neither shows nor
/// showed part of the selection; else the selection moved into its
/// coordinates, or the dimmed screen when none of it falls there, after
/// which the surface waits for the frame.
pub fn output_draw(surface: SurfaceState, output: Rect, selection: Selection) -> (r: (OutputDraw, SurfaceState))
    requires
        selection.rect matches Some(s) ==> i32::MIN <= s.x - output.x <= i32::MAX && i32::MIN <= s.y
            - output.y <= i32::MAX,
    ensures
        ({
            let shows = shows_selection(selection, output);
            if !surface.configured || surface.waiting_for_frame || !surface.ready || (
            !surface.needs_render && !shows && !surface.last_had_selection) {
                r == (OutputDraw::Skip, surface)
            } else {
                &&& r.1 == SurfaceState {
                    waiting_for_frame: true,
                    needs_render: false,
                    last_had_selection: shows,
                    ..surface
                }
                &&& shows ==> r.0 == OutputDraw::Selected(
                    Selection {
                        rect: Some(
                            Rect {
                                x: (selection.rect.unwrap().x - output.x) as i32,
                                y: (selection.rect.unwrap().y - output.y) as i32,
                                ..selection.rect.unwrap()
                            },
                        ),
                    },
                )
                &&& !shows ==> r.0 == OutputDraw::Dimmed
            }
        }),
{
    if !surface.configured || surface.waiting_for_frame || !surface.ready {
        return (OutputDraw::Skip, surface);
    }
    let shows = match selection.get_rect() {
        Some(rect) => rect.intersects(&output),
        None => false,
    };
    if !surface.needs_render && shows == surface.last_had_selection && !shows {
        return (OutputDraw::Skip, surface);
    }
    let after = SurfaceState {
        waiting_for_frame: true,
        needs_render: false,
        last_had_selection: shows,
        ..surface
    };
    match selection.get_rect() {
        Some(rect) => {
            if shows {
                (OutputDraw::Selected(create_local_selection(rect, output.x, output.y)), after)
            } else {
                (OutputDraw::Dimmed, after)
            }
        },
        None => (OutputDraw::Dimmed, after),
    }
}

/// One output that a selection covers: its place in the list of outputs,
/// its geometry, and how many pixels of the selection fall on it.
#[derive(Debug, Clone, Copy, PartialEq, Eq, Structural)]
pub struct Covering {
    pub output: usize,
    pub geometry: Rect,
    pub area: i64,
}

impl Ranked for Covering {
    type Key = Covering;

    open spec fn key(&self) -> Covering {
        *self
    }

    /// A covering goes after one that holds more of the selection.
    open spec fn after(a: Covering, b: Covering) -> bool {
        a.area < b.area
    }

    fn goes_after(&self, other: &Covering) -> (b: bool) {
        self.area < other.area
    }
}

/// The pixels of an overlap.
pub open spec fn overlap_area(r: Rect) -> int {
    r.width * r.height
}

/// The outputs among the first `n` that `rect` falls on, in their order.
pub open spec fn coverings(outputs: Seq<Rect>, rect: Rect, n: nat) -> Seq<Covering>
    decreases n,
{
    if n == 0 {
        seq![]
    } else {
        let rest = coverings(outputs, rect, (n - 1) as nat);
        match overlap(rect, outputs[n - 1]) {
            Some(o) => rest.push(
                Covering {
                    output: (n - 1) as usize,
                    geometry: outputs[n - 1],
                    area: overlap_area(o) as i64,
                },
            ),
            None => rest,
        }
    }
}

/// A selection that falls on no output.
#[derive(Debug, Clone, Copy, PartialEq, Eq, Structural)]
pub struct NotOnAnyOutput {
    pub selection: Rect,
}

/// The outputs, given by their geometries, that `rect` falls on, most covered
/// first; outputs that hold as much of it keep their order.
pub fn find_outputs_for_rect(outputs: &[Rect], rect: Rect) -> (r: Result<
    Vec<Covering>,
    NotOnAnyOutput,
>)
    ensures
        coverings(outputs@, rect, outputs@.len()).len() == 0 ==> r == Err::<
            Vec<Covering>,
            NotOnAnyOutput,
        >(NotOnAnyOutput { selection: rect }),
        coverings(outputs@, rect, outputs@.len()).len() > 0 ==> (r matches Ok(v) && keys(v@)
            == insertion_sorted(
            keys(coverings(outputs@, rect, outputs@.len())),
            after_fn::<Covering>(),
        )),
{
    let mut covering: Vec<Covering> = Vec::new();
    let mut i: usize = 0;
    while i < outputs.len()
        invariant
            i <= outputs@.len(),
            covering@ == coverings(outputs@, rect, i as nat),
        decreases outputs@.len() - i,
    {
        match rect.intersection(&outputs[i]) {
            Some(o) => {
                let area = o.area();
                covering.push(Covering { output: i, geometry: outputs[i], area });
            },
            None => {},
        }
        i = i + 1;
    }
    if covering.len() == 0 {
        return Err(NotOnAnyOutput { selection: rect });
    }
    proof {
        assert(keys(covering@) =~= covering@);
    }
    insertion_sort(&mut covering);
    Ok(covering)
}

/// A captured frame: rows of pixels `stride` bytes apart, in the `wl_shm`
/// format with code `format`.
#[derive(Debug, Clone)]
pub struct CapturedImage {
    pub data: Vec<u8>,
    pub width: u32,
    pub height: u32,
    pub stride: u32,
    pub format: u32,
}

/// Why a frame could not be cropped.
#[derive(Debug, Clone, Copy, PartialEq, Eq, Structural)]
pub enum CropError {
    /// The region lies wholly outside the frame.
    OutsideCapture { region: Rect, width: u32, height: u32 },
    /// The cropped frame would hold more bytes than a `u32` counts.
    TooLarge { width: u32, height: u32 },
    /// The frame's buffer ends before the region's last row.
    BeyondBuffer { last_row_offset: u128, row_size: u128, buffer_len: u128 },
}

/// The part of a `width` by `height` frame that `rect` covers, as (left,
/// top, width, height), when it covers any.
pub open spec fn crop_bounds(rect: Rect, width: int, height: int) -> Option<(int, int, int, int)> {
    let left = max_int(rect.x as int, 0);
    let top = max_int(rect.y as int, 0);
    let right = min_int(rect.x + rect.width, width);
    let bottom = min_int(rect.y + rect.height, height);
    if right <= left || bottom <= top {
        None
    } else {
        Some((left, top, right - left, bottom - top))
    }
}

/// The first `rows` rows of `row_bytes` bytes each, starting `left * 4` bytes
/// into row `top` of `data`, one after the other.
pub open spec fn cropped_rows(
    data: Seq<u8>,
    stride: int,
    left: int,
    top: int,
    row_bytes: int,
    rows: nat,
) -> Seq<u8>
    decreases rows,
{
    if rows == 0 {
        seq![]
    } else {
        let start = (top + rows - 1) * stride + left * 4;
        cropped_rows(data, stride, left, top, row_bytes, (rows - 1) as nat) + bytes_at(
            data,
            start,
            row_bytes,
        )
    }
}

/// The `n` bytes of `data` from `start` on.
pub open spec fn bytes_at(data: Seq<u8>, start: int, n: int) -> Seq<u8> {
    Seq::new(n as nat, |k: int| data[start + k])
}

proof fn lemma_cropped_rows_len(
    data: Seq<u8>,
    stride: int,
    left: int,
    top: int,
    row_bytes: int,
    rows: nat,
)
    requires
        row_bytes >= 0,
    ensures
        cropped_rows(data, stride, left, top, row_bytes, rows).len() == rows * row_bytes,
    decreases rows,
{
    if rows > 0 {
        let prev = (rows - 1) as nat;
        lemma_cropped_rows_len(data, stride, left, top, row_bytes, prev);
        let start = (top + rows - 1) * stride + left * 4;
        assert(bytes_at(data, start, row_bytes).len() == row_bytes);
        assert(cropped_rows(data, stride, left, top, row_bytes, rows) == cropped_rows(
            data,
            stride,
            left,
            top,
            row_bytes,
            prev,
        ) + bytes_at(data, start, row_bytes));
        assert(rows * row_bytes == prev * row_bytes + row_bytes) by (nonlinear_arith)
            requires
                prev == rows - 1,
        ;
    } else {
        assert(rows * row_bytes == 0) by (nonlinear_arith)
            requires
                rows == 0,
        ;
    }
}

impl CapturedImage {
    /// A frame of the given pixels.
    pub fn new(data: Vec<u8>, width: u32, height: u32, stride: u32, format: u32) -> (img: Self)
        ensures
            img.data@ == data@,
            img.width == width,
            img.height == height,
            img.stride == stride,
            img.format == format,
    {
        CapturedImage { data, width, height, stride, format }
    }

    /// Cuts the part that `rect` covers out of the frame. The rectangle may
    /// start outside the frame, as a window hanging off its output does, and
    /// is clipped to it; the result has packed rows.
    pub fn crop(&self, rect: Rect) -> (r: Result<CapturedImage, CropError>)
        ensures
            crop_bounds(rect, self.width as int, self.height as int) is None ==> r
                == Err::<CapturedImage, CropError>(
                CropError::OutsideCapture { region: rect, width: self.width, height: self.height },
            ),
            crop_bounds(rect, self.width as int, self.height as int) matches Some(
                (left, top, w, h),
            ) ==> {
                let last_row_offset = (top + h - 1) * self.stride + left * 4;
                &&& w * h * 4 > u32::MAX ==> r == Err::<CapturedImage, CropError>(
                    CropError::TooLarge { width: w as u32, height: h as u32 },
                )
                &&& w * h * 4 <= u32::MAX && last_row_offset + w * 4 > self.data@.len() ==> r
                    == Err::<CapturedImage, CropError>(
                    CropError::BeyondBuffer {
                        last_row_offset: last_row_offset as u128,
                        row_size: (w * 4) as u128,
                        buffer_len: self.data@.len() as u128,
                    },
                )
                &&& w * h * 4 <= u32::MAX && last_row_offset + w * 4 <= self.data@.len() ==> (r
                    matches Ok(img) && img.width == w && img.height == h && img.stride == w * 4
                    && img.format == self.format && img.data@ == cropped_rows(
                    self.data@,
                    self.stride as int,
                    left,
                    top,
                    w * 4,
                    h as nat,
                ))
            },
    {
        let left: i64 = if rect.x as i64 >= 0 {
            rect.x as i64
        } else {
            0
        };
        let top: i64 = if rect.y as i64 >= 0 {
            rect.y as i64
        } else {
            0
        };
        let right_r: i64 = rect.x as i64 + rect.width as i64;
        let right: i64 = if right_r <= self.width as i64 {
            right_r
        } else {
            self.width as i64
        };
        let bottom_r: i64 = rect.y as i64 + rect.height as i64;
        let bottom: i64 = if bottom_r <= self.height as i64 {
            bottom_r
        } else {
            self.height as i64
        };
        if right <= left || bottom <= top {
            return Err(
                CropError::OutsideCapture { region: rect, width: self.width, height: self.height },
            );
        }
        let left = left as u32;
        let top = top as u32;
        let w = (right as u32) - left;
        let h = (bottom as u32) - top;
        let expected = match w.checked_mul(h) {
            Some(p) => p.checked_mul(4),
            None => None,
        };
        if expected.is_none() {
            proof {
                if w * h > u32::MAX {
                    assert(w * h * 4 > u32::MAX) by (nonlinear_arith)
                        requires
                            w * h > u32::MAX,
                    ;
                }
            }
            return Err(CropError::TooLarge { width: w, height: h });
        }
        let stride = self.stride as u128;
        assert((top as u128 + h as u128 - 1) * stride <= 0xffff_ffff * 0xffff_ffff) by (nonlinear_arith)
            requires
                top + h - 1 <= 0xffff_ffff,
                stride <= 0xffff_ffff,
                h >= 1,
        ;
        let last_row_offset: u128 = (top as u128 + h as u128 - 1) * stride + left as u128 * 4;
        let row_size: u128 = w as u128 * 4;
        let dlen: usize = self.data.len();
        let len = dlen as u128;
        if last_row_offset + row_size > len {
            return Err(
                CropError::BeyondBuffer {
                    last_row_offset,
                    row_size,
                    buffer_len: len,
                },
            );
        }
        assert(w * 4 <= u32::MAX) by (nonlinear_arith)
            requires
                w * h * 4 <= u32::MAX,
                h >= 1,
        ;
        let mut cropped: Vec<u8> = Vec::new();
        let mut y: u32 = 0;
        while y < h
            invariant
                y <= h,
                h >= 1,
                stride == self.stride,
                dlen == self.data@.len(),
                len == dlen,
                row_size == w * 4,
                last_row_offset == (top + h - 1) * stride + left * 4,
                last_row_offset + row_size <= len,
                cropped@ == cropped_rows(
                    self.data@,
                    self.stride as int,
                    left as int,
                    top as int,
                    w * 4,
                    y as nat,
                ),
            decreases h - y,
        {
            assert((top as u128 + y as u128) * stride <= (top as u128 + h as u128 - 1) * stride)
                by (nonlinear_arith)
                requires
                    y <= h - 1,
                    stride >= 0,
            ;
            let start = ((top as u128 + y as u128) * stride + left as u128 * 4) as usize;
            let n = row_size as usize;
            let ghost before = cropped@;
            let mut c: usize = 0;
            while c < n
                invariant
                    c <= n,
                    dlen == self.data@.len(),
                    start + n <= dlen,
                    cropped@ == before + bytes_at(self.data@, start as int, c as int),
                decreases n - c,
            {
                cropped.push(self.data[start + c]);
                c = c + 1;
                assert(cropped@ =~= before + bytes_at(self.data@, start as int, c as int));
            }
            y = y + 1;
        }
        proof {
            lemma_cropped_rows_len(
                self.data@,
                self.stride as int,
                left as int,
                top as int,
                w * 4,
                h as nat,
            );
        }
        Ok(CapturedImage { data: cropped, width: w, height: h, stride: w * 4, format: self.format })
    }
}

/// Why a selection could not be assembled from the frames of its outputs.
#[derive(Debug, Clone, Copy, PartialEq, Eq, Structural)]
pub enum ComposeError {
    /// The selection falls on no output.
    NotOnAnyOutput { selection: Rect },
    /// There were no frames.
    NoCaptures,
    /// The output at (`x`, `y`) was captured in format `found`, the first one
    /// in `expected`.
    MixedFormats { x: i32, y: i32, found: u32, expected: u32 },
}

/// The bounding box (left, top, right, bottom) of the parts of `rect` that
/// the first `k` outputs hold.
pub open spec fn covered_box(rect: Rect, parts: Seq<(Rect, &CapturedImage)>, k: nat) -> Option<
    (int, int, int, int),
>
    decreases k,
{
    if k == 0 {
        None
    } else {
        let prev = covered_box(rect, parts, (k - 1) as nat);
        match overlap(rect, parts[k - 1].0) {
            Some(o) => Some(
                match prev {
                    None => (o.x as int, o.y as int, o.x + o.width, o.y + o.height),
                    Some((l, t, r, b)) => (
                        min_int(l, o.x as int),
                        min_int(t, o.y as int),
                        max_int(r, o.x + o.width),
                        max_int(b, o.y + o.height),
                    ),
                },
            ),
            None => prev,
        }
    }
}

/// Byte `b` of the pixel at desktop point (`x`, `y`) as the frame `img` of
/// the output at `geom` shows it: the frame's own pixels are sampled in
/// proportion, so a scaled output is read at its own resolution. None where
/// the point is not in the part of `rect` on this output, or lies past the
/// frame's buffer.
pub open spec fn part_byte(rect: Rect, geom: Rect, img: CapturedImage, x: int, y: int, b: int) -> Option<
    u8,
> {
    match overlap(rect, geom) {
        Some(o) => if o.x <= x < o.x + o.width && o.y <= y < o.y + o.height {
            let sx = (x - geom.x) * img.width / (geom.width as int);
            let sy = (y - geom.y) * img.height / (geom.height as int);
            let idx = sy * img.stride + sx * 4 + b;
            if idx < img.data@.len() {
                Some(img.data@[idx])
            } else {
                None
            }
        } else {
            None
        },
        None => None,
    }
}

/// Byte `b` of the assembled pixel at (`x`, `y`): from the last of the first
/// `k` outputs that shows it, else zero.
pub open spec fn composed_byte(
    rect: Rect,
    parts: Seq<(Rect, &CapturedImage)>,
    x: int,
    y: int,
    b: int,
    k: nat,
) -> u8
    decreases k,
{
    if k == 0 {
        0
    } else {
        match part_byte(rect, parts[k - 1].0, *parts[k - 1].1, x, y, b) {
            Some(v) => v,
            None => composed_byte(rect, parts, x, y, b, (k - 1) as nat),
        }
    }
}

/// The first output, among the first `k`, whose frame is not in `format`.
pub open spec fn first_other_format(parts: Seq<(Rect, &CapturedImage)>, format: u32, k: nat) -> Option<
    int,
>
    decreases k,
{
    if k == 0 {
        None
    } else {
        match first_other_format(parts, format, (k - 1) as nat) {
            Some(j) => Some(j),
            None => if parts[k - 1].1.format != format {
                Some(k - 1)
            } else {
                None
            },
        }
    }
}

/// The pixels of a box of `width` by `height` at (`left`, `top`), with rows
/// of `width * 4` bytes.
pub open spec fn composed_pixels(
    rect: Rect,
    parts: Seq<(Rect, &CapturedImage)>,
    left: int,
    top: int,
    width: int,
    height: int,
) -> Seq<u8> {
    Seq::new(
        (width * 4 * height) as nat,
        |i: int|
            composed_byte(
                rect,
                parts,
                left + (i % (width * 4)) / 4,
                top + i / (width * 4),
                i % 4,
                parts.len(),
            ),
    )
}

proof fn lemma_covered_box_within(rect: Rect, parts: Seq<(Rect, &CapturedImage)>, k: nat)
    requires
        k <= parts.len(),
    ensures
        covered_box(rect, parts, k) matches Some((l, t, r, b)) ==> rect.x <= l < r <= rect.x
            + rect.width && rect.y <= t < b <= rect.y + rect.height,
    decreases k,
{
    if k > 0 {
        lemma_covered_box_within(rect, parts, (k - 1) as nat);
    }
}

fn min_i64(a: i64, b: i64) -> (r: i64)
    ensures
        r == min_int(a as int, b as int),
{
    if a <= b {
        a
    } else {
        b
    }
}

fn max_i64(a: i64, b: i64) -> (r: i64)
    ensures
        r == max_int(a as int, b as int),
{
    if a >= b {
        a
    } else {
        b
    }
}

/// Byte `b` of the pixel at (`x`, `y`) from the frame of one output.
fn read_part_byte(rect: Rect, geom: Rect, img: &CapturedImage, x: i64, y: i64, b: u64) -> (r: Option<u8>)
    requires
        b < 4,
        rect.x <= x < rect.x + rect.width,
        rect.y <= y < rect.y + rect.height,
    ensures
        r == part_byte(rect, geom, *img, x as int, y as int, b as int),
{
    match rect.intersection(&geom) {
        Some(o) => {
            if (o.x as i64) <= x && x < o.x as i64 + o.width as i64 && (o.y as i64) <= y && y
                < o.y as i64 + o.height as i64 {
                let lx = (x - geom.x as i64) as u128;
                let ly = (y - geom.y as i64) as u128;
                let gw = geom.width as u128;
                let gh = geom.height as u128;
                assert(lx < gw && ly < gh);
                assert(lx * img.width <= gw * 0xffff_ffff) by (nonlinear_arith)
                    requires
                        lx < gw,
                        img.width <= 0xffff_ffff,
                ;
                assert(gw * 0xffff_ffff <= 0xffff_ffff * 0xffff_ffff) by (nonlinear_arith)
                    requires
                        gw <= 0xffff_ffff,
                ;
                assert(ly * img.height <= gh * 0xffff_ffff) by (nonlinear_arith)
                    requires
                        ly < gh,
                        img.height <= 0xffff_ffff,
                ;
                assert(gh * 0xffff_ffff <= 0xffff_ffff * 0xffff_ffff) by (nonlinear_arith)
                    requires
                        gh <= 0xffff_ffff,
                ;
                let sx = lx * (img.width as u128) / gw;
                let sy = ly * (img.height as u128) / gh;
                assert(sx <= lx * img.width) by (nonlinear_arith)
                    requires
                        sx == lx * img.width / (gw as int),
                        gw > 0,
                ;
                assert(sy <= ly * img.height) by (nonlinear_arith)
                    requires
                        sy == ly * img.height / (gh as int),
                        gh > 0,
                ;
                assert(sy * img.stride <= 0xffff_ffff * 0xffff_ffff * 0xffff_ffff) by (nonlinear_arith)
                    requires
                        sy <= 0xffff_ffff * 0xffff_ffff,
                        img.stride <= 0xffff_ffff,
                ;
                let idx = sy * (img.stride as u128) + sx * 4 + b as u128;
                if idx < img.data.len() as u128 {
                    Some(img.data[idx as usize])
                } else {
                    None
                }
            } else {
                None
            }
        },
        None => None,
    }
}

/// Assembles the pixels of `rect` from the frames of the outputs it falls
/// on, each given with its output's geometry. The result covers the part of
/// `rect` that the outputs show, with packed rows; each output contributes
/// its own part, sampled at the frame's resolution, a later output painting
/// over an earlier one; a gap between outputs stays zero.
pub fn compose_region(rect: Rect, parts: &[(Rect, &CapturedImage)]) -> (r: Result<
    CapturedImage,
    ComposeError,
>)
    requires
        rect.width <= 0 || rect.height <= 0 || rect.width * rect.height * 4 <= usize::MAX,
    ensures
        covered_box(rect, parts@, parts@.len()) is None ==> r == Err::<CapturedImage, ComposeError>(
            ComposeError::NotOnAnyOutput { selection: rect },
        ),
        covered_box(rect, parts@, parts@.len()) matches Some((l, t, right, bottom)) ==> {
            let format = parts@[0].1.format;
            match first_other_format(parts@, format, parts@.len()) {
                Some(j) => r == Err::<CapturedImage, ComposeError>(
                    ComposeError::MixedFormats {
                        x: parts@[j].0.x,
                        y: parts@[j].0.y,
                        found: parts@[j].1.format,
                        expected: format,
                    },
                ),
                None => r matches Ok(img) && img.width == right - l && img.height == bottom - t
                    && img.stride == ((right - l) * 4) as u32 && img.format == format && img.data@
                    == composed_pixels(rect, parts@, l, t, right - l, bottom - t),
            }
        },
{
    let n = parts.len();
    let mut bounds: Option<(i64, i64, i64, i64)> = None;
    let mut k: usize = 0;
    while k < n
        invariant
            k <= n,
            n == parts@.len(),
            bounds matches Some((l, t, r, b)) ==> covered_box(rect, parts@, k as nat) == Some(
                (l as int, t as int, r as int, b as int),
            ),
            bounds is None ==> covered_box(rect, parts@, k as nat) is None,
        decreases n - k,
    {
        let (geom, _) = parts[k];
        match rect.intersection(&geom) {
            Some(o) => {
                let ox = o.x as i64;
                let oy = o.y as i64;
                let or = o.x as i64 + o.width as i64;
                let ob = o.y as i64 + o.height as i64;
                bounds = match bounds {
                    None => Some((ox, oy, or, ob)),
                    Some((l, t, r, b)) => Some(
                        (min_i64(l, ox), min_i64(t, oy), max_i64(r, or), max_i64(b, ob)),
                    ),
                };
            },
            None => {},
        }
        k = k + 1;
    }
    let (left, top, right, bottom) = match bounds {
        Some(bx) => bx,
        None => {
            return Err(ComposeError::NotOnAnyOutput { selection: rect });
        },
    };
    proof {
        lemma_covered_box_within(rect, parts@, n as nat);
    }
    if n == 0 {
        return Err(ComposeError::NoCaptures);
    }
    let format = parts[0].1.format;
    let mut j: usize = 0;
    let mut other: Option<usize> = None;
    while j < n && other.is_none()
        invariant
            j <= n,
            n == parts@.len(),
            format == parts@[0].1.format,
            other matches Some(m) ==> first_other_format(parts@, format, j as nat) == Some(m as int)
                && m < n,
            other is None ==> first_other_format(parts@, format, j as nat) is None,
        decreases n - j + (if other is None { 1int } else { 0int }),
    {
        if parts[j].1.format != format {
            other = Some(j);
        }
        j = j + 1;
    }
    proof {
        if other is Some {
            assert forall|m: nat| j <= m <= n implies first_other_format(parts@, format, m)
                == first_other_format(parts@, format, j as nat) by {
                lemma_first_other_format_stays(parts@, format, j as nat, m);
            }
        }
    }
    match other {
        Some(m) => {
            return Err(
                ComposeError::MixedFormats {
                    x: parts[m].0.x,
                    y: parts[m].0.y,
                    found: parts[m].1.format,
                    expected: format,
                },
            );
        },
        None => {},
    }
    let w = (right - left) as usize;
    let h = (bottom - top) as usize;
    assert(w * h * 4 <= rect.width * rect.height * 4) by (nonlinear_arith)
        requires
            0 < w <= rect.width,
            0 < h <= rect.height,
    ;
    assert(w * 4 * h == w * h * 4) by (nonlinear_arith);
    assert(w * 4 <= w * 4 * h) by (nonlinear_arith)
        requires
            h >= 1,
            w >= 0,
    ;
    let stride = w * 4;
    let len = stride * h;
    let ghost expected = composed_pixels(rect, parts@, left as int, top as int, w as int, h as int);
    let mut data: Vec<u8> = Vec::new();
    let mut i: usize = 0;
    while i < len
        invariant
            i <= len,
            len == stride * h,
            stride == w * 4,
            w > 0,
            h > 0,
            left + w <= rect.x + rect.width,
            top + h <= rect.y + rect.height,
            rect.x <= left,
            rect.y <= top,
            n == parts@.len(),
            expected == composed_pixels(rect, parts@, left as int, top as int, w as int, h as int),
            expected.len() == len,
            data@ == expected.take(i as int),
        decreases len - i,
    {
        let px = (i % stride) / 4;
        let py = i / stride;
        let b = i % 4;
        assert(px < w) by (nonlinear_arith)
            requires
                px == (i % stride) / 4,
                stride == w * 4,
                w > 0,
        ;
        assert(py < h) by (nonlinear_arith)
            requires
                py == i / stride,
                i < stride * h,
                stride > 0,
        ;
        let x = left + px as i64;
        let y = top + py as i64;
        let mut value: u8 = 0;
        let mut k: usize = 0;
        while k < n
            invariant
                k <= n,
                n == parts@.len(),
                b < 4,
                rect.x <= x < rect.x + rect.width,
                rect.y <= y < rect.y + rect.height,
                value == composed_byte(rect, parts@, x as int, y as int, b as int, k as nat),
            decreases n - k,
        {
            let (geom, img) = parts[k];
            match read_part_byte(rect, geom, img, x, y, b as u64) {
                Some(v) => {
                    value = v;
                },
                None => {},
            }
            k = k + 1;
        }
        data.push(value);
        proof {
            assert(expected[i as int] == value);
            assert(data@ =~= expected.take(i + 1));
        }
        i = i + 1;
    }
    assert(data@ =~= expected);
    let packed: u32 = #[verifier::truncate] (stride as u32);
    Ok(CapturedImage { data, width: w as u32, height: h as u32, stride: packed, format })
}

proof fn lemma_first_other_format_stays(
    parts: Seq<(Rect, &CapturedImage)>,
    format: u32,
    j: nat,
    m: nat,
)
    requires
        j <= m,
        first_other_format(parts, format, j) is Some,
    ensures
        first_other_format(parts, format, m) == first_other_format(parts, format, j),
    decreases m - j,
{
    if m > j {
        lemma_first_other_format_stays(parts, format, j, (m - 1) as nat);
    }
}

} // verus!
