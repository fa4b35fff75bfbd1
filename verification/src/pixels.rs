//! Pixel buffers: copying rectangles between ARGB8888 buffers, converting
//! them to RGBA8888, and darkening them.
use vstd::prelude::*;

verus! {

/// Where the bytes of `row` start, at `x` pixels in, in a buffer whose rows
/// are `stride` bytes apart.
pub open spec fn row_start(row: int, stride: int, x: int) -> int {
    row * stride + x * 4
}

/// Whether the `width` pixels of `row` starting at `x` lie in a buffer of
/// `len` bytes.
pub open spec fn row_fits(len: int, row: int, stride: int, x: int, width: int) -> bool {
    row_start(row, stride, x) + width * 4 <= len
}

/// `dst` with the `n` bytes at `d` replaced by the `n` bytes of `src` at `s`.
pub open spec fn copy_bytes(dst: Seq<u8>, d: int, src: Seq<u8>, s: int, n: int) -> Seq<u8> {
    Seq::new(dst.len(), |i: int| if d <= i < d + n { src[s + (i - d)] } else { dst[i] })
}

/// The number of rows, counted from `r`, that a copy of `height` rows at
/// (`x`, `y`) makes before it meets a row lying past either buffer.
pub open spec fn fitting_rows(
    dst_len: int,
    dst_stride: int,
    src_len: int,
    src_stride: int,
    x: int,
    y: int,
    width: int,
    height: nat,
    r: nat,
) -> nat
    decreases height - r,
{
    if r >= height {
        height
    } else if row_fits(dst_len, y + r, dst_stride, x, width) && row_fits(
        src_len,
        y + r,
        src_stride,
        x,
        width,
    ) {
        fitting_rows(dst_len, dst_stride, src_len, src_stride, x, y, width, height, r + 1)
    } else {
        r
    }
}

/// `dst` after the first `k` rows of the rectangle at (`x`, `y`) were copied
/// from `src`, row after row.
pub open spec fn blitted(
    dst: Seq<u8>,
    dst_stride: int,
    src: Seq<u8>,
    src_stride: int,
    x: int,
    y: int,
    width: int,
    k: nat,
) -> Seq<u8>
    decreases k,
{
    if k == 0 {
        dst
    } else {
        let row = y + k - 1;
        copy_bytes(
            blitted(dst, dst_stride, src, src_stride, x, y, width, (k - 1) as nat),
            row_start(row, dst_stride, x),
            src,
            row_start(row, src_stride, x),
            width * 4,
        )
    }
}

/// Whether row `row` of the copy lies in both buffers.
pub open spec fn both_fit(
    dst_len: int,
    dst_stride: int,
    src_len: int,
    src_stride: int,
    x: int,
    row: int,
    width: int,
) -> bool {
    row_fits(dst_len, row, dst_stride, x, width) && row_fits(src_len, row, src_stride, x, width)
}

proof fn lemma_fitting_rows(
    dst_len: int,
    dst_stride: int,
    src_len: int,
    src_stride: int,
    x: int,
    y: int,
    width: int,
    height: nat,
    k: nat,
    r: nat,
)
    requires
        r <= k <= height,
        forall|j: int|
            0 <= j < k ==> #[trigger] both_fit(
                dst_len,
                dst_stride,
                src_len,
                src_stride,
                x,
                y + j,
                width,
            ),
        k == height || !both_fit(dst_len, dst_stride, src_len, src_stride, x, y + k, width),
    ensures
        fitting_rows(dst_len, dst_stride, src_len, src_stride, x, y, width, height, r) == k,
    decreases k - r,
{
    if r < k {
        assert(both_fit(dst_len, dst_stride, src_len, src_stride, x, y + r, width));
        lemma_fitting_rows(
            dst_len,
            dst_stride,
            src_len,
            src_stride,
            x,
            y,
            width,
            height,
            k,
            r + 1,
        );
    }
}

/// Where the `width` pixels of `row` at `x` start in a buffer of `len`
/// bytes whose rows are `stride` bytes apart, when they lie in it.
fn row_span(row: usize, stride: usize, x: usize, width: usize, len: usize) -> (r: Option<usize>)
    requires
        x * 4 <= usize::MAX,
        width * 4 <= usize::MAX,
    ensures
        r matches Some(d) ==> d == row_start(row as int, stride as int, x as int) && row_fits(
            len as int,
            row as int,
            stride as int,
            x as int,
            width as int,
        ),
        r is None ==> !row_fits(len as int, row as int, stride as int, x as int, width as int),
{
    let x_bytes = x * 4;
    let row_bytes = width * 4;
    match row.checked_mul(stride) {
        Some(p) => match p.checked_add(x_bytes) {
            Some(d) => {
                if d <= len && row_bytes <= len - d {
                    Some(d)
                } else {
                    None
                }
            },
            None => None,
        },
        None => {
            assert(row * stride + x * 4 + width * 4 > usize::MAX) by (nonlinear_arith)
                requires
                    row * stride > usize::MAX,
                    x >= 0,
                    width >= 0,
            ;
            None
        },
    }
}

/// Copies the rectangle of `width` by `height` pixels at (`x`, `y`) from
/// `src` to the same place in `dst`, each buffer addressed through its own
/// stride. The copy stops at the first row that reaches past either buffer,
/// so an oversized rectangle is clipped rather than refused.
pub fn blit(
    dst: &mut [u8],
    dst_stride: usize,
    src: &[u8],
    src_stride: usize,
    x: usize,
    y: usize,
    width: usize,
    height: usize,
)
    requires
        y + height <= usize::MAX,
        x * 4 <= usize::MAX,
        width * 4 <= usize::MAX,
    ensures
        final(dst)@ == blitted(
            old(dst)@,
            dst_stride as int,
            src@,
            src_stride as int,
            x as int,
            y as int,
            width as int,
            fitting_rows(
                old(dst)@.len() as int,
                dst_stride as int,
                src@.len() as int,
                src_stride as int,
                x as int,
                y as int,
                width as int,
                height as nat,
                0,
            ),
        ),
{
    let ghost original = dst@;
    let ghost dst_len = dst@.len() as int;
    let ghost src_len = src@.len() as int;
    let mut row: usize = 0;
    let mut going = true;
    while going && row < height
        invariant
            row <= height,
            y + height <= usize::MAX,
            x * 4 <= usize::MAX,
            width * 4 <= usize::MAX,
            dst@.len() == dst_len,
            dst_len == original.len(),
            src_len == src@.len(),
            dst@ == blitted(
                original,
                dst_stride as int,
                src@,
                src_stride as int,
                x as int,
                y as int,
                width as int,
                row as nat,
            ),
            forall|j: int|
                0 <= j < row ==> #[trigger] both_fit(
                    dst_len,
                    dst_stride as int,
                    src_len,
                    src_stride as int,
                    x as int,
                    y + j,
                    width as int,
                ),
            !going ==> !both_fit(
                dst_len,
                dst_stride as int,
                src_len,
                src_stride as int,
                x as int,
                y + row,
                width as int,
            ),
        decreases height - row + (if going { 1int } else { 0int }),
    {
        let dst_span = row_span(y + row, dst_stride, x, width, dst.len());
        let src_span = row_span(y + row, src_stride, x, width, src.len());
        let starts = match (dst_span, src_span) {
            (Some(d), Some(s)) => Some((d, s, width * 4)),
            _ => None,
        };
        match starts {
            Some((d, s, n)) => {
                assert(d == row_start(y + row, dst_stride as int, x as int));
                assert(s == row_start(y + row, src_stride as int, x as int));
                let ghost before = dst@;
                let dlen = dst.len();
                let slen = src.len();
                let mut c: usize = 0;
                while c < n
                    invariant
                        c <= n,
                        dst@.len() == dlen,
                        src@.len() == slen,
                        n == width * 4,
                        d == row_start(y + row, dst_stride as int, x as int),
                        s == row_start(y + row, src_stride as int, x as int),
                        row_fits(dst@.len() as int, y + row, dst_stride as int, x as int, width as int),
                        row_fits(src@.len() as int, y + row, src_stride as int, x as int, width as int),
                        d + n <= dst@.len(),
                        s + n <= src@.len(),
                        dst@.len() == before.len(),
                        dst@ == copy_bytes(before, d as int, src@, s as int, c as int),
                    decreases n - c,
                {
                    dst[d + c] = src[s + c];
                    c = c + 1;
                    assert(dst@ =~= copy_bytes(before, d as int, src@, s as int, c as int));
                }
                assert(both_fit(
                    dst_len,
                    dst_stride as int,
                    src_len,
                    src_stride as int,
                    x as int,
                    y + row,
                    width as int,
                ));
                row = row + 1;
            },
            None => {
                going = false;
            },
        }
    }
    proof {
        lemma_fitting_rows(
            dst_len,
            dst_stride as int,
            src_len,
            src_stride as int,
            x as int,
            y as int,
            width as int,
            height as nat,
            row as nat,
            0,
        );
    }
}

/// Copies the `n` bytes of `src` at `s` over those of `dst` at `d`.
fn copy_span(dst: &mut [u8], d: usize, src: &[u8], s: usize, n: usize)
    requires
        d + n <= old(dst)@.len(),
        s + n <= src@.len(),
    ensures
        final(dst)@ == copy_bytes(old(dst)@, d as int, src@, s as int, n as int),
{
    let ghost before = dst@;
    let dl = dst.len();
    let sl = src.len();
    let mut c: usize = 0;
    while c < n
        invariant
            c <= n,
            dst@.len() == dl,
            src@.len() == sl,
            d + n <= dst@.len(),
            s + n <= src@.len(),
            dst@.len() == before.len(),
            dst@ == copy_bytes(before, d as int, src@, s as int, c as int),
        decreases n - c,
    {
        dst[d + c] = src[s + c];
        c = c + 1;
        assert(dst@ =~= copy_bytes(before, d as int, src@, s as int, c as int));
    }
}

/// `dst` after the rows `0..k` of a frame `width` pixels wide were copied
/// from `src`, whose rows are `src_stride` bytes apart, each row that lies in
/// both buffers; a row that does not is left as it was.
pub open spec fn frozen_rows(dst: Seq<u8>, src: Seq<u8>, src_stride: int, width: int, k: nat) -> Seq<u8>
    decreases k,
{
    if k == 0 {
        dst
    } else {
        let prev = frozen_rows(dst, src, src_stride, width, (k - 1) as nat);
        let row = k - 1;
        if both_fit(dst.len() as int, width * 4, src.len() as int, src_stride, 0, row, width) {
            copy_bytes(prev, row_start(row, width * 4, 0), src, row_start(row, src_stride, 0), width * 4)
        } else {
            prev
        }
    }
}

/// A frozen frame laid under a fresh buffer of `height` rows of `width`
/// pixels: where the strides agree, as many bytes as both buffers hold, at
/// once; where they differ, row by row.
pub open spec fn frozen_copy(dst: Seq<u8>, src: Seq<u8>, src_stride: int, width: int, height: nat) -> Seq<u8> {
    if src_stride == width * 4 {
        let n = if dst.len() <= src.len() {
            dst.len()
        } else {
            src.len()
        };
        copy_bytes(dst, 0, src, 0, n as int)
    } else {
        frozen_rows(dst, src, src_stride, width, height)
    }
}

proof fn lemma_frozen_rows_len(dst: Seq<u8>, src: Seq<u8>, src_stride: int, width: int, k: nat)
    ensures
        frozen_rows(dst, src, src_stride, width, k).len() == dst.len(),
    decreases k,
{
    if k > 0 {
        lemma_frozen_rows_len(dst, src, src_stride, width, (k - 1) as nat);
    }
}

/// Copies a frozen frame into the buffer a fresh one is drawn on, before
/// anything is drawn over it. The buffer's rows are `width * 4` bytes apart
/// and the frozen frame's `frozen_stride`; rows that would reach past either
/// buffer are skipped.
pub fn copy_frozen(buffer: &mut [u8], frozen: &[u8], frozen_stride: usize, width: usize, height: usize)
    requires
        width * 4 <= usize::MAX,
    ensures
        final(buffer)@ == frozen_copy(old(buffer)@, frozen@, frozen_stride as int, width as int, height as nat),
{
    let stride = width * 4;
    if frozen_stride == stride {
        let n = if buffer.len() <= frozen.len() {
            buffer.len()
        } else {
            frozen.len()
        };
        copy_span(buffer, 0, frozen, 0, n);
        return;
    }
    let ghost original = buffer@;
    let ghost dst_len = buffer@.len() as int;
    let mut y: usize = 0;
    while y < height
        invariant
            y <= height,
            stride == width * 4,
            width * 4 <= usize::MAX,
            buffer@.len() == dst_len,
            dst_len == original.len(),
            buffer@ == frozen_rows(original, frozen@, frozen_stride as int, width as int, y as nat),
        decreases height - y,
    {
        let dst_span = row_span(y, stride, 0, width, buffer.len());
        let src_span = row_span(y, frozen_stride, 0, width, frozen.len());
        proof {
            lemma_frozen_rows_len(original, frozen@, frozen_stride as int, width as int, y as nat);
        }
        match (dst_span, src_span) {
            (Some(d), Some(s)) => {
                copy_span(buffer, d, frozen, s, stride);
            },
            _ => {},
        }
        y = y + 1;
    }
}

/// Where byte `c` of an RGBA8888 pixel comes from in its ARGB8888 pixel,
/// whose bytes stand blue, green, red, alpha.
pub open spec fn rgba_source(c: int) -> int {
    if c == 0 {
        2
    } else if c == 2 {
        0
    } else {
        c
    }
}

/// ARGB8888 pixels as RGBA8888: each whole pixel with its red and blue bytes
/// exchanged, and zeros for the bytes of a trailing partial pixel.
pub open spec fn converted(b: Seq<u8>) -> Seq<u8> {
    Seq::new(
        b.len(),
        |i: int|
            if i < 4 * (b.len() / 4) {
                b[i - i % 4 + rgba_source(i % 4)]
            } else {
                0u8
            },
    )
}

/// Converts ARGB8888 pixels to RGBA8888: each whole pixel has its red and
/// blue bytes exchanged, and the bytes of a trailing partial pixel come out
/// as zero.
pub fn convert_argb_to_rgba(buffer: &[u8]) -> (rgba: Vec<u8>)
    ensures
        rgba@ == converted(buffer@),
        rgba@.len() == buffer@.len(),
        forall|p: int, c: int|
            0 <= p < buffer@.len() / 4 && 0 <= c < 4 ==> #[trigger] rgba@[4 * p + c] == buffer@[4
                * p + rgba_source(c)],
        forall|i: int| 4 * (buffer@.len() / 4) <= i < buffer@.len() ==> #[trigger] rgba@[i] == 0,
{
    let n = buffer.len();
    let pixels = n / 4;
    let mut rgba: Vec<u8> = Vec::new();
    let mut p: usize = 0;
    while p < pixels
        invariant
            p <= pixels,
            pixels == n / 4,
            n == buffer@.len(),
            rgba@.len() == 4 * p,
            forall|q: int, c: int|
                0 <= q < p && 0 <= c < 4 ==> #[trigger] rgba@[4 * q + c] == buffer@[4 * q
                    + rgba_source(c)],
        decreases pixels - p,
    {
        let at = 4 * p;
        rgba.push(buffer[at + 2]);
        rgba.push(buffer[at + 1]);
        rgba.push(buffer[at]);
        rgba.push(buffer[at + 3]);
        p = p + 1;
        assert forall|q: int, c: int| 0 <= q < p && 0 <= c < 4 implies #[trigger] rgba@[4 * q + c]
            == buffer@[4 * q + rgba_source(c)] by {
            if q == p - 1 {
                assert(4 * q + c == at + c);
            }
        }
    }
    while rgba.len() < n
        invariant
            rgba@.len() <= n,
            rgba@.len() >= 4 * pixels,
            pixels == n / 4,
            n == buffer@.len(),
            forall|q: int, c: int|
                0 <= q < pixels && 0 <= c < 4 ==> #[trigger] rgba@[4 * q + c] == buffer@[4 * q
                    + rgba_source(c)],
            forall|i: int| 4 * pixels <= i < rgba@.len() ==> #[trigger] rgba@[i] == 0,
        decreases n - rgba@.len(),
    {
        rgba.push(0);
    }
    proof {
        assert forall|i: int| 0 <= i < n implies #[trigger] rgba@[i] == converted(buffer@)[i] by {
            if i < 4 * pixels {
                let q = i / 4;
                let c = i % 4;
                assert(i == 4 * q + c);
                assert(rgba@[4 * q + c] == buffer@[4 * q + rgba_source(c)]);
            }
        }
        assert(rgba@ =~= converted(buffer@));
    }
    rgba
}

/// A colour byte darkened to `keep` 255ths of itself.
pub open spec fn dimmed_byte(b: u8, keep: int) -> int {
    (b * keep) / 255
}

/// Darkens each whole ARGB8888 pixel of `buffer` to `keep` 255ths of its
/// colour, leaving alpha, and the bytes of a trailing partial pixel, as they
/// are.
pub fn dim_argb_by(buffer: &[u8], keep: u32) -> (dimmed: Vec<u8>)
    requires
        keep <= 255,
    ensures
        dimmed@.len() == buffer@.len(),
        forall|p: int, c: int|
            0 <= p < buffer@.len() / 4 && 0 <= c < 3 ==> #[trigger] dimmed@[4 * p + c]
                == dimmed_byte(buffer@[4 * p + c], keep as int),
        forall|p: int| 0 <= p < buffer@.len() / 4 ==> #[trigger] dimmed@[4 * p + 3] == buffer@[4 * p
            + 3],
        forall|i: int| 4 * (buffer@.len() / 4) <= i < buffer@.len() ==> #[trigger] dimmed@[i]
            == buffer@[i],
{
    let n = buffer.len();
    let pixels = n / 4;
    let mut dimmed: Vec<u8> = Vec::new();
    let mut i: usize = 0;
    while i < n
        invariant
            i <= n,
            n == buffer@.len(),
            pixels == n / 4,
            keep <= 255,
            dimmed@.len() == i,
            forall|j: int|
                0 <= j < i ==> #[trigger] dimmed@[j] == (if j < 4 * pixels && j % 4 != 3 {
                    dimmed_byte(buffer@[j], keep as int)
                } else {
                    buffer@[j] as int
                }),
        decreases n - i,
    {
        let b = buffer[i];
        if i < 4 * pixels && i % 4 != 3 {
            assert((b as u32) * keep <= 255 * 255) by (nonlinear_arith)
                requires
                    b <= 255,
                    keep <= 255,
            ;
            let v = (b as u32) * keep / 255;
            assert(v <= 255) by (nonlinear_arith)
                requires
                    v == (b as u32) * keep / 255,
                    (b as u32) * keep <= 255 * 255,
            ;
            dimmed.push(v as u8);
        } else {
            dimmed.push(b);
        }
        i = i + 1;
    }
    proof {
        assert forall|p: int, c: int| 0 <= p < pixels && 0 <= c < 3 implies #[trigger] dimmed@[4 * p
            + c] == dimmed_byte(buffer@[4 * p + c], keep as int) by {
            assert((4 * p + c) % 4 == c);
        }
        assert forall|p: int| 0 <= p < pixels implies #[trigger] dimmed@[4 * p + 3] == buffer@[4 * p
            + 3] by {
            assert((4 * p + 3) % 4 == 3);
        }
    }
    dimmed
}

/// Converting whole ARGB8888 pixels to RGBA8888 twice gives the pixels back:
/// the conversion exchanges two bytes of each pixel.
pub proof fn law_rgba_conversion_is_an_involution(buffer: Seq<u8>)
    ensures
        forall|i: int|
            0 <= i < 4 * (buffer.len() / 4) ==> #[trigger] converted(converted(buffer))[i]
                == buffer[i],
{
    let once = converted(buffer);
    assert forall|i: int| 0 <= i < 4 * (buffer.len() / 4) implies #[trigger] converted(once)[i]
        == buffer[i] by {
        let c = i % 4;
        let j = i - c + rgba_source(c);
        assert(0 <= c < 4);
        assert(j % 4 == rgba_source(c)) by {
            assert(i - c == 4 * (i / 4));
        }
        assert(j - j % 4 == i - c);
        assert(j < 4 * (buffer.len() / 4)) by {
            assert(i - c == 4 * (i / 4));
        }
    }
}

} // verus!
