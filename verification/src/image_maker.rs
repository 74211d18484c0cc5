//! Frames as tight pixel buffers, and their layout on the sheet.

use crate::cli::Args;
use crate::error::SheetError;
use crate::info::{info_area_height, is_header, plot_info, spec_info_area_height, Info};
use crate::text::{Anchor, Label};
use vstd::arithmetic::div_mod::{lemma_fundamental_div_mod, lemma_mod_bound};
use vstd::prelude::*;

verus! {

/// Where the byte of channel `ch` of the pixel `(px, py)` stands in a
/// tight buffer of three bytes a pixel and `w` pixels a row.
pub open spec fn offset(w: int, px: int, py: int, ch: int) -> int {
    py * (w * 3) + px * 3 + ch
}

/// An image of three bytes a pixel, rows from the top, with no padding
/// between the rows.
#[derive(Debug)]
pub struct Image {
    pub width: usize,
    pub height: usize,
    pub data: Vec<u8>,
}

/// Offsets of pixels inside the image lie inside its buffer.
pub proof fn lemma_offset_bounds(w: int, h: int, px: int, py: int, ch: int)
    requires
        0 <= px < w,
        0 <= py < h,
        0 <= ch < 3,
    ensures
        0 <= py * (w * 3),
        w * 3 <= h * (w * 3),
        py * (w * 3) + w * 3 <= h * (w * 3),
        0 <= offset(w, px, py, ch) < h * (w * 3),
        h * (w * 3) == w * h * 3,
{
    assert(0 <= py * (w * 3) && py * (w * 3) + w * 3 <= h * (w * 3) && h * (w * 3) == w * h * 3
        && w * 3 <= h * (w * 3)) by (nonlinear_arith)
        requires
            0 <= py < h,
            0 < w,
    ;
}

/// Different pixels or channels have different offsets.
pub proof fn lemma_offset_injective(
    w: int,
    px: int,
    py: int,
    ch: int,
    qx: int,
    qy: int,
    dh: int,
)
    requires
        0 <= px < w,
        0 <= qx < w,
        0 <= ch < 3,
        0 <= dh < 3,
        0 <= py,
        0 <= qy,
        offset(w, px, py, ch) == offset(w, qx, qy, dh),
    ensures
        px == qx && py == qy && ch == dh,
{
    if py < qy {
        assert(py * (w * 3) + w * 3 <= qy * (w * 3)) by (nonlinear_arith)
            requires
                py < qy,
                0 < w,
        ;
    } else if qy < py {
        assert(qy * (w * 3) + w * 3 <= py * (w * 3)) by (nonlinear_arith)
            requires
                qy < py,
                0 < w,
        ;
    }
}

impl Image {
    /// The buffer holds exactly three bytes for each pixel.
    pub open spec fn wf(&self) -> bool {
        self.data@.len() == self.width * self.height * 3
    }

    /// Whether `(px, py)` is a pixel of the image and `ch` one of its
    /// channels.
    pub open spec fn holds(&self, px: int, py: int, ch: int) -> bool {
        0 <= px < self.width && 0 <= py < self.height && 0 <= ch < 3
    }

    /// The byte of channel `ch` of the pixel `(px, py)`.
    pub open spec fn pixel(&self, px: int, py: int, ch: int) -> u8 {
        self.data@[offset(self.width as int, px, py, ch)]
    }

    /// An image of the given size with every byte set to `value`.
    pub fn filled(width: usize, height: usize, value: u8) -> (img: Image)
        requires
            width * height * 3 <= usize::MAX,
        ensures
            img.wf(),
            img.width == width,
            img.height == height,
            forall|i: int| 0 <= i < img.data@.len() ==> img.data@[i] == value,
    {
        assert(width * height <= width * height * 3) by (nonlinear_arith)
            requires
                width * height >= 0,
        ;
        let n: usize = width * height * 3;
        let mut data: Vec<u8> = Vec::new();
        let mut i: usize = 0;
        while i < n
            invariant
                i <= n,
                data@.len() == i,
                forall|k: int| 0 <= k < i ==> data@[k] == value,
            decreases n - i,
        {
            data.push(value);
            i += 1;
        }
        Image { width, height, data }
    }

    /// Reads one byte of one pixel.
    pub fn get(&self, px: usize, py: usize, ch: usize) -> (v: u8)
        requires
            self.wf(),
            self.holds(px as int, py as int, ch as int),
        ensures
            v == self.pixel(px as int, py as int, ch as int),
    {
        let size: usize = self.data.len();
        proof {
            lemma_offset_bounds(
                self.width as int,
                self.height as int,
                px as int,
                py as int,
                ch as int,
            );
        }
        self.data[py * (self.width * 3) + px * 3 + ch]
    }

    /// Writes one byte of one pixel and leaves every other byte alone.
    pub fn set(&mut self, px: usize, py: usize, ch: usize, v: u8)
        requires
            old(self).wf(),
            old(self).holds(px as int, py as int, ch as int),
        ensures
            final(self).wf(),
            final(self).width == old(self).width,
            final(self).height == old(self).height,
            final(self).pixel(px as int, py as int, ch as int) == v,
            forall|qx: int, qy: int, dh: int|
                old(self).holds(qx, qy, dh) && !(qx == px && qy == py && dh == ch)
                    ==> #[trigger] final(self).pixel(qx, qy, dh) == old(self).pixel(qx, qy, dh),
    {
        proof {
            lemma_offset_bounds(
                self.width as int,
                self.height as int,
                px as int,
                py as int,
                ch as int,
            );
        }
        let size: usize = self.data.len();
        let at: usize = py * (self.width * 3) + px * 3 + ch;
        self.data.set(at, v);
        assert forall|qx: int, qy: int, dh: int|
            old(self).holds(qx, qy, dh) && !(qx == px && qy == py && dh == ch)
            implies #[trigger] self.pixel(qx, qy, dh) == old(self).pixel(qx, qy, dh) by {
            if offset(self.width as int, qx, qy, dh) == at {
                lemma_offset_injective(self.width as int, px as int, py as int, ch as int, qx, qy, dh);
            }
            lemma_offset_bounds(self.width as int, self.height as int, qx, qy, dh);
        }
    }
}

/// Rows of `w3` bytes lie one behind the other.
proof fn lemma_rows_apart(py: int, row: int, w3: int)
    requires
        0 <= py < row,
        0 <= w3,
    ensures
        0 <= py * w3,
        py * w3 + w3 <= row * w3,
{
    assert(0 <= py * w3 && py * w3 + w3 <= row * w3) by (nonlinear_arith)
        requires
            0 <= py < row,
            0 <= w3,
    ;
}

/// The byte at `off` in row `py` of a buffer whose rows are `stride` bytes
/// apart.
pub open spec fn byte_at(data: Seq<u8>, stride: int, py: int, off: int) -> u8 {
    data[py * stride + off]
}

/// Copies a frame whose rows are `line_size` bytes apart, with padding
/// behind the pixels of each row, into a tight image. A frame of more than
/// one plane is refused.
pub fn open_frame_data(
    width: usize,
    height: usize,
    line_size: usize,
    planes: usize,
    data: &[u8],
) -> (res: Result<Image, SheetError>)
    requires
        data@.len() == line_size * height,
        height > 0 ==> width * 3 <= line_size,
    ensures
        planes != 1 <==> res == Err::<Image, SheetError>(SheetError::UnsupportedPixelLayout),
        planes == 1 ==> res is Ok,
        res is Ok ==> {
            let img = res->Ok_0;
            &&& img.wf()
            &&& img.width == width
            &&& img.height == height
            &&& forall|px: int, py: int, ch: int|
                img.holds(px, py, ch) ==> #[trigger] img.pixel(px, py, ch) == byte_at(
                    data@,
                    line_size as int,
                    py,
                    px * 3 + ch,
                )
        },
{
    if planes != 1 {
        return Err(SheetError::UnsupportedPixelLayout);
    }
    let mut out: Vec<u8> = Vec::new();
    if height == 0 {
        assert(width * 0 * 3 == 0) by (nonlinear_arith);
        return Ok(Image { width, height, data: out });
    }
    let total: usize = data.len();
    let w3: usize = width * 3;
    assert(height * line_size == line_size * height) by (nonlinear_arith);
    let mut row: usize = 0;
    while row < height
        invariant
            row <= height,
            height * line_size == total,
            w3 == width * 3,
            w3 <= line_size,
            data@.len() == total,
            out@.len() == row * w3,
            forall|py: int, off: int|
                0 <= py < row && 0 <= off < w3 ==> #[trigger] byte_at(out@, w3 as int, py, off)
                    == byte_at(data@, line_size as int, py, off),
        decreases height - row,
    {
        proof {
            lemma_rows_apart(row as int, height as int, line_size as int);
            lemma_rows_apart(row as int, height as int, w3 as int);
        }
        let base: usize = row * line_size;
        let mut b: usize = 0;
        while b < w3
            invariant
                row < height,
                b <= w3,
                w3 <= line_size,
                base == row * line_size,
                base + line_size <= total,
                total == data@.len(),
                out@.len() == row * w3 + b,
                forall|py: int, off: int|
                    0 <= py < row && 0 <= off < w3 ==> #[trigger] byte_at(
                        out@,
                        w3 as int,
                        py,
                        off,
                    ) == byte_at(data@, line_size as int, py, off),
                forall|off: int|
                    0 <= off < b ==> #[trigger] byte_at(out@, w3 as int, row as int, off)
                        == byte_at(data@, line_size as int, row as int, off),
            decreases w3 - b,
        {
            let ghost prev = out@;
            out.push(data[base + b]);
            proof {
                assert forall|py: int, off: int| 0 <= py < row && 0 <= off < w3 implies #[trigger] byte_at(
                    out@,
                    w3 as int,
                    py,
                    off,
                ) == byte_at(data@, line_size as int, py, off) by {
                    lemma_rows_apart(py, row as int, w3 as int);
                    assert(byte_at(prev, w3 as int, py, off) == byte_at(
                        data@,
                        line_size as int,
                        py,
                        off,
                    ));
                }
                assert forall|off: int| 0 <= off < b + 1 implies #[trigger] byte_at(
                    out@,
                    w3 as int,
                    row as int,
                    off,
                ) == byte_at(data@, line_size as int, row as int, off) by {
                    if off < b {
                        assert(byte_at(prev, w3 as int, row as int, off) == byte_at(
                            data@,
                            line_size as int,
                            row as int,
                            off,
                        ));
                    }
                }
            }
            b += 1;
        }
        proof {
            assert((row + 1) * w3 == row * w3 + w3) by (nonlinear_arith);
        }
        row += 1;
    }
    let img = Image { width, height, data: out };
    proof {
        assert(height * w3 == width * height * 3) by (nonlinear_arith)
            requires
                w3 == width * 3,
        ;
        assert forall|px: int, py: int, ch: int| img.holds(px, py, ch) implies #[trigger] img.pixel(
            px,
            py,
            ch,
        ) == byte_at(data@, line_size as int, py, px * 3 + ch) by {
            assert(img.pixel(px, py, ch) == byte_at(img.data@, w3 as int, py, px * 3 + ch));
        }
    }
    Ok(img)
}

/// Decimal digits of `n` as bytes of text, most significant first.
pub open spec fn decimal_bytes(n: nat) -> Seq<u8>
    decreases n,
{
    if n < 10 {
        seq![(48 + n) as u8]
    } else {
        decimal_bytes(n / 10).push((48 + n % 10) as u8)
    }
}

/// The head of a binary colour pixmap of `width` by `height` pixels with
/// bytes as samples: the line that names the format, the line of width and
/// height, the line `255`.
pub open spec fn ppm_header(width: nat, height: nat) -> Seq<u8> {
    seq![80u8, 54u8, 10u8] + decimal_bytes(width) + seq![32u8] + decimal_bytes(height) + seq![
        10u8,
        50u8,
        53u8,
        53u8,
        10u8,
    ]
}

fn push_decimal_bytes(out: &mut Vec<u8>, n: usize)
    ensures
        final(out)@ == old(out)@ + decimal_bytes(n as nat),
    decreases n,
{
    if n >= 10 {
        push_decimal_bytes(out, n / 10);
    }
    out.push(48u8 + (n % 10) as u8);
    assert(out@ == old(out)@ + decimal_bytes(n as nat));
}

/// The image as a binary pixmap: the head, then the pixels as they are,
/// row by row, three bytes each.
pub fn ppm_bytes(image: &Image) -> (out: Vec<u8>)
    ensures
        out@ == ppm_header(image.width as nat, image.height as nat) + image.data@,
{
    let mut out: Vec<u8> = Vec::new();
    out.push(80);
    out.push(54);
    out.push(10);
    push_decimal_bytes(&mut out, image.width);
    out.push(32);
    push_decimal_bytes(&mut out, image.height);
    out.push(10);
    out.push(50);
    out.push(53);
    out.push(53);
    out.push(10);
    assert(out@ == ppm_header(image.width as nat, image.height as nat));
    let ghost head = out@;
    let mut i: usize = 0;
    while i < image.data.len()
        invariant
            i <= image.data@.len(),
            out@ == head + image.data@.subrange(0, i as int),
        decreases image.data@.len() - i,
    {
        out.push(image.data[i]);
        i += 1;
        assert(image.data@.subrange(0, i as int) == image.data@.subrange(0, i - 1).push(
            image.data@[i - 1],
        ));
    }
    assert(image.data@.subrange(0, image.data@.len() as int) == image.data@);
    out
}

/// Whether the pixel `(px, py)` lies in the cell of size `w` by `h` whose
/// top left corner is `(x, y)`.
pub open spec fn in_cell(px: int, py: int, x: int, y: int, w: int, h: int) -> bool {
    x <= px < x + w && y <= py < y + h
}

/// Whether the pixel `(px, py)` lies on the frame one pixel wide that
/// runs just outside that cell.
pub open spec fn on_border(px: int, py: int, x: int, y: int, w: int, h: int) -> bool {
    x - 1 <= px <= x + w && y - 1 <= py <= y + h && !in_cell(px, py, x, y, w, h)
}

/// What a byte of the sheet holds once `frame` has been placed at
/// `(x, y)`: the frame's byte inside the cell, black on the border around
/// it, and `base`, what was there before, everywhere else.
pub open spec fn placed_byte(
    base: u8,
    frame: &Image,
    x: int,
    y: int,
    px: int,
    py: int,
    ch: int,
) -> u8 {
    if in_cell(px, py, x, y, frame.width as int, frame.height as int) {
        frame.pixel(px - x, py - y, ch)
    } else if on_border(px, py, x, y, frame.width as int, frame.height as int) {
        0
    } else {
        base
    }
}

/// Copies `frame` onto `canvas` with its top left corner at `(x, y)` and
/// draws a black border one pixel wide just outside it. What falls outside
/// the canvas is left out.
pub fn place(canvas: &mut Image, frame: &Image, x: usize, y: usize)
    requires
        old(canvas).wf(),
        frame.wf(),
        x + frame.width < usize::MAX,
        y + frame.height < usize::MAX,
    ensures
        final(canvas).wf(),
        final(canvas).width == old(canvas).width,
        final(canvas).height == old(canvas).height,
        forall|px: int, py: int, ch: int|
            old(canvas).holds(px, py, ch) ==> #[trigger] final(canvas).pixel(px, py, ch)
                == placed_byte(old(canvas).pixel(px, py, ch), frame, x as int, y as int, px, py, ch),
{
    let x0: usize = if x > 0 {
        x - 1
    } else {
        0
    };
    let y0: usize = if y > 0 {
        y - 1
    } else {
        0
    };
    let x1: usize = if x + frame.width + 1 < canvas.width {
        x + frame.width + 1
    } else {
        canvas.width
    };
    let y1: usize = if y + frame.height + 1 < canvas.height {
        y + frame.height + 1
    } else {
        canvas.height
    };
    let mut py: usize = y0;
    while py < y1
        invariant
            y0 <= py,
            y1 <= canvas.height,
            x1 <= canvas.width,
            canvas.wf(),
            frame.wf(),
            canvas.width == old(canvas).width,
            canvas.height == old(canvas).height,
            x0 == if x > 0 { x - 1 } else { 0 },
            y0 == if y > 0 { y - 1 } else { 0 },
            x1 == if x + frame.width + 1 < canvas.width { x + frame.width + 1 } else { canvas.width as int },
            y1 == if y + frame.height + 1 < canvas.height { y + frame.height + 1 } else { canvas.height as int },
            forall|qx: int, qy: int, ch: int|
                old(canvas).holds(qx, qy, ch) ==> #[trigger] canvas.pixel(qx, qy, ch) == if qy < py {
                    placed_byte(old(canvas).pixel(qx, qy, ch), frame, x as int, y as int, qx, qy, ch)
                } else {
                    old(canvas).pixel(qx, qy, ch)
                },
        decreases y1 - py,
    {
        let mut px: usize = x0;
        while px < x1
            invariant
                y0 <= py < y1,
                x0 <= px,
                y1 <= canvas.height,
                x1 <= canvas.width,
                canvas.wf(),
                frame.wf(),
                canvas.width == old(canvas).width,
                canvas.height == old(canvas).height,
                x0 == if x > 0 { x - 1 } else { 0 },
                y0 == if y > 0 { y - 1 } else { 0 },
                x1 == if x + frame.width + 1 < canvas.width { x + frame.width + 1 } else { canvas.width as int },
                y1 == if y + frame.height + 1 < canvas.height { y + frame.height + 1 } else { canvas.height as int },
                forall|qx: int, qy: int, ch: int|
                    old(canvas).holds(qx, qy, ch) ==> #[trigger] canvas.pixel(qx, qy, ch) == if qy
                        < py || (qy == py && qx < px) {
                        placed_byte(
                            old(canvas).pixel(qx, qy, ch),
                            frame,
                            x as int,
                            y as int,
                            qx,
                            qy,
                            ch,
                        )
                    } else {
                        old(canvas).pixel(qx, qy, ch)
                    },
            decreases x1 - px,
        {
            let inside: bool = x <= px && px - x < frame.width && y <= py && py - y < frame.height;
            let b0: u8 = if inside {
                frame.get(px - x, py - y, 0)
            } else {
                0
            };
            let b1: u8 = if inside {
                frame.get(px - x, py - y, 1)
            } else {
                0
            };
            let b2: u8 = if inside {
                frame.get(px - x, py - y, 2)
            } else {
                0
            };
            canvas.set(px, py, 0, b0);
            canvas.set(px, py, 1, b1);
            canvas.set(px, py, 2, b2);
            px += 1;
        }
        py += 1;
    }
}

/// The grid of a sheet.
#[derive(Clone, Copy, Debug, PartialEq, Eq, Structural)]
pub struct GridLayout {
    pub rows: u32,
    pub cols: u32,
    pub cell_width: usize,
    pub cell_height: usize,
    pub spacing: u32,
    pub header_height: u32,
}

/// How far a label stands in from the left and from the bottom of its cell.
pub const LABEL_INSET: u64 = 5;

impl GridLayout {
    /// Width of the sheet: the cells of one row and the gaps around them.
    pub open spec fn canvas_width(self) -> int {
        self.cell_width * self.cols + self.spacing * (self.cols + 1)
    }

    /// Height of the sheet: the cells of one column, the gaps around them,
    /// and the header band.
    pub open spec fn canvas_height(self) -> int {
        self.cell_height * self.rows + self.spacing * (self.rows + 1) + self.header_height
    }

    /// Left edge of the cell with index `idx`, cells counted row by row.
    pub open spec fn cell_x(self, idx: int) -> int {
        self.spacing + (idx % (self.cols as int)) * (self.spacing + self.cell_width)
    }

    /// Top edge of the cell with index `idx`, cells counted row by row.
    pub open spec fn cell_y(self, idx: int) -> int {
        self.spacing + (idx / (self.cols as int)) * (self.spacing + self.cell_height)
            + self.header_height
    }

    /// How many of `count` frames find a cell.
    pub open spec fn placed(self, count: int) -> int {
        if count < self.rows * self.cols {
            count
        } else {
            self.rows * self.cols
        }
    }

    /// Whether the sheet is no larger than an image can be: each side
    /// within 31 bits, and the buffer within the address space.
    pub open spec fn fits(self) -> bool {
        &&& self.canvas_width() <= i32::MAX
        &&& self.canvas_height() <= i32::MAX
        &&& self.canvas_width() * self.canvas_height() * 3 <= usize::MAX
    }

    /// The grid for frames of `width` by `height` under the options `args`:
    /// rows and columns as given, but swapped for upright frames where there
    /// would be more rows than columns, unless that is switched off.
    pub open spec fn planned(width: usize, height: usize, args: &Args) -> GridLayout {
        let flip = !args.no_auto_flip && width < height && args.rows > args.cols;
        GridLayout {
            rows: if flip {
                args.cols
            } else {
                args.rows
            },
            cols: if flip {
                args.rows
            } else {
                args.cols
            },
            cell_width: width,
            cell_height: height,
            spacing: args.space,
            header_height: spec_info_area_height(args) as u32,
        }
    }

    /// Lays out the grid for frames of `width` by `height`.
    pub fn plan(width: usize, height: usize, args: &Args) -> (layout: GridLayout)
        requires
            spec_info_area_height(args) <= u32::MAX,
        ensures
            layout == GridLayout::planned(width, height, args),
    {
        let flip = !args.no_auto_flip && width < height && args.rows > args.cols;
        GridLayout {
            rows: if flip {
                args.cols
            } else {
                args.rows
            },
            cols: if flip {
                args.rows
            } else {
                args.cols
            },
            cell_width: width,
            cell_height: height,
            spacing: args.space,
            header_height: info_area_height(args),
        }
    }

    /// Tests whether the sheet is no larger than an image can be.
    pub fn check_fits(&self) -> (b: bool)
        ensures
            b == self.fits(),
    {
        let cw: u128 = self.cell_width as u128;
        let ch: u128 = self.cell_height as u128;
        let rows: u128 = self.rows as u128;
        let cols: u128 = self.cols as u128;
        let space: u128 = self.spacing as u128;
        assert(cw * cols <= 0xffff_ffff_ffff_ffff * 0xffff_ffff && ch * rows
            <= 0xffff_ffff_ffff_ffff * 0xffff_ffff && space * (cols + 1) <= 0xffff_ffff
            * 0x1_0000_0000 && space * (rows + 1) <= 0xffff_ffff * 0x1_0000_0000)
            by (nonlinear_arith)
            requires
                cw <= 0xffff_ffff_ffff_ffff,
                ch <= 0xffff_ffff_ffff_ffff,
                rows <= 0xffff_ffff,
                cols <= 0xffff_ffff,
                space <= 0xffff_ffff,
        ;
        let w: u128 = cw * cols + space * (cols + 1);
        let h: u128 = ch * rows + space * (rows + 1) + self.header_height as u128;
        if w > 0x7fff_ffff || h > 0x7fff_ffff {
            return false;
        }
        assert(w * h <= 0x7fff_ffff * 0x7fff_ffff) by (nonlinear_arith)
            requires
                w <= 0x7fff_ffff,
                h <= 0x7fff_ffff,
        ;
        w * h * 3 <= usize::MAX as u128
    }
}

/// Whether all frames have the size of the first one.
pub open spec fn uniform(frames: Seq<(Image, String)>) -> bool {
    forall|i: int|
        0 <= i < frames.len() ==> (#[trigger] frames[i]).0.width == frames[0].0.width
            && frames[i].0.height == frames[0].0.height
}

/// What a byte of the sheet holds once the first `k` frames are placed:
/// white where nothing was placed, and else what the last frame that
/// reaches the byte, with its border, left there.
pub open spec fn sheet_byte(
    frames: Seq<(Image, String)>,
    layout: GridLayout,
    k: nat,
    px: int,
    py: int,
    ch: int,
) -> u8
    decreases k,
{
    if k == 0 {
        255
    } else {
        placed_byte(
            sheet_byte(frames, layout, (k - 1) as nat, px, py, ch),
            &frames[k - 1].0,
            layout.cell_x(k - 1),
            layout.cell_y(k - 1),
            px,
            py,
            ch,
        )
    }
}

/// Where the bottom left corner of the label of cell `idx` goes: a little
/// in from the cell's left edge and up from its bottom edge.
pub open spec fn label_anchor(layout: GridLayout, idx: int) -> (int, int) {
    let bottom = layout.cell_y(idx) + layout.cell_height;
    (
        layout.cell_x(idx) + LABEL_INSET,
        if bottom >= LABEL_INSET {
            bottom - LABEL_INSET
        } else {
            0
        },
    )
}

/// A composed sheet: the canvas with the frames and their borders on it,
/// and the texts that are still to be drawn onto it.
#[derive(Debug)]
pub struct Sheet {
    /// The pixels: white, with the frames and their borders.
    pub canvas: Image,
    /// The grid that was used.
    pub layout: GridLayout,
    /// The label of each placed frame, in the order of the frames.
    pub labels: Vec<Label>,
    /// The lines of the header, if one was wanted.
    pub header: Vec<Label>,
    /// How many frames were handed in.
    pub frame_count: usize,
    /// How many frames were expected: one for each cell.
    pub cell_count: u64,
    /// Whether the number of frames differs from the number of cells.
    pub count_mismatch: bool,
}

/// The cells of a grid that fits lie inside the sheet.
proof fn lemma_cell_inside(layout: GridLayout, idx: int)
    requires
        0 <= idx < layout.rows * layout.cols,
    ensures
        layout.cols > 0,
        0 <= idx % (layout.cols as int) < layout.cols,
        0 <= idx / (layout.cols as int) < layout.rows,
        layout.spacing <= layout.cell_x(idx),
        layout.cell_x(idx) + layout.cell_width + layout.spacing <= layout.canvas_width(),
        layout.spacing <= layout.cell_y(idx),
        layout.cell_y(idx) + layout.cell_height + layout.spacing <= layout.canvas_height(),
{
    let cols = layout.cols as int;
    let rows = layout.rows as int;
    assert(cols > 0) by (nonlinear_arith)
        requires
            0 <= idx < rows * cols,
            rows >= 0,
            cols >= 0,
    ;
    let c = idx % cols;
    let r = idx / cols;
    lemma_fundamental_div_mod(idx, cols);
    lemma_mod_bound(idx, cols);
    assert(0 <= r < rows) by (nonlinear_arith)
        requires
            idx == cols * r + c,
            0 <= c < cols,
            0 <= idx < rows * cols,
    ;
    let sw = layout.spacing + layout.cell_width;
    let sh = layout.spacing + layout.cell_height;
    assert(0 <= c * sw && c * sw + sw <= cols * sw) by (nonlinear_arith)
        requires
            0 <= c < cols,
            0 <= sw,
    ;
    assert(0 <= r * sh && r * sh + sh <= rows * sh) by (nonlinear_arith)
        requires
            0 <= r < rows,
            0 <= sh,
    ;
    assert(cols * sw == layout.cell_width * cols + layout.spacing * cols) by (nonlinear_arith)
        requires
            sw == layout.spacing + layout.cell_width,
    ;
    assert(rows * sh == layout.cell_height * rows + layout.spacing * rows) by (nonlinear_arith)
        requires
            sh == layout.spacing + layout.cell_height,
    ;
    assert(layout.spacing * (cols + 1) == layout.spacing * cols + layout.spacing)
        by (nonlinear_arith);
    assert(layout.spacing * (rows + 1) == layout.spacing * rows + layout.spacing)
        by (nonlinear_arith);
}

/// Whether every frame has the size of the grid's cells.
pub open spec fn frames_fill_cells(frames: Seq<(Image, String)>, layout: GridLayout) -> bool {
    forall|j: int|
        0 <= j < frames.len() ==> (#[trigger] frames[j]).0.width == layout.cell_width
            && frames[j].0.height == layout.cell_height
}

/// Two different cells of a grid lie at least a cell and a gap apart,
/// sideways or up and down.
proof fn lemma_cells_apart(layout: GridLayout, i: int, j: int)
    requires
        0 <= i < layout.rows * layout.cols,
        0 <= j < layout.rows * layout.cols,
        i != j,
    ensures
        ({
            let w = layout.cell_width as int;
            let h = layout.cell_height as int;
            let s = layout.spacing as int;
            ||| layout.cell_x(i) + w + s <= layout.cell_x(j)
            ||| layout.cell_x(j) + w + s <= layout.cell_x(i)
            ||| layout.cell_y(i) + h + s <= layout.cell_y(j)
            ||| layout.cell_y(j) + h + s <= layout.cell_y(i)
        }),
{
    lemma_cell_inside(layout, i);
    let cols = layout.cols as int;
    let ci = i % cols;
    let cj = j % cols;
    let ri = i / cols;
    let rj = j / cols;
    lemma_fundamental_div_mod(i, cols);
    lemma_fundamental_div_mod(j, cols);
    let sw = layout.spacing + layout.cell_width;
    let sh = layout.spacing + layout.cell_height;
    if ci < cj {
        assert(ci * sw + sw <= cj * sw) by (nonlinear_arith)
            requires
                ci < cj,
                0 <= sw,
        ;
    } else if cj < ci {
        assert(cj * sw + sw <= ci * sw) by (nonlinear_arith)
            requires
                cj < ci,
                0 <= sw,
        ;
    } else if ri < rj {
        assert(ri * sh + sh <= rj * sh) by (nonlinear_arith)
            requires
                ri < rj,
                0 <= sh,
        ;
    } else if rj < ri {
        assert(rj * sh + sh <= ri * sh) by (nonlinear_arith)
            requires
                rj < ri,
                0 <= sh,
        ;
    }
}

/// With a gap of at least one pixel between the cells, each placed frame
/// shows in its cell, whatever was placed after it.
pub proof fn law_frame_shows_in_its_cell(
    frames: Seq<(Image, String)>,
    layout: GridLayout,
    k: nat,
    i: int,
    px: int,
    py: int,
    ch: int,
)
    requires
        layout.spacing >= 1,
        0 <= i < k <= layout.rows * layout.cols,
        k <= frames.len(),
        frames_fill_cells(frames, layout),
        in_cell(
            px,
            py,
            layout.cell_x(i),
            layout.cell_y(i),
            layout.cell_width as int,
            layout.cell_height as int,
        ),
    ensures
        sheet_byte(frames, layout, k, px, py, ch) == frames[i].0.pixel(
            px - layout.cell_x(i),
            py - layout.cell_y(i),
            ch,
        ),
    decreases k,
{
    let top = k - 1;
    assert(frames[top].0.width == layout.cell_width && frames[top].0.height == layout.cell_height);
    if top != i {
        lemma_cells_apart(layout, i, top);
        law_frame_shows_in_its_cell(frames, layout, top as nat, i, px, py, ch);
    }
}

/// With a gap of at least one pixel between the cells, the border around
/// each placed frame is black, whatever was placed after it.
pub proof fn law_border_is_black(
    frames: Seq<(Image, String)>,
    layout: GridLayout,
    k: nat,
    i: int,
    px: int,
    py: int,
    ch: int,
)
    requires
        layout.spacing >= 1,
        0 <= i < k <= layout.rows * layout.cols,
        k <= frames.len(),
        frames_fill_cells(frames, layout),
        on_border(
            px,
            py,
            layout.cell_x(i),
            layout.cell_y(i),
            layout.cell_width as int,
            layout.cell_height as int,
        ),
    ensures
        sheet_byte(frames, layout, k, px, py, ch) == 0,
    decreases k,
{
    let top = k - 1;
    assert(frames[top].0.width == layout.cell_width && frames[top].0.height == layout.cell_height);
    if top != i {
        lemma_cells_apart(layout, i, top);
        law_border_is_black(frames, layout, top as nat, i, px, py, ch);
    }
}

/// With a gap of at least one pixel between the cells, a cell behind the
/// last placed frame stays white.
pub proof fn law_cell_without_frame_is_white(
    frames: Seq<(Image, String)>,
    layout: GridLayout,
    k: nat,
    m: int,
    px: int,
    py: int,
    ch: int,
)
    requires
        layout.spacing >= 1,
        k <= m < layout.rows * layout.cols,
        k <= frames.len(),
        frames_fill_cells(frames, layout),
        in_cell(
            px,
            py,
            layout.cell_x(m),
            layout.cell_y(m),
            layout.cell_width as int,
            layout.cell_height as int,
        ),
    ensures
        sheet_byte(frames, layout, k, px, py, ch) == 255,
    decreases k,
{
    if k > 0 {
        let top = k - 1;
        assert(frames[top].0.width == layout.cell_width && frames[top].0.height
            == layout.cell_height);
        lemma_cells_apart(layout, m, top);
        law_cell_without_frame_is_white(frames, layout, top as nat, m, px, py, ch);
    }
}

/// Lays the frames out on a white sheet, row by row from the top left,
/// each with a black border, and says where each frame's label and the
/// header's lines go. Frames beyond the last cell are left out; cells
/// beyond the last frame stay white.
pub fn merge_images(images: Vec<(Image, String)>, info: Info, args: &Args) -> (res: Result<
    Sheet,
    SheetError,
>)
    requires
        forall|i: int| 0 <= i < images@.len() ==> (#[trigger] images@[i]).0.wf(),
        info.video_duration.wf(),
        spec_info_area_height(args) <= u32::MAX,
    ensures
        res == Err::<Sheet, SheetError>(SheetError::EmptyFrameSet) <==> images@.len() == 0,
        res == Err::<Sheet, SheetError>(SheetError::FrameSizeMismatch) <==> images@.len() > 0
            && !uniform(images@),
        res == Err::<Sheet, SheetError>(SheetError::CanvasTooLarge) <==> images@.len() > 0
            && uniform(images@) && !GridLayout::planned(
            images@[0].0.width,
            images@[0].0.height,
            args,
        ).fits(),
        images@.len() > 0 && uniform(images@) && GridLayout::planned(
            images@[0].0.width,
            images@[0].0.height,
            args,
        ).fits() ==> res is Ok,
        res is Ok ==> {
            let sheet = res->Ok_0;
            let layout = sheet.layout;
            let placed = layout.placed(images@.len() as int);
            &&& layout == GridLayout::planned(images@[0].0.width, images@[0].0.height, args)
            &&& sheet.canvas.wf()
            &&& sheet.canvas.width == layout.canvas_width()
            &&& sheet.canvas.height == layout.canvas_height()
            &&& sheet.frame_count == images@.len()
            &&& sheet.cell_count == args.rows * args.cols
            &&& sheet.count_mismatch == (images@.len() != args.rows * args.cols)
            &&& forall|px: int, py: int, ch: int|
                sheet.canvas.holds(px, py, ch) ==> #[trigger] sheet.canvas.pixel(px, py, ch)
                    == sheet_byte(images@, layout, placed as nat, px, py, ch)
            &&& sheet.labels@.len() == placed
            &&& forall|i: int|
                0 <= i < placed ==> (#[trigger] sheet.labels@[i]).text@ == images@[i].1@
                    && sheet.labels@[i].x == label_anchor(layout, i).0 && sheet.labels@[i].y
                    == label_anchor(layout, i).1 && sheet.labels@[i].anchor == Anchor::BottomLeft
            &&& is_header(sheet.header@, &info, args)
        },
{
    let count: usize = images.len();
    if count == 0 {
        return Err(SheetError::EmptyFrameSet);
    }
    let width: usize = images[0].0.width;
    let height: usize = images[0].0.height;
    let mut i: usize = 1;
    while i < count
        invariant
            1 <= i <= count,
            count == images@.len(),
            width == images@[0].0.width,
            height == images@[0].0.height,
            forall|j: int|
                0 <= j < i ==> (#[trigger] images@[j]).0.width == width && images@[j].0.height
                    == height,
        decreases count - i,
    {
        if images[i].0.width != width || images[i].0.height != height {
            return Err(SheetError::FrameSizeMismatch);
        }
        i += 1;
    }
    assert(uniform(images@));
    let layout = GridLayout::plan(width, height, args);
    if !layout.check_fits() {
        return Err(SheetError::CanvasTooLarge);
    }
    assert(layout.rows * layout.cols <= 0xffff_ffff * 0xffff_ffff) by (nonlinear_arith)
        requires
            layout.rows <= 0xffff_ffff,
            layout.cols <= 0xffff_ffff,
    ;
    let cells: u64 = layout.rows as u64 * layout.cols as u64;
    assert(layout.rows * layout.cols == args.rows * args.cols) by (nonlinear_arith)
        requires
            (layout.rows == args.rows && layout.cols == args.cols) || (layout.rows == args.cols
                && layout.cols == args.rows),
    ;
    let count_mismatch: bool = count as u64 != cells;
    let placed: usize = if (count as u64) < cells {
        count
    } else {
        cells as usize
    };
    let space: u64 = layout.spacing as u64;
    let cols: u64 = layout.cols as u64;
    let rows: u64 = layout.rows as u64;
    let cell_w: u64 = width as u64;
    let cell_h: u64 = height as u64;
    proof {
        assert(layout.cell_width * layout.cols >= 0 && layout.spacing * (layout.cols + 1) >= 0
            && layout.cell_height * layout.rows >= 0 && layout.spacing * (layout.rows + 1) >= 0)
            by (nonlinear_arith);
    }
    let canvas_w: usize = (cell_w * cols + space * (cols + 1)) as usize;
    let canvas_h: usize = (cell_h * rows + space * (rows + 1) + layout.header_height as u64) as usize;
    let mut canvas = Image::filled(canvas_w, canvas_h, 255);
    let header = plot_info(&info, args);
    let mut labels: Vec<Label> = Vec::new();
    let mut idx: usize = 0;
    proof {
        assert forall|px: int, py: int, ch: int| canvas.holds(px, py, ch) implies #[trigger] canvas.pixel(
            px,
            py,
            ch,
        ) == sheet_byte(images@, layout, 0, px, py, ch) by {
            lemma_offset_bounds(canvas.width as int, canvas.height as int, px, py, ch);
        }
    }
    while idx < placed
        invariant
            idx <= placed,
            placed == layout.placed(images@.len() as int),
            placed <= images@.len(),
            layout.fits(),
            layout.cell_width == width,
            layout.cell_height == height,
            space == layout.spacing,
            cols == layout.cols,
            cell_w == width,
            cell_h == height,
            uniform(images@),
            width == images@[0].0.width,
            height == images@[0].0.height,
            forall|i: int| 0 <= i < images@.len() ==> (#[trigger] images@[i]).0.wf(),
            canvas.wf(),
            canvas.width == layout.canvas_width(),
            canvas.height == layout.canvas_height(),
            forall|px: int, py: int, ch: int|
                canvas.holds(px, py, ch) ==> #[trigger] canvas.pixel(px, py, ch) == sheet_byte(
                    images@,
                    layout,
                    idx as nat,
                    px,
                    py,
                    ch,
                ),
            labels@.len() == idx,
            forall|i: int|
                0 <= i < idx ==> (#[trigger] labels@[i]).text@ == images@[i].1@ && labels@[i].x
                    == label_anchor(layout, i).0 && labels@[i].y == label_anchor(layout, i).1
                    && labels@[i].anchor == Anchor::BottomLeft,
        decreases placed - idx,
    {
        proof {
            lemma_cell_inside(layout, idx as int);
        }
        let c: u64 = idx as u64 % cols;
        let r: u64 = idx as u64 / cols;
        proof {
            let sw = layout.spacing + layout.cell_width;
            let sh = layout.spacing + layout.cell_height;
            assert(0 <= c * sw && 0 <= r * sh) by (nonlinear_arith)
                requires
                    0 <= c,
                    0 <= r,
                    0 <= sw,
                    0 <= sh,
            ;
            assert(layout.cell_width <= layout.canvas_width() && layout.spacing
                <= layout.canvas_width() && layout.cell_height <= layout.canvas_height()
                && layout.spacing <= layout.canvas_height());
        }
        let x: usize = (space + c * (space + cell_w)) as usize;
        let y: usize = (space + r * (space + cell_h) + layout.header_height as u64) as usize;
        place(&mut canvas, &images[idx].0, x, y);
        let bottom: u64 = y as u64 + height as u64;
        let label = Label {
            text: images[idx].1.clone(),
            x: x as u64 + LABEL_INSET,
            y: if bottom >= LABEL_INSET {
                bottom - LABEL_INSET
            } else {
                0
            },
            anchor: Anchor::BottomLeft,
        };
        labels.push(label);
        idx += 1;
    }
    Ok(Sheet { canvas, layout, labels, header, frame_count: count, cell_count: cells, count_mismatch })
}

} // verus!
