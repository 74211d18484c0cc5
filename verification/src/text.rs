//! Text on the sheet: where a label goes, and the layered strokes that
//! make it legible on any background.

use crate::error::SheetError;
use crate::image_maker::Image;
use vstd::prelude::*;
use vstd::string::StringExecFns;

verus! {

/// Which corner of a text's box its anchor is.
#[derive(Clone, Copy, Debug, PartialEq, Eq, Structural)]
pub enum Anchor {
    TopLeft,
    BottomLeft,
}

/// A text and the pixel at which it is anchored.
#[derive(Debug)]
pub struct Label {
    pub text: String,
    pub x: u64,
    pub y: u64,
    pub anchor: Anchor,
}

impl Label {
    /// The row in which a box of the given height begins: the anchor's row
    /// where the anchor is the top, and the height above it where it is the
    /// bottom, but not above the first row.
    pub open spec fn spec_top(&self, height: u64) -> int {
        match self.anchor {
            Anchor::TopLeft => self.y as int,
            Anchor::BottomLeft => if self.y >= height {
                self.y - height
            } else {
                0
            },
        }
    }

    /// The row in which a box of the given height ends: the anchor's row
    /// where the anchor is the bottom, and the height below it where it is
    /// the top, but not beyond the last row that can be counted.
    pub open spec fn spec_bottom(&self, height: u64) -> int {
        match self.anchor {
            Anchor::BottomLeft => self.y as int,
            Anchor::TopLeft => if self.y + height <= u64::MAX {
                self.y + height
            } else {
                u64::MAX as int
            },
        }
    }

    /// The row in which the text's box begins if it is `height` rows high.
    pub fn top(&self, height: u64) -> (row: u64)
        ensures
            row == self.spec_top(height),
    {
        match self.anchor {
            Anchor::TopLeft => self.y,
            Anchor::BottomLeft => if self.y >= height {
                self.y - height
            } else {
                0
            },
        }
    }

    /// The row in which the text's box ends if it is `height` rows high.
    pub fn bottom(&self, height: u64) -> (row: u64)
        ensures
            row == self.spec_bottom(height),
    {
        match self.anchor {
            Anchor::BottomLeft => self.y,
            Anchor::TopLeft => if self.y <= u64::MAX - height {
                self.y + height
            } else {
                u64::MAX
            },
        }
    }
}

/// One stroke of a text: where it is drawn and how bright.
#[derive(Debug)]
pub struct TextPass {
    pub text: String,
    pub x: u64,
    pub y: u64,
    pub gray: u8,
}

/// Brightness of the outermost, dark stroke.
pub const SHADOW_GRAY: u8 = 16;

/// Brightness of the middle stroke.
pub const EDGE_GRAY: u8 = 0;

/// Brightness of the stroke on top.
pub const FACE_GRAY: u8 = 255;

/// The strokes that draw `text` at `(x, y)` with an outline: a dark one
/// two pixels down and to the right, a black one one pixel down and to the
/// right, and a white one on top, in this order.
pub fn draw_text(text: &str, x: u32, y: u32) -> (passes: Vec<TextPass>)
    ensures
        passes@.len() == 3,
        forall|i: int| 0 <= i < 3 ==> (#[trigger] passes@[i]).text@ == text@,
        forall|i: int| 0 <= i < 3 ==> (#[trigger] passes@[i]).x == x + (2 - i),
        forall|i: int| 0 <= i < 3 ==> (#[trigger] passes@[i]).y == y + (2 - i),
        passes@[0].gray == SHADOW_GRAY,
        passes@[1].gray == EDGE_GRAY,
        passes@[2].gray == FACE_GRAY,
{
    let mut passes: Vec<TextPass> = Vec::new();
    passes.push(
        TextPass { text: String::from_str(text), x: x as u64 + 2, y: y as u64 + 2, gray: SHADOW_GRAY },
    );
    passes.push(
        TextPass { text: String::from_str(text), x: x as u64 + 1, y: y as u64 + 1, gray: EDGE_GRAY },
    );
    passes.push(TextPass { text: String::from_str(text), x: x as u64, y: y as u64, gray: FACE_GRAY });
    passes
}

/// How much of each pixel of a box a shape covers, in 255ths, row by row
/// from the top.
#[derive(Debug)]
pub struct AlphaMask {
    pub width: usize,
    pub height: usize,
    pub data: Vec<u8>,
}

impl AlphaMask {
    /// The buffer holds exactly one byte for each pixel.
    pub open spec fn wf(&self) -> bool {
        self.data@.len() == self.width * self.height
    }

    /// The cover of the pixel `(px, py)`.
    pub open spec fn at(&self, px: int, py: int) -> u8 {
        self.data@[py * self.width + px]
    }

    /// Reads the cover of one pixel.
    pub fn get(&self, px: usize, py: usize) -> (a: u8)
        requires
            self.wf(),
            px < self.width,
            py < self.height,
        ensures
            a == self.at(px as int, py as int),
    {
        let size: usize = self.data.len();
        assert(0 <= py * self.width && py * self.width + self.width <= self.width * self.height)
            by (nonlinear_arith)
            requires
                0 <= py < self.height,
                0 <= self.width,
        ;
        self.data[py * self.width + px]
    }

    /// A mask of the given size that covers nothing.
    pub fn clear(width: usize, height: usize) -> (mask: AlphaMask)
        requires
            width * height <= usize::MAX,
        ensures
            mask.wf(),
            mask.width == width,
            mask.height == height,
            forall|i: int| 0 <= i < mask.data@.len() ==> mask.data@[i] == 0,
    {
        let n: usize = width * height;
        let mut data: Vec<u8> = Vec::new();
        let mut i: usize = 0;
        while i < n
            invariant
                i <= n,
                data@.len() == i,
                forall|k: int| 0 <= k < i ==> data@[k] == 0,
            decreases n - i,
        {
            data.push(0);
            i += 1;
        }
        AlphaMask { width, height, data }
    }

    /// Writes the cover of one pixel and leaves every other pixel alone.
    pub fn set(&mut self, px: usize, py: usize, a: u8)
        requires
            old(self).wf(),
            px < old(self).width,
            py < old(self).height,
        ensures
            final(self).wf(),
            final(self).width == old(self).width,
            final(self).height == old(self).height,
            final(self).at(px as int, py as int) == a,
            forall|qx: int, qy: int|
                0 <= qx < old(self).width && 0 <= qy < old(self).height && !(qx == px && qy == py)
                    ==> #[trigger] final(self).at(qx, qy) == old(self).at(qx, qy),
    {
        let size: usize = self.data.len();
        let ghost w = self.width as int;
        proof {
            lemma_mask_rows(py as int, self.height as int, w);
        }
        let at: usize = py * self.width + px;
        self.data.set(at, a);
        assert forall|qx: int, qy: int|
            0 <= qx < old(self).width && 0 <= qy < old(self).height && !(qx == px && qy == py)
            implies #[trigger] self.at(qx, qy) == old(self).at(qx, qy) by {
            lemma_mask_rows(qy, self.height as int, w);
            if qy < py {
                lemma_mask_rows(qy, py as int, w);
            } else if py < qy {
                lemma_mask_rows(py as int, qy, w);
            }
        }
    }
}

/// Rows of `w` pixels lie one behind the other.
proof fn lemma_mask_rows(py: int, row: int, w: int)
    requires
        0 <= py < row,
        0 <= w,
    ensures
        0 <= py * w,
        py * w + w <= row * w,
        row * w == w * row,
{
    assert(0 <= py * w && py * w + w <= row * w && row * w == w * row) by (nonlinear_arith)
        requires
            0 <= py < row,
            0 <= w,
    ;
}

/// One channel of a pixel once text is laid over it. The text's colour
/// `fg` covers `fg_alpha` 255ths of the pixel; the halo's colour `halo`
/// covers `halo_alpha` 255ths of what the text leaves; the background `bg`
/// keeps the rest. The exact mix is rounded to the nearest byte.
pub open spec fn blended(bg: u8, fg: u8, halo: u8, fg_alpha: u8, halo_alpha: u8) -> int {
    (bg * (255 - fg_alpha) * (255 - halo_alpha) + fg * fg_alpha * 255 + halo * halo_alpha * (255
        - fg_alpha) + 32512) / 65025
}

proof fn lemma_blend_weights(bg: int, fg: int, halo: int, fa: int, ha: int)
    requires
        0 <= bg <= 255,
        0 <= fg <= 255,
        0 <= halo <= 255,
        0 <= fa <= 255,
        0 <= ha <= 255,
    ensures
        0 <= bg * (255 - fa) * (255 - ha) <= 255 * ((255 - fa) * (255 - ha)),
        0 <= fg * fa * 255 <= 255 * (fa * 255),
        0 <= halo * ha * (255 - fa) <= 255 * (ha * (255 - fa)),
        (255 - fa) * (255 - ha) + fa * 255 + ha * (255 - fa) == 65025,
        0 <= (255 - fa) * (255 - ha) <= 65025,
        0 <= fa * 255 <= 65025,
        0 <= ha * (255 - fa),
        0 <= bg * (255 - fa) <= 65025,
        0 <= fg * fa <= 65025,
        0 <= halo * ha <= 65025,
{
    assert(0 <= bg * (255 - fa) * (255 - ha) <= 255 * ((255 - fa) * (255 - ha)) && 0 <= (255 - fa)
        * (255 - ha) <= 65025 && 0 <= bg * (255 - fa) <= 65025) by (nonlinear_arith)
        requires
            0 <= bg <= 255,
            0 <= fa <= 255,
            0 <= ha <= 255,
    ;
    assert(0 <= fg * fa * 255 <= 255 * (fa * 255) && 0 <= fa * 255 <= 65025 && 0 <= fg * fa
        <= 65025) by (nonlinear_arith)
        requires
            0 <= fg <= 255,
            0 <= fa <= 255,
    ;
    assert(0 <= halo * ha * (255 - fa) <= 255 * (ha * (255 - fa)) && 0 <= ha * (255 - fa) && 0
        <= halo * ha <= 65025) by (nonlinear_arith)
        requires
            0 <= halo <= 255,
            0 <= fa <= 255,
            0 <= ha <= 255,
    ;
    assert((255 - fa) * (255 - ha) + fa * 255 + ha * (255 - fa) == 65025) by (nonlinear_arith);
}

/// Where the text covers a pixel wholly, the pixel takes the text's
/// colour, whatever was there and whatever the halo.
pub proof fn law_opaque_text_shows_its_colour(bg: u8, fg: u8, halo: u8, halo_alpha: u8)
    ensures
        blended(bg, fg, halo, 255, halo_alpha) == fg,
{
    assert(bg * (255 - 255) * (255 - halo_alpha) == 0) by (nonlinear_arith);
    assert(halo * halo_alpha * (255 - 255) == 0) by (nonlinear_arith);
    assert(fg * 255 * 255 == fg * 65025) by (nonlinear_arith);
}

/// Where neither text nor halo covers a pixel, the pixel stays as it was.
pub proof fn law_uncovered_pixel_is_unchanged(bg: u8, fg: u8, halo: u8)
    ensures
        blended(bg, fg, halo, 0, 0) == bg,
{
    assert(bg * (255 - 0) * (255 - 0) == bg * 65025) by (nonlinear_arith);
    assert(fg * 0 * 255 == 0) by (nonlinear_arith);
    assert(halo * 0 * (255 - 0) == 0) by (nonlinear_arith);
}

/// Mixes one channel of a pixel with the text and its halo.
pub fn blend(bg: u8, fg: u8, halo: u8, fg_alpha: u8, halo_alpha: u8) -> (out: u8)
    ensures
        out == blended(bg, fg, halo, fg_alpha, halo_alpha),
{
    proof {
        lemma_blend_weights(
            bg as int,
            fg as int,
            halo as int,
            fg_alpha as int,
            halo_alpha as int,
        );
    }
    let clear_of_text: u32 = 255 - fg_alpha as u32;
    let clear_of_halo: u32 = 255 - halo_alpha as u32;
    let from_bg: u32 = bg as u32 * clear_of_text * clear_of_halo;
    let from_fg: u32 = fg as u32 * fg_alpha as u32 * 255;
    let from_halo: u32 = halo as u32 * halo_alpha as u32 * clear_of_text;
    ((from_bg + from_fg + from_halo + 32512) / 65025) as u8
}

/// The channel `ch` of a colour given as three bytes.
pub open spec fn channel(color: (u8, u8, u8), ch: int) -> u8 {
    if ch == 0 {
        color.0
    } else if ch == 1 {
        color.1
    } else {
        color.2
    }
}

/// What a byte of the canvas holds once a text is laid over it with its
/// top left corner at `(x, y)`: the blend inside the text's box, and `base`,
/// what was there before, outside it.
pub open spec fn text_byte(
    base: u8,
    glyph: &AlphaMask,
    halo: &AlphaMask,
    x: int,
    y: int,
    color: (u8, u8, u8),
    bg_color: (u8, u8, u8),
    px: int,
    py: int,
    ch: int,
) -> int {
    if in_box(glyph, x, y, px, py) {
        blended(
            base,
            channel(color, ch),
            channel(bg_color, ch),
            glyph.at(px - x, py - y),
            halo.at(px - x, py - y),
        )
    } else {
        base as int
    }
}

/// Whether the pixel `(px, py)` lies in the box of the mask `glyph` laid
/// down with its top left corner at `(x, y)`.
pub open spec fn in_box(glyph: &AlphaMask, x: int, y: int, px: int, py: int) -> bool {
    x <= px < x + glyph.width && y <= py < y + glyph.height
}

/// Whether a box of `width` by `height` at `(x, y)` lies inside `canvas`.
pub open spec fn box_inside(canvas: &Image, x: int, y: int, width: int, height: int) -> bool {
    x + width <= canvas.width && y + height <= canvas.height
}

/// Draws a text in the loaded font: lays it over the canvas with the top
/// left corner of its box at `(x, y)`. A pixel that the text covers wholly
/// takes the text's colour; a pixel that neither text nor halo covers
/// stays as it was. `glyph` says how much of each pixel of the box the text
/// covers, `halo` how much its halo; `color` is the text's colour and
/// `bg_color` the halo's, channel by channel. A box that does not lie inside
/// the canvas is refused and the canvas left as it was.
pub fn composite_text(
    canvas: &mut Image,
    glyph: &AlphaMask,
    halo: &AlphaMask,
    x: usize,
    y: usize,
    color: (u8, u8, u8),
    bg_color: (u8, u8, u8),
) -> (res: Result<(), SheetError>)
    requires
        old(canvas).wf(),
        glyph.wf(),
        halo.wf(),
        halo.width == glyph.width,
        halo.height == glyph.height,
    ensures
        final(canvas).wf(),
        final(canvas).width == old(canvas).width,
        final(canvas).height == old(canvas).height,
        res is Ok <==> box_inside(
            old(canvas),
            x as int,
            y as int,
            glyph.width as int,
            glyph.height as int,
        ),
        res is Err ==> res == Err::<(), SheetError>(SheetError::TextOutsideCanvas) && *final(canvas)
            == *old(canvas),
        res is Ok ==> forall|px: int, py: int, ch: int|
            old(canvas).holds(px, py, ch) ==> #[trigger] final(canvas).pixel(px, py, ch)
                == text_byte(
                old(canvas).pixel(px, py, ch),
                glyph,
                halo,
                x as int,
                y as int,
                color,
                bg_color,
                px,
                py,
                ch,
            ),
        res is Ok ==> forall|px: int, py: int, ch: int|
            old(canvas).holds(px, py, ch) && in_box(glyph, x as int, y as int, px, py)
                && glyph.at(px - x, py - y) == 255 ==> #[trigger] final(canvas).pixel(px, py, ch)
                == channel(color, ch),
        res is Ok ==> forall|px: int, py: int, ch: int|
            old(canvas).holds(px, py, ch) && in_box(glyph, x as int, y as int, px, py)
                && glyph.at(px - x, py - y) == 0 && halo.at(px - x, py - y) == 0
                ==> #[trigger] final(canvas).pixel(px, py, ch) == old(canvas).pixel(px, py, ch),
{
    if x > canvas.width || glyph.width > canvas.width - x || y > canvas.height || glyph.height
        > canvas.height - y {
        return Err(SheetError::TextOutsideCanvas);
    }
    let mut row: usize = 0;
    while row < glyph.height
        invariant
            row <= glyph.height,
            canvas.wf(),
            glyph.wf(),
            halo.wf(),
            halo.width == glyph.width,
            halo.height == glyph.height,
            canvas.width == old(canvas).width,
            canvas.height == old(canvas).height,
            x + glyph.width <= canvas.width,
            y + glyph.height <= canvas.height,
            forall|px: int, py: int, ch: int|
                old(canvas).holds(px, py, ch) ==> #[trigger] canvas.pixel(px, py, ch) == if py < y
                    + row {
                    text_byte(
                        old(canvas).pixel(px, py, ch),
                        glyph,
                        halo,
                        x as int,
                        y as int,
                        color,
                        bg_color,
                        px,
                        py,
                        ch,
                    )
                } else {
                    old(canvas).pixel(px, py, ch) as int
                },
        decreases glyph.height - row,
    {
        let mut col: usize = 0;
        while col < glyph.width
            invariant
                row < glyph.height,
                col <= glyph.width,
                canvas.wf(),
                glyph.wf(),
                halo.wf(),
                halo.width == glyph.width,
                halo.height == glyph.height,
                canvas.width == old(canvas).width,
                canvas.height == old(canvas).height,
                x + glyph.width <= canvas.width,
                y + glyph.height <= canvas.height,
                forall|px: int, py: int, ch: int|
                    old(canvas).holds(px, py, ch) ==> #[trigger] canvas.pixel(px, py, ch) == if py
                        < y + row || (py == y + row && px < x + col) {
                        text_byte(
                            old(canvas).pixel(px, py, ch),
                            glyph,
                            halo,
                            x as int,
                            y as int,
                            color,
                            bg_color,
                            px,
                            py,
                            ch,
                        )
                    } else {
                        old(canvas).pixel(px, py, ch) as int
                    },
            decreases glyph.width - col,
        {
            let fa: u8 = glyph.get(col, row);
            let ha: u8 = halo.get(col, row);
            let px: usize = x + col;
            let py: usize = y + row;
            let b0: u8 = blend(canvas.get(px, py, 0), color.0, bg_color.0, fa, ha);
            let b1: u8 = blend(canvas.get(px, py, 1), color.1, bg_color.1, fa, ha);
            let b2: u8 = blend(canvas.get(px, py, 2), color.2, bg_color.2, fa, ha);
            canvas.set(px, py, 0, b0);
            canvas.set(px, py, 1, b1);
            canvas.set(px, py, 2, b2);
            col += 1;
        }
        row += 1;
    }
    proof {
        assert forall|px: int, py: int, ch: int|
            old(canvas).holds(px, py, ch) && in_box(glyph, x as int, y as int, px, py) && glyph.at(
                px - x,
                py - y,
            ) == 255 implies #[trigger] canvas.pixel(px, py, ch) == channel(color, ch) by {
            law_opaque_text_shows_its_colour(
                old(canvas).pixel(px, py, ch),
                channel(color, ch),
                channel(bg_color, ch),
                halo.at(px - x, py - y),
            );
        }
        assert forall|px: int, py: int, ch: int|
            old(canvas).holds(px, py, ch) && in_box(glyph, x as int, y as int, px, py) && glyph.at(
                px - x,
                py - y,
            ) == 0 && halo.at(px - x, py - y) == 0 implies #[trigger] canvas.pixel(px, py, ch)
            == old(canvas).pixel(px, py, ch) by {
            law_uncovered_pixel_is_unchanged(
                old(canvas).pixel(px, py, ch),
                channel(color, ch),
                channel(bg_color, ch),
            );
        }
    }
    Ok(())
}

/// One glyph of a laid-out text: its box, in pixels of the text's line,
/// and how much of each pixel of the box it covers, in 255ths, row by row.
#[derive(Debug)]
pub struct GlyphCover {
    pub min_x: i32,
    pub min_y: i32,
    pub max_x: i32,
    pub max_y: i32,
    pub cover: Vec<u8>,
}

impl GlyphCover {
    /// The box is not turned inside out and has one byte for each pixel.
    pub open spec fn wf(&self) -> bool {
        &&& self.min_x <= self.max_x
        &&& self.min_y <= self.max_y
        &&& self.cover@.len() == (self.max_x - self.min_x) * (self.max_y - self.min_y)
    }

    /// The cover of the pixel `(gx, gy)` of the box.
    pub open spec fn at(&self, gx: int, gy: int) -> u8 {
        self.cover@[gy * (self.max_x - self.min_x) + gx]
    }

    /// Whether the glyph, set into a mask whose left margin stands for the
    /// column `offset - 1` of the line, reaches the mask's pixel `(px, py)`.
    pub open spec fn reaches(&self, offset: int, px: int, py: int) -> bool {
        self.min_x - offset + 1 <= px < self.max_x - offset + 1 && self.min_y + 1 <= py
            < self.max_y + 1
    }
}

/// The leftmost column that one of the first `k` glyphs reaches.
pub open spec fn text_min_x(glyphs: Seq<GlyphCover>, k: nat) -> int
    decreases k,
{
    if k <= 1 {
        glyphs[0].min_x as int
    } else if glyphs[k - 1].min_x < text_min_x(glyphs, (k - 1) as nat) {
        glyphs[k - 1].min_x as int
    } else {
        text_min_x(glyphs, (k - 1) as nat)
    }
}

/// The column behind the rightmost one that one of the first `k` glyphs
/// reaches.
pub open spec fn text_max_x(glyphs: Seq<GlyphCover>, k: nat) -> int
    decreases k,
{
    if k <= 1 {
        glyphs[0].max_x as int
    } else if glyphs[k - 1].max_x > text_max_x(glyphs, (k - 1) as nat) {
        glyphs[k - 1].max_x as int
    } else {
        text_max_x(glyphs, (k - 1) as nat)
    }
}

/// Width of a text's mask: the text's width and a margin of one pixel on
/// either side.
pub open spec fn mask_width(glyphs: Seq<GlyphCover>) -> int {
    text_max_x(glyphs, glyphs.len()) - text_min_x(glyphs, glyphs.len()) + 2
}

/// Whether a mask for the glyphs, on a line `height` pixels high, has a
/// size that can be held.
pub open spec fn mask_fits(height: usize, glyphs: Seq<GlyphCover>) -> bool {
    mask_width(glyphs) * (height + 2) <= usize::MAX && height + 2 <= usize::MAX
}

/// What the pixel `(px, py)` of a text's mask holds once the first `k`
/// glyphs are set into it: nothing where no glyph reaches, and else the
/// cover of the last glyph that reaches the pixel.
pub open spec fn mask_byte(glyphs: Seq<GlyphCover>, k: nat, offset: int, px: int, py: int) -> u8
    decreases k,
{
    if k == 0 {
        0
    } else if glyphs[k - 1].reaches(offset, px, py) {
        glyphs[k - 1].at(px - (glyphs[k - 1].min_x - offset + 1), py - (glyphs[k - 1].min_y + 1))
    } else {
        mask_byte(glyphs, (k - 1) as nat, offset, px, py)
    }
}

/// The row `v` where it lies in a mask of `rows` rows, and else the end of
/// the mask on its side.
pub open spec fn clamp_row(v: int, rows: int) -> int {
    if v < 0 {
        0
    } else if v > rows {
        rows
    } else {
        v
    }
}

/// Every glyph lies between the text's leftmost and rightmost column.
proof fn lemma_text_span(glyphs: Seq<GlyphCover>, k: nat, i: int)
    requires
        0 <= i < k <= glyphs.len(),
    ensures
        text_min_x(glyphs, k) <= glyphs[i].min_x,
        glyphs[i].max_x <= text_max_x(glyphs, k),
    decreases k,
{
    if k > 1 && i < k - 1 {
        lemma_text_span(glyphs, (k - 1) as nat, i);
    }
}

/// The mask of a laid-out text on a line `height` pixels high: as wide as
/// the text and as high as the line, with a margin of one pixel all round,
/// and each glyph's cover set into it at the glyph's place; of a glyph,
/// what falls above or below the mask is left out. With the mask comes the
/// text's leftmost column, by which the mask is shifted against the pen.
/// There is no mask for a text without glyphs, nor for one whose mask would
/// be larger than can be held.
pub fn mask_of(height: usize, glyphs: &Vec<GlyphCover>) -> (res: Option<(AlphaMask, i32)>)
    requires
        forall|i: int| 0 <= i < glyphs@.len() ==> (#[trigger] glyphs@[i]).wf(),
    ensures
        res is None <==> glyphs@.len() == 0 || !mask_fits(height, glyphs@),
        res is Some ==> {
            let (mask, offset) = res->Some_0;
            &&& mask.wf()
            &&& mask.width == mask_width(glyphs@)
            &&& mask.height == height + 2
            &&& offset == text_min_x(glyphs@, glyphs@.len())
            &&& forall|px: int, py: int|
                0 <= px < mask.width && 0 <= py < mask.height ==> #[trigger] mask.at(px, py)
                    == mask_byte(glyphs@, glyphs@.len(), offset as int, px, py)
        },
{
    let count: usize = glyphs.len();
    if count == 0 {
        return None;
    }
    let mut min_x: i32 = glyphs[0].min_x;
    let mut max_x: i32 = glyphs[0].max_x;
    let mut i: usize = 1;
    while i < count
        invariant
            1 <= i <= count,
            count == glyphs@.len(),
            min_x == text_min_x(glyphs@, i as nat),
            max_x == text_max_x(glyphs@, i as nat),
        decreases count - i,
    {
        if glyphs[i].min_x < min_x {
            min_x = glyphs[i].min_x;
        }
        if glyphs[i].max_x > max_x {
            max_x = glyphs[i].max_x;
        }
        i += 1;
    }
    proof {
        lemma_text_span(glyphs@, count as nat, 0);
    }
    let wide: u128 = (max_x as i64 - min_x as i64 + 2) as u128;
    let high: u128 = height as u128 + 2;
    assert(wide * high <= 0x1_0000_0001 * 0x1_0000_0000_0000_0001) by (nonlinear_arith)
        requires
            wide <= 0x1_0000_0001,
            high <= 0x1_0000_0000_0000_0001,
    ;
    if high > usize::MAX as u128 || wide * high > usize::MAX as u128 {
        return None;
    }
    assert(wide <= wide * high) by (nonlinear_arith)
        requires
            high >= 1,
            wide >= 0,
    ;
    let width: usize = wide as usize;
    let rows: usize = high as usize;
    let mut mask = AlphaMask::clear(width, rows);
    let mut k: usize = 0;
    proof {
        assert forall|px: int, py: int| 0 <= px < mask.width && 0 <= py < mask.height implies #[trigger] mask.at(
            px,
            py,
        ) == mask_byte(glyphs@, 0, min_x as int, px, py) by {
            lemma_mask_rows(py, rows as int, width as int);
        }
    }
    while k < count
        invariant
            k <= count,
            count == glyphs@.len(),
            forall|i: int| 0 <= i < glyphs@.len() ==> (#[trigger] glyphs@[i]).wf(),
            min_x == text_min_x(glyphs@, count as nat),
            max_x == text_max_x(glyphs@, count as nat),
            mask.wf(),
            mask.width == width,
            mask.height == rows,
            width == max_x - min_x + 2,
            forall|px: int, py: int|
                0 <= px < width && 0 <= py < rows ==> #[trigger] mask.at(px, py) == mask_byte(
                    glyphs@,
                    k as nat,
                    min_x as int,
                    px,
                    py,
                ),
        decreases count - k,
    {
        proof {
            lemma_text_span(glyphs@, count as nat, k as int);
        }
        let g = &glyphs[k];
        let left: usize = (g.min_x as i64 - min_x as i64 + 1) as usize;
        let right: usize = (g.max_x as i64 - min_x as i64 + 1) as usize;
        let top: i64 = g.min_y as i64 + 1;
        let bottom: i64 = g.max_y as i64 + 1;
        let y0: usize = if top < 0 {
            0
        } else if top as u128 > rows as u128 {
            rows
        } else {
            top as usize
        };
        let y1: usize = if bottom < 0 {
            0
        } else if bottom as u128 > rows as u128 {
            rows
        } else {
            bottom as usize
        };
        let gw: usize = right - left;
        let ghost before = mask;
        let mut py: usize = y0;
        while py < y1
            invariant
                y0 <= py,
                y0 <= y1 <= rows,
                left <= right < width,
                gw == right - left,
                gw == g.max_x - g.min_x,
                left == g.min_x - min_x + 1,
                top == g.min_y + 1,
                bottom == g.max_y + 1,
                y0 == clamp_row(top as int, rows as int),
                y1 == clamp_row(bottom as int, rows as int),
                g.wf(),
                mask.wf(),
                mask.width == width,
                mask.height == rows,
                forall|qx: int, qy: int|
                    0 <= qx < width && 0 <= qy < rows ==> #[trigger] mask.at(qx, qy) == if qy < py
                        && g.reaches(min_x as int, qx, qy) {
                        g.at(qx - left, qy - top)
                    } else {
                        before.at(qx, qy)
                    },
            decreases y1 - py,
        {
            let mut px: usize = left;
            while px < right
                invariant
                    y0 <= py < y1,
                    y1 <= rows,
                    left <= px <= right,
                    right < width,
                    gw == right - left,
                    gw == g.max_x - g.min_x,
                    left == g.min_x - min_x + 1,
                    top == g.min_y + 1,
                    bottom == g.max_y + 1,
                    y0 == clamp_row(top as int, rows as int),
                    y1 == clamp_row(bottom as int, rows as int),
                    g.wf(),
                    mask.wf(),
                    mask.width == width,
                    mask.height == rows,
                    forall|qx: int, qy: int|
                        0 <= qx < width && 0 <= qy < rows ==> #[trigger] mask.at(qx, qy) == if (qy
                            < py || (qy == py && qx < px)) && g.reaches(min_x as int, qx, qy) {
                            g.at(qx - left, qy - top)
                        } else {
                            before.at(qx, qy)
                        },
                decreases right - px,
            {
                let gy: usize = (py as i64 - top) as usize;
                let gx: usize = px - left;
                proof {
                    lemma_mask_rows(gy as int, g.max_y - g.min_y, gw as int);
                }
                let size: usize = g.cover.len();
                let a: u8 = g.cover[gy * gw + gx];
                mask.set(px, py, a);
                px += 1;
            }
            py += 1;
        }
        k += 1;
    }
    Some((mask, min_x))
}

} // verus!
