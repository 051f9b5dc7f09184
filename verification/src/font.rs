//! The layout of the font atlas: which cell holds which character, how a
//! glyph's coverage bitmap is copied into its cell, and the triangles of a
//! glyph quad.
//!
//! The atlas is a single-channel texture of 16 by 8 cells of 24 by 32 pixels,
//! holding the printable ASCII characters from the space to the tilde in
//! order. Glyphs are rasterized by the application, which hands their
//! bitmaps over.

use vstd::prelude::*;

verus! {

pub const CHARS_PER_ROW: u32 = 16;
pub const CHAR_WIDTH: u32 = 24;
pub const CHAR_HEIGHT: u32 = 32;
pub const ATLAS_ROWS: u32 = 8;
/// The atlas width in pixels.
pub const ATLAS_WIDTH: u32 = 384;
/// The atlas height in pixels.
pub const ATLAS_HEIGHT: u32 = 256;
/// The number of pixels of the atlas.
pub const ATLAS_PIXELS: usize = 98304;
/// The number of cells of the atlas.
pub const ATLAS_CELLS: u32 = 128;

/// The cell of a character: its place among the printable ASCII characters,
/// or 0 (the space's cell) for any other character.
pub open spec fn cell_of(ch: char) -> u32 {
    if ' ' <= ch <= '~' {
        (ch as u32 - ' ' as u32) as u32
    } else {
        0
    }
}

/// The atlas cell of `ch` (see `cell_of`).
pub fn atlas_index(ch: char) -> (i: u32)
    ensures
        i == cell_of(ch),
        i < 95,
{
    if ' ' <= ch && ch <= '~' {
        (ch as u32) - (' ' as u32)
    } else {
        0
    }
}

/// The pixel position of the top-left corner of cell `index`: cells fill the
/// atlas row by row.
pub fn cell_origin(index: u32) -> (p: (u32, u32))
    requires
        index < ATLAS_CELLS,
    ensures
        p.0 == (index % CHARS_PER_ROW) * CHAR_WIDTH,
        p.1 == (index / CHARS_PER_ROW) * CHAR_HEIGHT,
        p.0 + CHAR_WIDTH <= ATLAS_WIDTH,
        p.1 + CHAR_HEIGHT <= ATLAS_HEIGHT,
{
    ((index % CHARS_PER_ROW) * CHAR_WIDTH, (index / CHARS_PER_ROW) * CHAR_HEIGHT)
}

/// A rasterized glyph: its bitmap's width and height, the offset of its
/// bottom edge from the baseline, and its coverage bytes row by row.
#[derive(Debug, Clone)]
pub struct GlyphBitmap {
    pub width: usize,
    pub height: usize,
    pub ymin: i32,
    pub bitmap: Vec<u8>,
}

/// The smaller of `a` and `b`.
pub open spec fn min_int(a: int, b: int) -> int {
    if a < b {
        a
    } else {
        b
    }
}

/// Whether copying a glyph into a cell stays within machine integers: the
/// largest bitmap position read, `(rows - 1) * width + (columns - 1)`, fits
/// in a `usize`.
pub open spec fn blit_fits(g: GlyphBitmap) -> bool {
    g.width == 0 || g.height == 0 || (min_int(g.height as int, CHAR_HEIGHT as int) - 1) * g.width + min_int(
        g.width as int,
        CHAR_WIDTH as int,
    ) - 1 <= usize::MAX
}

/// The bitmap position copied to atlas pixel (`px`, `py`) when the glyph `g`
/// goes into cell `index`, if any: the glyph's rows and columns are clipped
/// to the cell's 24 by 32, its rows shifted down by `ymin` when that is
/// positive, and positions past the bitmap's end are skipped.
pub open spec fn blit_source(index: u32, g: GlyphBitmap, px: int, py: int) -> Option<int> {
    let cx = (index % CHARS_PER_ROW) * CHAR_WIDTH;
    let cy = (index / CHARS_PER_ROW) * CHAR_HEIGHT;
    let off = if g.ymin < 0 { 0 } else { g.ymin as int };
    let x = px - cx;
    let y = py - cy - off;
    if 0 <= x < min_int(g.width as int, CHAR_WIDTH as int) && 0 <= y < min_int(g.height as int, CHAR_HEIGHT as int)
        && y * g.width + x < g.bitmap@.len() {
        Some(y * g.width + x)
    } else {
        None
    }
}

/// The atlas `pixels` with glyph `g` copied into cell `index` (see
/// `blit_source`).
pub open spec fn blitted(pixels: Seq<u8>, index: u32, g: GlyphBitmap) -> Seq<u8> {
    Seq::new(
        pixels.len(),
        |p: int|
            match blit_source(index, g, p % (ATLAS_WIDTH as int), p / (ATLAS_WIDTH as int)) {
                Some(k) => g.bitmap@[k],
                None => pixels[p],
            },
    )
}

/// The atlas after copying the first `n` glyphs of `glyphs` into cells 0,
/// 1, ... in order, starting from a blank atlas.
pub open spec fn atlas_of(glyphs: Seq<GlyphBitmap>, n: nat) -> Seq<u8>
    decreases n,
{
    if n == 0 {
        Seq::new(ATLAS_PIXELS as nat, |p: int| 0u8)
    } else {
        blitted(atlas_of(glyphs, (n - 1) as nat), (n - 1) as u32, glyphs[n - 1])
    }
}

proof fn lemma_atlas_len(glyphs: Seq<GlyphBitmap>, n: nat)
    ensures
        atlas_of(glyphs, n).len() == ATLAS_PIXELS,
    decreases n,
{
    if n > 0 {
        lemma_atlas_len(glyphs, (n - 1) as nat);
    }
}

/// Glyph placement law: copying glyph `g` into cell `index` puts bitmap
/// column `x` of row `y` (within the cell's 24 by 32) at atlas column
/// `cx + x` and row `cy + y + max(ymin, 0)`, where (`cx`, `cy`) is the cell's
/// top-left corner: a glyph reaching below the baseline is not shifted.
pub proof fn lemma_blit_places_pixel(pixels: Seq<u8>, index: u32, g: GlyphBitmap, x: int, y: int)
    requires
        pixels.len() == ATLAS_PIXELS,
        index < ATLAS_CELLS,
        0 <= x < g.width,
        x < CHAR_WIDTH,
        0 <= y < g.height,
        y < CHAR_HEIGHT,
        y * g.width + x < g.bitmap@.len(),
        (index / 16) * 32 + y + (if g.ymin < 0 { 0 } else { g.ymin as int }) < ATLAS_HEIGHT,
    ensures
        blitted(pixels, index, g)[
            ((index / 16) * 32 + y + (if g.ymin < 0 { 0 } else { g.ymin as int })) * 384 + (index % 16) * 24 + x
        ] == g.bitmap@[y * g.width + x],
{
    let cx = (index % 16) * 24;
    let cy = (index / 16) * 32;
    let row = cy + y + (if g.ymin < 0 { 0 } else { g.ymin as int });
    let col = cx + x;
    assert(cx <= 360);
    assert(0 <= col < 384);
    let p = row * 384 + col;
    assert(0 <= p < 98304) by (nonlinear_arith)
        requires
            0 <= row < 256,
            0 <= col < 384,
            p == row * 384 + col,
    ;
    assert(p % 384 == col && p / 384 == row) by {
        vstd::arithmetic::div_mod::lemma_fundamental_div_mod_converse(p, 384, row, col);
    }
    assert(blit_source(index, g, col, row) == Some(y * g.width + x));
}

/// Copying a glyph changes no atlas pixel outside the glyph's rectangle:
/// columns `cx` to `cx + min(width, 24)` and rows `cy + max(ymin, 0)` on, for
/// `min(height, 32)` rows.
pub proof fn lemma_blit_keeps_outside(pixels: Seq<u8>, index: u32, g: GlyphBitmap, p: int)
    requires
        pixels.len() == ATLAS_PIXELS,
        0 <= p < ATLAS_PIXELS,
        !({
            let col = p % 384;
            let row = p / 384;
            let top = (index / 16) * 32 + (if g.ymin < 0 { 0 } else { g.ymin as int });
            &&& (index % 16) * 24 <= col < (index % 16) * 24 + min_int(g.width as int, 24)
            &&& top <= row < top + min_int(g.height as int, 32)
        }),
    ensures
        blitted(pixels, index, g)[p] == pixels[p],
{
}

/// Copies the glyph `g` into cell `index` of the atlas `pixels` (see
/// `blitted`).
pub fn blit_glyph(pixels: &mut Vec<u8>, index: u32, g: &GlyphBitmap)
    requires
        old(pixels)@.len() == ATLAS_PIXELS,
        index < ATLAS_CELLS,
        blit_fits(*g),
    ensures
        final(pixels)@ == blitted(old(pixels)@, index, *g),
{
    let (cx, cy) = cell_origin(index);
    let rows: usize = if g.height < CHAR_HEIGHT as usize { g.height } else { CHAR_HEIGHT as usize };
    let cols: usize = if g.width < CHAR_WIDTH as usize { g.width } else { CHAR_WIDTH as usize };
    let off: u64 = if g.ymin < 0 { 0 } else { g.ymin as u64 };
    let ghost before = pixels@;
    let ghost w = ATLAS_WIDTH as int;
    let mut y: usize = 0;
    while y < rows
        invariant
            rows == min_int(g.height as int, CHAR_HEIGHT as int),
            cols == min_int(g.width as int, CHAR_WIDTH as int),
            w == ATLAS_WIDTH as int,
            off == (if g.ymin < 0 { 0 } else { g.ymin as int }),
            cx == (index % CHARS_PER_ROW) * CHAR_WIDTH,
            cy == (index / CHARS_PER_ROW) * CHAR_HEIGHT,
            cx + CHAR_WIDTH <= ATLAS_WIDTH,
            index < ATLAS_CELLS,
            blit_fits(*g),
            y <= rows,
            pixels@.len() == ATLAS_PIXELS,
            forall|p: int| 0 <= p < ATLAS_PIXELS ==> #[trigger] pixels@[p] == (match blit_source(index, *g, p % w, p / w) {
                Some(k) => if (p / w) - cy - off < y { g.bitmap@[k] } else { before[p] },
                None => before[p],
            }),
        decreases rows - y,
    {
        let mut x: usize = 0;
        while x < cols
            invariant
                rows == min_int(g.height as int, CHAR_HEIGHT as int),
                cols == min_int(g.width as int, CHAR_WIDTH as int),
                w == ATLAS_WIDTH as int,
                off == (if g.ymin < 0 { 0 } else { g.ymin as int }),
                cx == (index % CHARS_PER_ROW) * CHAR_WIDTH,
                cy == (index / CHARS_PER_ROW) * CHAR_HEIGHT,
                cx + CHAR_WIDTH <= ATLAS_WIDTH,
                index < ATLAS_CELLS,
                blit_fits(*g),
                y < rows,
                x <= cols,
                pixels@.len() == ATLAS_PIXELS,
                forall|p: int| 0 <= p < ATLAS_PIXELS ==> #[trigger] pixels@[p] == (match blit_source(index, *g, p % w, p / w) {
                    Some(k) => if (p / w) - cy - off < y || ((p / w) - cy - off == y && (p % w) - cx < x) {
                        g.bitmap@[k]
                    } else {
                        before[p]
                    },
                    None => before[p],
                }),
            decreases cols - x,
        {
            proof {
                assert(y * g.width + x <= (rows - 1) * g.width + cols - 1) by (nonlinear_arith)
                    requires
                        y < rows,
                        x < cols,
                        g.width >= 0,
                ;
            }
            let src = y * g.width + x;
            let dst_x: u64 = cx as u64 + x as u64;
            let dst_y: u64 = cy as u64 + y as u64 + off;
            if dst_x < ATLAS_WIDTH as u64 && dst_y < ATLAS_HEIGHT as u64 && src < g.bitmap.len() {
                proof {
                    assert(dst_y * 384 + dst_x < 98304) by (nonlinear_arith)
                        requires
                            dst_y < 256,
                            dst_x < 384,
                    ;
                }
                let dst = (dst_y * (ATLAS_WIDTH as u64) + dst_x) as usize;
                let ghost mid = pixels@;
                pixels.set(dst, g.bitmap[src]);
                proof {
                    let d = dst as int;
                    assert(d == dst_y * w + dst_x);
                    assert(d % w == dst_x && d / w == dst_y) by {
                        vstd::arithmetic::div_mod::lemma_fundamental_div_mod_converse(d, w, dst_y as int, dst_x as int);
                    }
                    assert forall|p: int| 0 <= p < ATLAS_PIXELS implies #[trigger] pixels@[p] == (match blit_source(index, *g, p % w, p / w) {
                        Some(k) => if (p / w) - cy - off < y || ((p / w) - cy - off == y && (p % w) - cx < x + 1) {
                            g.bitmap@[k]
                        } else {
                            before[p]
                        },
                        None => before[p],
                    }) by {
                        if p != d {
                            assert(pixels@[p] == mid[p]);
                            if (p / w) - cy - off == y && (p % w) - cx == x {
                                assert(p == (p / w) * w + p % w) by {
                                    vstd::arithmetic::div_mod::lemma_fundamental_div_mod(p, w);
                                }
                                assert(p / w == dst_y && p % w == dst_x);
                                assert(p == d);
                            }
                        } else {
                            assert(blit_source(index, *g, p % w, p / w) == Some(src as int));
                        }
                    }
                }
            } else {
                proof {
                    assert forall|p: int| 0 <= p < ATLAS_PIXELS implies #[trigger] pixels@[p] == (match blit_source(index, *g, p % w, p / w) {
                        Some(k) => if (p / w) - cy - off < y || ((p / w) - cy - off == y && (p % w) - cx < x + 1) {
                            g.bitmap@[k]
                        } else {
                            before[p]
                        },
                        None => before[p],
                    }) by {
                        if blit_source(index, *g, p % w, p / w) is Some && (p / w) - cy - off == y && (p % w) - cx == x {
                            assert(0 <= p % w < w && 0 <= p / w < ATLAS_HEIGHT) by {
                                vstd::arithmetic::div_mod::lemma_fundamental_div_mod(p, w);
                            }
                        }
                    }
                }
            }
            x = x + 1;
        }
        y = y + 1;
    }
    proof {
        assert(pixels@ =~= blitted(before, index, *g));
    }
}

/// The font atlas made from `glyphs`, the bitmaps of the atlas's characters
/// in cell order (see `atlas_of`); glyphs past the last cell are left out.
pub fn build_atlas(glyphs: &Vec<GlyphBitmap>) -> (pixels: Vec<u8>)
    requires
        forall|k: int| 0 <= k < glyphs@.len() ==> blit_fits(#[trigger] glyphs@[k]),
    ensures
        pixels@ == atlas_of(glyphs@, min_int(glyphs@.len() as int, ATLAS_CELLS as int) as nat),
{
    let mut pixels: Vec<u8> = Vec::new();
    let mut p: usize = 0;
    while p < ATLAS_PIXELS
        invariant
            p <= ATLAS_PIXELS,
            pixels@ == Seq::new(p as nat, |q: int| 0u8),
        decreases ATLAS_PIXELS - p,
    {
        pixels.push(0);
        proof {
            assert(pixels@ =~= Seq::new(p as nat + 1, |q: int| 0u8));
        }
        p = p + 1;
    }
    proof {
        lemma_atlas_len(glyphs@, 0);
    }
    let mut i: usize = 0;
    while i < glyphs.len() && i < ATLAS_CELLS as usize
        invariant
            i <= glyphs@.len(),
            i <= ATLAS_CELLS,
            forall|k: int| 0 <= k < glyphs@.len() ==> blit_fits(#[trigger] glyphs@[k]),
            pixels@ == atlas_of(glyphs@, i as nat),
            pixels@.len() == ATLAS_PIXELS,
        decreases glyphs@.len() - i,
    {
        blit_glyph(&mut pixels, i as u32, &glyphs[i]);
        i = i + 1;
    }
    pixels
}

/// The two triangles of a glyph quad whose four corners start at vertex
/// `base`: (base, base + 1, base + 2) and (base, base + 2, base + 3).
pub fn quad_indices(base: u32) -> (r: [u32; 6])
    requires
        base + 3 <= u32::MAX,
    ensures
        r@ == seq![base, (base + 1) as u32, (base + 2) as u32, base, (base + 2) as u32, (base + 3) as u32],
{
    [base, base + 1, base + 2, base, base + 2, base + 3]
}

} // verus!
