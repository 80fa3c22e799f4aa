use vstd::prelude::*;

use crate::catalog::{lightness_seq, nearest, CatalogEntry, FontSortByLightness};
use crate::color::{
    channel_of, hue_of, lightness_of, saturation_of, weight_b, weight_g, weight_r, Hsl, Rgb,
    HUE_LIMIT, SCALE,
};
use crate::font::{is_glyph, FONT_HEIGHT, FONT_WIDTH, GLYPH_CELLS};

verus! {

use vstd::arithmetic::div_mod::lemma_fundamental_div_mod_converse;

/// Why a frame could not be rendered.
#[derive(Debug, Clone, Copy, PartialEq, Eq, Structural)]
pub enum RenderError {
    /// The negotiated output has no pixels.
    OutputTooSmall,
    /// The pixel buffer is not `width * height * 4` bytes long.
    BadBufferLength,
    /// The dimensions are not whole multiples of the glyph cell.
    Misaligned,
    /// The catalog has no glyphs.
    EmptyCatalog,
}

/// Output size for a source of `w` by `h` and a cap `size_max`: the longer
/// side is capped (never enlarged), the other scaled by the same ratio and
/// truncated, then both rounded down to whole glyph cells.
pub open spec fn image_size(w: int, h: int, size_max: int) -> (int, int) {
    let (w1, h1) = if w >= h {
        let w1 = if w <= size_max { w } else { size_max };
        (w1, if w == 0 { 0 } else { (h * w1) / w })
    } else {
        let h1 = if h <= size_max { h } else { size_max };
        ((w * h1) / h, h1)
    };
    (w1 - w1 % FONT_WIDTH as int, h1 - h1 % FONT_HEIGHT as int)
}

/// Computes the output size; see `image_size`.
pub fn calc_image_size(w: u32, h: u32, size_max: u32) -> (r: (u32, u32))
    ensures
        (r.0 as int, r.1 as int) == image_size(w as int, h as int, size_max as int),
        r.0 <= w && r.1 <= h,
        r.0 <= size_max && r.1 <= size_max,
        r.0 % FONT_WIDTH as u32 == 0 && r.1 % FONT_HEIGHT as u32 == 0,
{
    let (w1, h1): (u32, u32) = if w >= h {
        let w1 = if w <= size_max { w } else { size_max };
        assert(h as u64 * w1 as u64 <= 0xffff_ffff * 0xffff_ffffu64) by (nonlinear_arith)
            requires
                h <= 0xffff_ffffu32,
                w1 <= 0xffff_ffffu32,
        ;
        let h1: u64 = if w == 0 { 0 } else { (h as u64 * w1 as u64) / w as u64 };
        proof {
            if w != 0 {
                assert((h as int * w1 as int) / w as int <= h as int) by (nonlinear_arith)
                    requires
                        w1 <= w,
                        w > 0,
                ;
                assert((h as int * w1 as int) / w as int <= w1 as int) by (nonlinear_arith)
                    requires
                        h <= w,
                        w > 0,
                ;
            }
        }
        (w1, h1 as u32)
    } else {
        let h1 = if h <= size_max { h } else { size_max };
        assert(w as u64 * h1 as u64 <= 0xffff_ffff * 0xffff_ffffu64) by (nonlinear_arith)
            requires
                w <= 0xffff_ffffu32,
                h1 <= 0xffff_ffffu32,
        ;
        let w1: u64 = (w as u64 * h1 as u64) / h as u64;
        proof {
            assert((w as int * h1 as int) / h as int <= w as int) by (nonlinear_arith)
                requires
                    h1 <= h,
                    h > 0,
            ;
            assert((w as int * h1 as int) / h as int <= h1 as int) by (nonlinear_arith)
                requires
                    w < h,
                    h > 0,
            ;
        }
        (w1 as u32, h1)
    };
    (w1 - w1 % FONT_WIDTH as u32, h1 - h1 % FONT_HEIGHT as u32)
}

/// Byte offset of pixel (`x`, `y`) in a row-major RGBA buffer `w` pixels wide.
pub open spec fn pixel_offset(w: int, x: int, y: int) -> int {
    (y * w + x) * 4
}

/// Component `which` (0 hue, 1 saturation, 2 lightness) of cell `k` of the
/// block whose top-left pixel is (`bx`, `by`).
pub open spec fn cell_component(data: Seq<u8>, w: int, bx: int, by: int, k: int, which: int) -> int {
    let i = pixel_offset(w, bx + k % FONT_WIDTH as int, by + k / FONT_WIDTH as int);
    let (r, g, b) = (data[i] as int, data[i + 1] as int, data[i + 2] as int);
    if which == 0 {
        hue_of(r, g, b)
    } else if which == 1 {
        saturation_of(r, g, b)
    } else {
        lightness_of(r, g, b)
    }
}

/// Sum of component `which` over the first `n` cells of a block.
pub open spec fn block_sum(data: Seq<u8>, w: int, bx: int, by: int, n: int, which: int) -> int
    decreases n,
{
    if n <= 0 {
        0
    } else {
        block_sum(data, w, bx, by, n - 1, which) + cell_component(data, w, bx, by, n - 1, which)
    }
}

/// The mean color of a block: each component averaged over its cells
/// (truncated) and clamped into range.
pub open spec fn block_mean(data: Seq<u8>, w: int, bx: int, by: int) -> (int, int, int) {
    let h = block_sum(data, w, bx, by, GLYPH_CELLS as int, 0) / GLYPH_CELLS as int;
    let s = block_sum(data, w, bx, by, GLYPH_CELLS as int, 1) / GLYPH_CELLS as int;
    let l = block_sum(data, w, bx, by, GLYPH_CELLS as int, 2) / GLYPH_CELLS as int;
    (
        if h < HUE_LIMIT { h } else { HUE_LIMIT - 1 },
        if s <= SCALE { s } else { SCALE as int },
        if l <= SCALE { l } else { SCALE as int },
    )
}

/// The mean color of the block at (`sx`, `sy`) of an image `image_width` wide.
pub fn calc_mean_hsl(data: &Vec<u8>, sx: usize, sy: usize, image_width: usize, image_height: usize) -> (r: Hsl)
    requires
        data@.len() == image_width * image_height * 4,
        sx + FONT_WIDTH <= image_width,
        sy + FONT_HEIGHT <= image_height,
    ensures
        r.wf(),
        (r.h as int, r.s as int, r.l as int) == block_mean(data@, image_width as int, sx as int, sy as int),
{
    let ghost (w, d) = (image_width as int, data@);
    let n = data.len();
    let mut h: u64 = 0;
    let mut s: u64 = 0;
    let mut l: u64 = 0;
    let mut k: usize = 0;
    while k < GLYPH_CELLS
        invariant
            d == data@,
            w == image_width,
            n == data@.len(),
            data@.len() == image_width * image_height * 4,
            sx + FONT_WIDTH <= image_width,
            sy + FONT_HEIGHT <= image_height,
            k <= GLYPH_CELLS,
            h == block_sum(d, w, sx as int, sy as int, k as int, 0),
            s == block_sum(d, w, sx as int, sy as int, k as int, 1),
            l == block_sum(d, w, sx as int, sy as int, k as int, 2),
            h <= k * HUE_LIMIT,
            s <= k * SCALE,
            l <= k * SCALE,
        decreases GLYPH_CELLS - k,
    {
        let x = sx + k % FONT_WIDTH;
        let y = sy + k / FONT_WIDTH;
        assert(y < image_height);
        assert(x < image_width);
        assert(y * image_width + x < image_height * image_width) by (nonlinear_arith)
            requires
                y < image_height,
                x < image_width,
        ;
        assert((y * image_width + x) * 4 + 3 < data@.len()) by (nonlinear_arith)
            requires
                y * image_width + x < image_height * image_width,
                data@.len() == image_width * image_height * 4,
        ;
        let i = (y * image_width + x) * 4;
        let c = Hsl::from_rgb(&Rgb::new(data[i], data[i + 1], data[i + 2]));
        h = h + c.h;
        s = s + c.s;
        l = l + c.l;
        k = k + 1;
    }
    let h = h / GLYPH_CELLS as u64;
    let s = s / GLYPH_CELLS as u64;
    let l = l / GLYPH_CELLS as u64;
    Hsl::new(h, s, l)
}

/// The ink of a block of mean color `m`: its hue and saturation at full lightness.
pub open spec fn ink_channel(m: (int, int, int), c: int) -> int {
    let w = if c == 0 {
        weight_r(m.0)
    } else if c == 1 {
        weight_g(m.0)
    } else {
        weight_b(m.0)
    };
    channel_of(w, m.1, SCALE as int)
}

/// Byte `i` of the rendering of `data` (`w` pixels wide) with the catalog
/// `entries`: the pixel's block takes the glyph nearest to its mean lightness,
/// "on" cells get the block's ink, "off" cells black, alpha is opaque.
pub open spec fn ascii_byte(entries: Seq<CatalogEntry>, data: Seq<u8>, w: int, i: int) -> int {
    let q = i / 4;
    let c = i % 4;
    let x = q % w;
    let y = q / w;
    let m = block_mean(data, w, x - x % FONT_WIDTH as int, y - y % FONT_HEIGHT as int);
    let e = entries[nearest(lightness_seq(entries), m.2)];
    if c == 3 {
        255
    } else {
        e.cells@[(y % FONT_HEIGHT as int) * FONT_WIDTH as int + x % FONT_WIDTH as int] * ink_channel(m, c)
    }
}

/// `out` is the rendering of the `w` by `h` frame `data`.
pub open spec fn renders(entries: Seq<CatalogEntry>, data: Seq<u8>, w: int, h: int, out: Seq<u8>) -> bool {
    out.len() == w * h * 4 && forall|i: int| 0 <= i < out.len() ==> #[trigger] out[i] == ascii_byte(entries, data, w, i)
}

/// Renders a frame of `width` by `height` RGBA pixels as glyphs of the catalog.
pub fn generate_ascii_image_vec(
    catalog: &FontSortByLightness,
    data: &Vec<u8>,
    width: usize,
    height: usize,
) -> (r: Result<Vec<u8>, RenderError>)
    requires
        catalog.wf(),
    ensures
        (width == 0 || height == 0) <==> r == Err::<Vec<u8>, RenderError>(RenderError::OutputTooSmall),
        width != 0 && height != 0 && (width % FONT_WIDTH != 0 || height % FONT_HEIGHT != 0) <==> r
            == Err::<Vec<u8>, RenderError>(RenderError::Misaligned),
        width != 0 && height != 0 && width % FONT_WIDTH == 0 && height % FONT_HEIGHT == 0
            && data@.len() != width * height * 4 <==> r == Err::<Vec<u8>, RenderError>(
            RenderError::BadBufferLength,
        ),
        width != 0 && height != 0 && width % FONT_WIDTH == 0 && height % FONT_HEIGHT == 0
            && data@.len() == width * height * 4 && catalog.entries@.len() == 0 <==> r == Err::<
            Vec<u8>,
            RenderError,
        >(RenderError::EmptyCatalog),
        r matches Ok(out) ==> renders(catalog.entries@, data@, width as int, height as int, out@),
{
    if width == 0 || height == 0 {
        return Err(RenderError::OutputTooSmall);
    }
    if width % FONT_WIDTH != 0 || height % FONT_HEIGHT != 0 {
        return Err(RenderError::Misaligned);
    }
    let n = data.len();
    if n / 4 / width != height || n % 4 != 0 || (n / 4) % width != 0 {
        proof {
            if n == width * height * 4 {
                lemma_fundamental_div_mod_converse(n as int, 4, (width * height) as int, 0);
                lemma_fundamental_div_mod_converse((width * height) as int, width as int, height as int, 0);
            }
        }
        return Err(RenderError::BadBufferLength);
    }
    proof {
        vstd::arithmetic::div_mod::lemma_fundamental_div_mod(n as int, 4);
        vstd::arithmetic::div_mod::lemma_fundamental_div_mod((n / 4) as int, width as int);
        assert(n == width * height * 4) by (nonlinear_arith)
            requires
                n == 4 * (n / 4) + n % 4,
                n % 4 == 0,
                n / 4 == width * ((n / 4) / width) + (n / 4) % width,
                (n / 4) % width == 0,
                (n / 4) / width == height,
        ;
    }
    if catalog.entries.len() == 0 {
        return Err(RenderError::EmptyCatalog);
    }
    let ghost ls = lightness_seq(catalog.entries@);
    let ghost (w, d) = (width as int, data@);
    let bw = width / FONT_WIDTH;
    let bh = height / FONT_HEIGHT;
    assert(bw * bh <= width * height) by (nonlinear_arith)
        requires
            bw == width / 5,
            bh == height / 12,
            width > 0,
            height > 0,
    ;
    let nb = bw * bh;
    assert(bw > 0) by (nonlinear_arith)
        requires
            bw == width / 5,
            width % 5 == 0,
            width > 0,
    ;
    // per block: the chosen entry and the ink
    let mut picks: Vec<usize> = Vec::new();
    let mut inks: Vec<Rgb> = Vec::new();
    let mut b: usize = 0;
    while b < nb
        invariant
            catalog.wf(),
            catalog.entries@.len() > 0,
            ls == lightness_seq(catalog.entries@),
            d == data@,
            w == width,
            data@.len() == width * height * 4,
            width % FONT_WIDTH == 0,
            height % FONT_HEIGHT == 0,
            bw == width / FONT_WIDTH,
            bw > 0,
            bh == height / FONT_HEIGHT,
            nb == bw * bh,
            b <= nb,
            picks@.len() == b,
            inks@.len() == b,
            forall|k: int| 0 <= k < b ==> #[trigger] picks@[k] < catalog.entries@.len(),
            forall|k: int|
                0 <= k < b ==> #[trigger] picks@[k] == nearest(
                    ls,
                    block_mean(d, w, (k % bw as int) * 5, (k / bw as int) * 12).2,
                ),
            forall|k: int|
                0 <= k < b ==> (#[trigger] inks@[k]).r == ink_channel(
                    block_mean(d, w, (k % bw as int) * 5, (k / bw as int) * 12),
                    0,
                ) && inks@[k].g == ink_channel(block_mean(d, w, (k % bw as int) * 5, (k / bw as int) * 12), 1)
                    && inks@[k].b == ink_channel(block_mean(d, w, (k % bw as int) * 5, (k / bw as int) * 12), 2),
        decreases nb - b,
    {
        let bx0 = b % bw;
        let by0 = b / bw;
        proof {
            vstd::arithmetic::div_mod::lemma_fundamental_div_mod(width as int, 5);
            vstd::arithmetic::div_mod::lemma_fundamental_div_mod(height as int, 12);
            vstd::arithmetic::div_mod::lemma_fundamental_div_mod(b as int, bw as int);
            assert(bx0 * 5 + FONT_WIDTH <= width) by (nonlinear_arith)
                requires
                    bx0 == b % bw,
                    b % bw < bw,
                    width == 5 * bw,
            ;
            assert(b / bw < bh) by (nonlinear_arith)
                requires
                    b < bw * bh,
                    b == bw * (b / bw) + b % bw,
                    b % bw >= 0,
                    bw > 0,
            ;
            assert(by0 * 12 + FONT_HEIGHT <= height) by (nonlinear_arith)
                requires
                    by0 == b / bw,
                    b / bw < bh,
                    height == 12 * bh,
            ;
        }
        let bx = bx0 * FONT_WIDTH;
        let by = by0 * FONT_HEIGHT;
        let m = calc_mean_hsl(data, bx, by, width, height);
        let pick = catalog.find_nearest_index(m.l);
        let ink = Rgb::from_hsl(&Hsl { h: m.h, s: m.s, l: SCALE });
        picks.push(pick);
        inks.push(ink);
        b = b + 1;
    }
    let mut out: Vec<u8> = Vec::new();
    let total = width * height;
    let mut q: usize = 0;
    while q < total
        invariant
            catalog.wf(),
            catalog.entries@.len() > 0,
            ls == lightness_seq(catalog.entries@),
            d == data@,
            w == width,
            width > 0,
            data@.len() == width * height * 4,
            width % FONT_WIDTH == 0,
            height % FONT_HEIGHT == 0,
            bw == width / FONT_WIDTH,
            bw > 0,
            bh == height / FONT_HEIGHT,
            nb == bw * bh,
            total == width * height,
            q <= total,
            picks@.len() == nb,
            inks@.len() == nb,
            forall|k: int| 0 <= k < nb ==> #[trigger] picks@[k] < catalog.entries@.len(),
            forall|k: int|
                0 <= k < nb ==> #[trigger] picks@[k] == nearest(
                    ls,
                    block_mean(d, w, (k % bw as int) * 5, (k / bw as int) * 12).2,
                ),
            forall|k: int|
                0 <= k < nb ==> (#[trigger] inks@[k]).r == ink_channel(
                    block_mean(d, w, (k % bw as int) * 5, (k / bw as int) * 12),
                    0,
                ) && inks@[k].g == ink_channel(block_mean(d, w, (k % bw as int) * 5, (k / bw as int) * 12), 1)
                    && inks@[k].b == ink_channel(block_mean(d, w, (k % bw as int) * 5, (k / bw as int) * 12), 2),
            out@.len() == 4 * q,
            forall|i: int| 0 <= i < out@.len() ==> #[trigger] out@[i] == ascii_byte(catalog.entries@, d, w, i),
        decreases total - q,
    {
        let x = q % width;
        let y = q / width;
        proof {
            vstd::arithmetic::div_mod::lemma_fundamental_div_mod(width as int, 5);
            vstd::arithmetic::div_mod::lemma_fundamental_div_mod(height as int, 12);
            vstd::arithmetic::div_mod::lemma_fundamental_div_mod(q as int, width as int);
            vstd::arithmetic::div_mod::lemma_fundamental_div_mod(x as int, 5);
            vstd::arithmetic::div_mod::lemma_fundamental_div_mod(y as int, 12);
            assert(y < height) by (nonlinear_arith)
                requires
                    q < width * height,
                    q == width * y + x,
                    x >= 0,
                    width > 0,
            ;
            assert(x / 5 < bw) by (nonlinear_arith)
                requires
                    x < width,
                    width == 5 * bw,
                    x == 5 * (x / 5) + x % 5,
                    x % 5 >= 0,
            ;
            assert(y / 12 < bh) by (nonlinear_arith)
                requires
                    y < height,
                    height == 12 * bh,
                    y == 12 * (y / 12) + y % 12,
                    y % 12 >= 0,
            ;
            assert((y / 12) * bw + x / 5 < nb) by (nonlinear_arith)
                requires
                    x / 5 < bw,
                    y / 12 < bh,
                    nb == bw * bh,
            ;
        }
        let k = (y / FONT_HEIGHT) * bw + x / FONT_WIDTH;
        let cell = (y % FONT_HEIGHT) * FONT_WIDTH + x % FONT_WIDTH;
        proof {
            lemma_fundamental_div_mod_converse(k as int, bw as int, (y / 12) as int, (x / 5) as int);
            assert(((k as int) % (bw as int)) * 5 == x - x % 5);
            assert(((k as int) / (bw as int)) * 12 == y - y % 12);
        }
        let e = &catalog.entries[picks[k]];
        assert(is_glyph(e.cells@));
        let v = e.cells[cell];
        let ink = inks[k];
        assert(v <= 1);
        assert(v * ink.r <= 255 && v * ink.g <= 255 && v * ink.b <= 255) by (nonlinear_arith)
            requires
                v <= 1,
                ink.r <= 255,
                ink.g <= 255,
                ink.b <= 255,
        ;
        let ghost base = out@.len() as int;
        out.push(v * ink.r);
        out.push(v * ink.g);
        out.push(v * ink.b);
        out.push(255);
        proof {
            assert forall|i: int| base <= i < base + 4 implies #[trigger] out@[i] == ascii_byte(
                catalog.entries@,
                d,
                w,
                i,
            ) by {
                lemma_fundamental_div_mod_converse(i, 4, q as int, i - base);
            }
        }
        q = q + 1;
    }
    proof {
        assert(out@.len() == width * height * 4) by (nonlinear_arith)
            requires
                out@.len() == 4 * q,
                q == width * height,
        ;
    }
    Ok(out)
}

/// Rendering keeps no state between calls: two renderings of one frame with
/// one catalog are the same bytes.
pub proof fn lemma_render_deterministic(
    entries: Seq<CatalogEntry>,
    data: Seq<u8>,
    w: int,
    h: int,
    out1: Seq<u8>,
    out2: Seq<u8>,
)
    requires
        renders(entries, data, w, h, out1),
        renders(entries, data, w, h, out2),
    ensures
        out1 == out2,
{
    assert(out1 =~= out2);
}

/// The block sums of a frame whose pixels all have the color (`r`, `g`, `b`).
proof fn lemma_uniform_block_sum(
    data: Seq<u8>,
    w: int,
    h: int,
    r: u8,
    g: u8,
    b: u8,
    bx: int,
    by: int,
    n: int,
    which: int,
)
    requires
        0 <= n <= GLYPH_CELLS,
        0 <= bx,
        0 <= by,
        bx + FONT_WIDTH <= w,
        by + FONT_HEIGHT <= h,
        forall|x: int, y: int|
            0 <= x < w && 0 <= y < h ==> data[#[trigger] pixel_offset(w, x, y)] == r && data[pixel_offset(w, x, y) + 1] == g
                && data[pixel_offset(w, x, y) + 2] == b,
    ensures
        block_sum(data, w, bx, by, n, which) == n * (if which == 0 {
            hue_of(r as int, g as int, b as int)
        } else if which == 1 {
            saturation_of(r as int, g as int, b as int)
        } else {
            lightness_of(r as int, g as int, b as int)
        }),
    decreases n,
{
    if n > 0 {
        lemma_uniform_block_sum(data, w, h, r, g, b, bx, by, n - 1, which);
        let k = n - 1;
        assert(0 <= k % 5 < 5 && 0 <= k / 5 < 12);
        let x = bx + k % 5;
        let y = by + k / 5;
        assert(data[pixel_offset(w, x, y)] == r);
        let c = if which == 0 {
            hue_of(r as int, g as int, b as int)
        } else if which == 1 {
            saturation_of(r as int, g as int, b as int)
        } else {
            lightness_of(r as int, g as int, b as int)
        };
        assert(x < w && y < h);
        assert(data[pixel_offset(w, x, y) + 1] == g);
        assert(data[pixel_offset(w, x, y) + 2] == b);
        assert(cell_component(data, w, bx, by, k, which) == c);
        assert((n - 1) * c + c == n * c) by (nonlinear_arith);
        assert(block_sum(data, w, bx, by, n, which) == block_sum(data, w, bx, by, n - 1, which)
            + cell_component(data, w, bx, by, n - 1, which));
        assert(block_sum(data, w, bx, by, n, which) == n * c);
    } else {
        let c = if which == 0 {
            hue_of(r as int, g as int, b as int)
        } else if which == 1 {
            saturation_of(r as int, g as int, b as int)
        } else {
            lightness_of(r as int, g as int, b as int)
        };
        assert(n * c == 0) by (nonlinear_arith)
            requires
                n == 0,
        ;
    }
}

/// In a frame of one color every block has that color's hue, saturation and
/// lightness as its mean, so every block gets the same glyph and the same ink.
pub proof fn lemma_uniform_frame(data: Seq<u8>, w: int, h: int, r: u8, g: u8, b: u8, bx: int, by: int)
    requires
        0 <= bx,
        0 <= by,
        bx + FONT_WIDTH <= w,
        by + FONT_HEIGHT <= h,
        forall|x: int, y: int|
            0 <= x < w && 0 <= y < h ==> data[#[trigger] pixel_offset(w, x, y)] == r && data[pixel_offset(w, x, y) + 1] == g
                && data[pixel_offset(w, x, y) + 2] == b,
    ensures
        block_mean(data, w, bx, by) == (
            hue_of(r as int, g as int, b as int),
            saturation_of(r as int, g as int, b as int),
            lightness_of(r as int, g as int, b as int),
        ),
{
    crate::color::lemma_components_in_range(r as int, g as int, b as int);
    lemma_uniform_block_sum(data, w, h, r, g, b, bx, by, 60, 0);
    lemma_uniform_block_sum(data, w, h, r, g, b, bx, by, 60, 1);
    lemma_uniform_block_sum(data, w, h, r, g, b, bx, by, 60, 2);
}

/// The rendering of a one-colour frame repeats block (0, 0): every pixel has
/// the bytes of the pixel at the same place in the first block.
pub proof fn lemma_uniform_frame_bytes(
    entries: Seq<CatalogEntry>,
    data: Seq<u8>,
    w: int,
    h: int,
    r: u8,
    g: u8,
    b: u8,
    out: Seq<u8>,
)
    requires
        w > 0,
        h > 0,
        w % (FONT_WIDTH as int) == 0,
        h % (FONT_HEIGHT as int) == 0,
        renders(entries, data, w, h, out),
        forall|x: int, y: int|
            0 <= x < w && 0 <= y < h ==> data[#[trigger] pixel_offset(w, x, y)] == r && data[pixel_offset(w, x, y) + 1] == g
                && data[pixel_offset(w, x, y) + 2] == b,
    ensures
        forall|x: int, y: int, k: int|
            0 <= x < w && 0 <= y < h && 0 <= k < 4 ==> #[trigger] out[(y * w + x) * 4 + k] == out[((y
                % FONT_HEIGHT as int) * w + x % FONT_WIDTH as int) * 4 + k],
{
    assert forall|x: int, y: int, k: int| 0 <= x < w && 0 <= y < h && 0 <= k < 4 implies #[trigger] out[(y * w
        + x) * 4 + k] == out[((y % FONT_HEIGHT as int) * w + x % FONT_WIDTH as int) * 4 + k] by {
        let (x0, y0) = (x % 5, y % 12);
        vstd::arithmetic::div_mod::lemma_fundamental_div_mod(x, 5);
        vstd::arithmetic::div_mod::lemma_fundamental_div_mod(y, 12);
        vstd::arithmetic::div_mod::lemma_fundamental_div_mod(w, 5);
        vstd::arithmetic::div_mod::lemma_fundamental_div_mod(h, 12);
        assert(0 <= x0 < 5 && 0 <= y0 < 12 && x0 <= x && y0 <= y);
        assert(x - x0 + 5 <= w) by (nonlinear_arith)
            requires
                x == 5 * (x / 5) + x0,
                w == 5 * (w / 5),
                x < w,
                0 <= x0,
        ;
        assert(y - y0 + 12 <= h) by (nonlinear_arith)
            requires
                y == 12 * (y / 12) + y0,
                h == 12 * (h / 12),
                y < h,
                0 <= y0,
        ;
        let q = y * w + x;
        let q0 = y0 * w + x0;
        assert(0 <= q < w * h && 0 <= q0 <= q) by (nonlinear_arith)
            requires
                0 <= x < w,
                0 <= y < h,
                0 <= x0 <= x,
                0 <= y0 <= y,
                q == y * w + x,
                q0 == y0 * w + x0,
        ;
        let i = q * 4 + k;
        let i0 = q0 * 4 + k;
        assert(i < out.len() && 0 <= i0 <= i) by (nonlinear_arith)
            requires
                0 <= q0 <= q,
                q < w * h,
                out.len() == w * h * 4,
                0 <= k < 4,
                i == q * 4 + k,
                i0 == q0 * 4 + k,
        ;
        vstd::arithmetic::div_mod::lemma_fundamental_div_mod_converse(i, 4, q, k);
        vstd::arithmetic::div_mod::lemma_fundamental_div_mod_converse(i0, 4, q0, k);
        vstd::arithmetic::div_mod::lemma_fundamental_div_mod_converse(q, w, y, x);
        vstd::arithmetic::div_mod::lemma_fundamental_div_mod_converse(q0, w, y0, x0);
        vstd::arithmetic::div_mod::lemma_fundamental_div_mod_converse(x0, 5, 0, x0);
        vstd::arithmetic::div_mod::lemma_fundamental_div_mod_converse(y0, 12, 0, y0);
        lemma_uniform_frame(data, w, h, r, g, b, x - x0, y - y0);
        lemma_uniform_frame(data, w, h, r, g, b, 0, 0);
        assert(out[i] == ascii_byte(entries, data, w, i));
        assert(out[i0] == ascii_byte(entries, data, w, i0));
        assert(i == (y * w + x) * 4 + k);
        assert(i0 == ((y % FONT_HEIGHT as int) * w + x % FONT_WIDTH as int) * 4 + k);
    }
}

} // verus!
