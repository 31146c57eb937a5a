//! Heatmaps as pictures: the pixels, the PNG file, and how a terminal is shown one.
use vstd::prelude::*;

use crate::text::{decimal, decimal_string};

verus! {

/// A colour.
#[derive(Clone, Copy, Debug, PartialEq, Eq, Structural)]
pub struct Rgb {
    pub r: u8,
    pub g: u8,
    pub b: u8,
}

pub open spec fn larger(a: int, b: int) -> int {
    if a > b {
        a
    } else {
        b
    }
}

fn max_of(a: usize, b: usize) -> (r: usize)
    ensures
        r == larger(a as int, b as int),
{
    if a > b {
        a
    } else {
        b
    }
}

/// The number nearest to `n` from `low` to `high`.
pub open spec fn clamped(n: int, low: int, high: int) -> int {
    if n < low {
        low
    } else if n > high {
        high
    } else {
        n
    }
}

/// How many pixels the side of a cell is.
pub open spec fn cell_side(rows: int, cols: int, target: int) -> int {
    clamped(target / larger(larger(rows, cols), 1), 1, 64)
}

/// How many pixels the side of a cell is, so that the longer side of the picture comes
/// to about `target_px`: at least one, and no more than 64.
pub fn scale_for(rows: usize, cols: usize, target_px: usize) -> (r: usize)
    ensures
        r == cell_side(rows as int, cols as int, target_px as int),
        1 <= r <= 64,
{
    let side: usize = target_px / max_of(max_of(rows, cols), 1);
    if side < 1 {
        1
    } else if side > 64 {
        64
    } else {
        side
    }
}

// ---------------------------------------------------------------------------
// Labels

/// The rows of a character's picture, five pixels wide, the leftmost pixel worth 16.
pub open spec fn glyph_rows(c: char) -> Option<Seq<u8>> {
    if c == '0' {
        Some(seq![0b01110, 0b10001, 0b10011, 0b10101, 0b11001, 0b10001, 0b01110])
    } else if c == '1' {
        Some(seq![0b00100, 0b01100, 0b00100, 0b00100, 0b00100, 0b00100, 0b01110])
    } else if c == '2' {
        Some(seq![0b01110, 0b10001, 0b00001, 0b00010, 0b00100, 0b01000, 0b11111])
    } else if c == '3' {
        Some(seq![0b11110, 0b00001, 0b00001, 0b01110, 0b00001, 0b00001, 0b11110])
    } else if c == '4' {
        Some(seq![0b00010, 0b00110, 0b01010, 0b10010, 0b11111, 0b00010, 0b00010])
    } else if c == '5' {
        Some(seq![0b11111, 0b10000, 0b11110, 0b00001, 0b00001, 0b10001, 0b01110])
    } else if c == '6' {
        Some(seq![0b00110, 0b01000, 0b10000, 0b11110, 0b10001, 0b10001, 0b01110])
    } else if c == '7' {
        Some(seq![0b11111, 0b00001, 0b00010, 0b00100, 0b01000, 0b01000, 0b01000])
    } else if c == '8' {
        Some(seq![0b01110, 0b10001, 0b10001, 0b01110, 0b10001, 0b10001, 0b01110])
    } else if c == '9' {
        Some(seq![0b01110, 0b10001, 0b10001, 0b01111, 0b00001, 0b00010, 0b01100])
    } else if c == '.' {
        Some(seq![0, 0, 0, 0, 0, 0b00110, 0b00110])
    } else if c == '-' {
        Some(seq![0, 0, 0, 0b11111, 0, 0, 0])
    } else if c == '+' {
        Some(seq![0, 0b00100, 0b00100, 0b11111, 0b00100, 0b00100, 0])
    } else if c == 'e' {
        Some(seq![0, 0, 0b01110, 0b10001, 0b11111, 0b10000, 0b01110])
    } else if c == ' ' {
        Some(seq![0, 0, 0, 0, 0, 0, 0])
    } else {
        None
    }
}

/// The rows of a character's picture; `None` for a character that has none.
pub fn glyph(c: char) -> (r: Option<[u8; 7]>)
    ensures
        match r {
            Some(g) => glyph_rows(c) == Some(g@),
            None => glyph_rows(c) is None,
        },
{
    let g: [u8; 7] = if c == '0' {
        [0b01110, 0b10001, 0b10011, 0b10101, 0b11001, 0b10001, 0b01110]
    } else if c == '1' {
        [0b00100, 0b01100, 0b00100, 0b00100, 0b00100, 0b00100, 0b01110]
    } else if c == '2' {
        [0b01110, 0b10001, 0b00001, 0b00010, 0b00100, 0b01000, 0b11111]
    } else if c == '3' {
        [0b11110, 0b00001, 0b00001, 0b01110, 0b00001, 0b00001, 0b11110]
    } else if c == '4' {
        [0b00010, 0b00110, 0b01010, 0b10010, 0b11111, 0b00010, 0b00010]
    } else if c == '5' {
        [0b11111, 0b10000, 0b11110, 0b00001, 0b00001, 0b10001, 0b01110]
    } else if c == '6' {
        [0b00110, 0b01000, 0b10000, 0b11110, 0b10001, 0b10001, 0b01110]
    } else if c == '7' {
        [0b11111, 0b00001, 0b00010, 0b00100, 0b01000, 0b01000, 0b01000]
    } else if c == '8' {
        [0b01110, 0b10001, 0b10001, 0b01110, 0b10001, 0b10001, 0b01110]
    } else if c == '9' {
        [0b01110, 0b10001, 0b10001, 0b01111, 0b00001, 0b00010, 0b01100]
    } else if c == '.' {
        [0, 0, 0, 0, 0, 0b00110, 0b00110]
    } else if c == '-' {
        [0, 0, 0, 0b11111, 0, 0, 0]
    } else if c == '+' {
        [0, 0b00100, 0b00100, 0b11111, 0b00100, 0b00100, 0]
    } else if c == 'e' {
        [0, 0, 0b01110, 0b10001, 0b11111, 0b10000, 0b01110]
    } else if c == ' ' {
        [0, 0, 0, 0, 0, 0, 0]
    } else {
        return None;
    };
    proof {
        assert(g@ =~= glyph_rows(c)->0);
    }
    Some(g)
}

/// What a pixel of a row is worth.
pub open spec fn pixel_worth(col: int) -> u8 {
    if col == 0 {
        16
    } else if col == 1 {
        8
    } else if col == 2 {
        4
    } else if col == 3 {
        2
    } else {
        1
    }
}

/// Whether a pixel of a character's picture is set.
pub open spec fn glyph_pixel(c: char, row: int, col: int) -> bool {
    match glyph_rows(c) {
        Some(g) => 0 <= row < 7 && 0 <= col < 5 && (g[row] / pixel_worth(col)) % 2 == 1,
        None => false,
    }
}

fn glyph_has(c: char, row: usize, col: usize) -> (b: bool)
    ensures
        b == glyph_pixel(c, row as int, col as int),
{
    match glyph(c) {
        Some(g) => {
            if row >= 7 || col >= 5 {
                return false;
            }
            let worth: u8 = if col == 0 {
                16
            } else if col == 1 {
                8
            } else if col == 2 {
                4
            } else if col == 3 {
                2
            } else {
                1
            };
            (g[row] / worth) % 2 == 1
        },
        None => false,
    }
}

/// How many pixels wide a text is: six for each character, the last of them blank.
pub open spec fn label_width(text: Seq<char>, scale: int) -> int {
    text.len() * 6 * scale
}

/// Whether a pixel is set of a text whose top left corner is at (`x0`, `y0`), each pixel
/// of a character `scale` wide and high.
pub open spec fn ink(text: Seq<char>, x0: int, y0: int, scale: int, x: int, y: int) -> bool {
    let k = (x - x0) / (6 * scale);
    x >= x0 && y >= y0 && k < text.len() && glyph_pixel(
        text[k],
        (y - y0) / scale,
        ((x - x0) % (6 * scale)) / scale,
    )
}

fn has_ink(text: &Vec<char>, x0: usize, y0: usize, scale: usize, x: usize, y: usize) -> (b: bool)
    requires
        0 < scale <= 8,
    ensures
        b == ink(text@, x0 as int, y0 as int, scale as int, x as int, y as int),
{
    if x < x0 || y < y0 {
        return false;
    }
    let pitch: usize = 6 * scale;
    let k: usize = (x - x0) / pitch;
    k < text.len() && glyph_has(text[k], (y - y0) / scale, ((x - x0) % pitch) / scale)
}

// ---------------------------------------------------------------------------
// The picture

/// How a picture is divided up, in pixels.
pub struct CanvasModel {
    /// The side of a cell.
    pub scale: int,
    /// The side of a pixel of a label.
    pub fs: int,
    /// The height of the band above the cells.
    pub band: int,
    pub width: int,
    pub height: int,
    /// The left edge of the cells.
    pub left: int,
    /// The width of the cells.
    pub cells_wide: int,
    /// The width of the colour bar.
    pub bar: int,
}

/// How a picture of `rows` by `cols` cells is divided up. With labels, a band above the
/// cells holds a colour bar and its two labels, and the picture is wide enough for both.
pub open spec fn canvas_of(
    rows: int,
    cols: int,
    target: int,
    labels: Option<(Seq<char>, Seq<char>)>,
) -> CanvasModel {
    let scale = cell_side(rows, cols, target);
    let hw = cols * scale;
    let hh = rows * scale;
    let fs = clamped(larger(hw, hh) / 200, 2, 8);
    let band = match labels {
        Some(_) => 28 * fs,
        None => 0,
    };
    let width = match labels {
        Some((low, high)) => larger(
            hw,
            label_width(low, fs) + 6 * fs + label_width(high, fs) + 8 * fs,
        ),
        None => hw,
    };
    CanvasModel {
        scale,
        fs,
        band,
        width,
        height: band + hh,
        left: (width - hw) / 2,
        cells_wide: hw,
        bar: larger(width - 8 * fs, 1),
    }
}

/// How a picture is divided up, in pixels.
#[derive(Clone, Copy, Debug, PartialEq, Eq, Structural)]
pub struct Canvas {
    pub scale: usize,
    pub fs: usize,
    pub band: usize,
    pub width: usize,
    pub height: usize,
    pub left: usize,
    pub cells_wide: usize,
    /// The width of the colour bar.
    pub bar: usize,
}

impl DeepView for Canvas {
    type V = CanvasModel;

    open spec fn deep_view(&self) -> CanvasModel {
        CanvasModel {
            scale: self.scale as int,
            fs: self.fs as int,
            band: self.band as int,
            width: self.width as int,
            height: self.height as int,
            left: self.left as int,
            cells_wide: self.cells_wide as int,
            bar: self.bar as int,
        }
    }
}

/// The bounds of a colour bar: the labels of its two ends.
#[derive(Debug)]
pub struct Bounds {
    pub low: String,
    pub high: String,
}

impl DeepView for Bounds {
    type V = (Seq<char>, Seq<char>);

    open spec fn deep_view(&self) -> (Seq<char>, Seq<char>) {
        (self.low@, self.high@)
    }
}

/// The labels, where there are some.
pub open spec fn labels_of(bounds: Option<Bounds>) -> Option<(Seq<char>, Seq<char>)> {
    match bounds {
        Some(b) => Some(b.deep_view()),
        None => None,
    }
}

/// The picture fits in memory and in a file.
pub open spec fn fits(c: CanvasModel) -> bool {
    c.width <= u32::MAX && c.height <= u32::MAX && c.width * c.height * 3 <= usize::MAX
}

/// Divide a picture of `rows` by `cols` cells up.
pub fn plan_canvas(rows: usize, cols: usize, target_px: usize, bounds: &Option<Bounds>) -> (r: Canvas)
    requires
        fits(canvas_of(rows as int, cols as int, target_px as int, labels_of(*bounds))),
    ensures
        r.deep_view() == canvas_of(rows as int, cols as int, target_px as int, labels_of(*bounds)),
{
    let scale: usize = scale_for(rows, cols, target_px);
    proof {
        let (a, b, s) = (rows as int, cols as int, scale as int);
        assert(0 <= a * s <= 64 * a) by (nonlinear_arith)
            requires
                0 <= a,
                1 <= s <= 64,
        ;
        assert(0 <= b * s <= 64 * b) by (nonlinear_arith)
            requires
                0 <= b,
                1 <= s <= 64,
        ;
    }
    let hw: u128 = cols as u128 * scale as u128;
    let hh: u128 = rows as u128 * scale as u128;
    let longer: u128 = if hw > hh {
        hw
    } else {
        hh
    };
    let fs: usize = if longer / 200 < 2 {
        2
    } else if longer / 200 > 8 {
        8
    } else {
        (longer / 200) as usize
    };
    let ghost c = canvas_of(rows as int, cols as int, target_px as int, labels_of(*bounds));
    let (band, width): (usize, u128) = match bounds {
        Some(b) => {
            let low: usize = b.low.as_str().unicode_len();
            let high: usize = b.high.as_str().unicode_len();
            proof {
                let (l, h, f) = (low as int, high as int, fs as int);
                assert(0 <= l * 6 * f <= l * 48) by (nonlinear_arith)
                    requires
                        0 <= l,
                        2 <= f <= 8,
                ;
                assert(0 <= h * 6 * f <= h * 48) by (nonlinear_arith)
                    requires
                        0 <= h,
                        2 <= f <= 8,
                ;
            }
            let text: u128 = low as u128 * 6 * fs as u128 + 6 * fs as u128 + high as u128 * 6 * (
            fs as u128) + 8 * fs as u128;
            (
                28 * fs,
                if hw > text {
                    hw
                } else {
                    text
                },
            )
        },
        None => (0, hw),
    };
    proof {
        assert(width == c.width);
        assert(band == c.band);
    }
    let bar: usize = if width > 8 * fs as u128 + 1 {
        (width - 8 * fs as u128) as usize
    } else {
        1
    };
    Canvas {
        scale,
        fs,
        band,
        width: width as usize,
        height: (band as u128 + hh) as usize,
        left: ((width - hw) / 2) as usize,
        cells_wide: hw as usize,
        bar,
    }
}

/// The colour of a pixel.
pub open spec fn pixel(
    c: CanvasModel,
    cells: Seq<Seq<Rgb>>,
    missing: Rgb,
    labels: Option<(Seq<char>, Seq<char>)>,
    bar: Seq<Rgb>,
    x: int,
    y: int,
) -> Rgb {
    if y >= c.band && c.left <= x < c.left + c.cells_wide {
        let row = cells[(y - c.band) / c.scale];
        let col = (x - c.left) / c.scale;
        if col < row.len() {
            row[col]
        } else {
            missing
        }
    } else {
        match labels {
            Some((low, high)) => {
                let top = 17 * c.fs;
                let right = larger(c.width - 4 * c.fs - label_width(high, c.fs), 0);
                if ink(low, 4 * c.fs, top, c.fs, x, y) || ink(high, right, top, c.fs, x, y) {
                    (Rgb { r: 0, g: 0, b: 0 })
                } else if 4 * c.fs <= y < 14 * c.fs && 4 * c.fs <= x < 4 * c.fs + c.bar {
                    bar[x - 4 * c.fs]
                } else {
                    (Rgb { r: 255, g: 255, b: 255 })
                }
            },
            None => (Rgb { r: 255, g: 255, b: 255 }),
        }
    }
}

/// The first `n` pixels of a picture, row by row, three bytes each.
pub open spec fn painted(
    c: CanvasModel,
    cells: Seq<Seq<Rgb>>,
    missing: Rgb,
    labels: Option<(Seq<char>, Seq<char>)>,
    bar: Seq<Rgb>,
    n: int,
) -> Seq<u8>
    decreases n,
{
    if n <= 0 {
        Seq::empty()
    } else {
        let p = pixel(c, cells, missing, labels, bar, (n - 1) % c.width, (n - 1) / c.width);
        painted(c, cells, missing, labels, bar, n - 1) + seq![p.r, p.g, p.b]
    }
}

/// The colours of some rows of cells.
pub open spec fn colours(cells: Seq<Vec<Rgb>>) -> Seq<Seq<Rgb>> {
    cells.map_values(|row: Vec<Rgb>| row@)
}

/// The characters of two labels.
spec fn words_of(labels: Option<(Vec<char>, Vec<char>)>) -> Option<(Seq<char>, Seq<char>)> {
    match labels {
        Some(p) => Some((p.0@, p.1@)),
        None => None,
    }
}

fn pixel_at(
    c: &Canvas,
    cells: &Vec<Vec<Rgb>>,
    missing: Rgb,
    labels: &Option<(Vec<char>, Vec<char>)>,
    bar: &Vec<Rgb>,
    x: usize,
    y: usize,
) -> (r: Rgb)
    requires
        0 < c.scale,
        2 <= c.fs <= 8,
        c.band + c.left + c.cells_wide <= 3 * u32::MAX,
        c.band + cells.len() * c.scale == c.height,
        y < c.height,
        x < c.width,
        c.width <= u32::MAX,
        bar.len() == c.bar || labels is None,
    ensures
        r == pixel(
            c.deep_view(),
            colours(cells@),
            missing,
            words_of(*labels),
            bar@,
            x as int,
            y as int,
        ),
{
    if y >= c.band && c.left <= x && x - c.left < c.cells_wide {
        let row: usize = (y - c.band) / c.scale;
        let col: usize = (x - c.left) / c.scale;
        proof {
            let (d, s, n) = ((y - c.band) as int, c.scale as int, cells.len() as int);
            assert(d / s < n) by (nonlinear_arith)
                requires
                    0 <= d < n * s,
                    s > 0,
            ;
            assert(colours(cells@)[row as int] == cells@[row as int]@);
        }
        if col < cells[row].len() {
            return cells[row][col];
        }
        return missing;
    }
    let white = Rgb { r: 255, g: 255, b: 255 };
    match labels {
        Some(pair) => {
            let top: usize = 17 * c.fs;
            proof {
                let (h, f) = (pair.1.len() as int, c.fs as int);
                assert(0 <= h * 6 * f <= h * 48) by (nonlinear_arith)
                    requires
                        0 <= h,
                        2 <= f <= 8,
                ;
            }
            let wide: u128 = pair.1.len() as u128 * 6 * c.fs as u128;
            let right: usize = if c.width as u128 > wide + 4 * c.fs as u128 {
                (c.width as u128 - 4 * c.fs as u128 - wide) as usize
            } else {
                0
            };
            if has_ink(&pair.0, 4 * c.fs, top, c.fs, x, y) || has_ink(
                &pair.1,
                right,
                top,
                c.fs,
                x,
                y,
            ) {
                return Rgb { r: 0, g: 0, b: 0 };
            }
            let edge: usize = 4 * c.fs;
            if edge <= y && y < 14 * c.fs && edge <= x && x - edge < c.bar {
                return bar[x - edge];
            }
            white
        },
        None => white,
    }
}

fn paint(
    c: &Canvas,
    cells: &Vec<Vec<Rgb>>,
    missing: Rgb,
    labels: &Option<(Vec<char>, Vec<char>)>,
    bar: &Vec<Rgb>,
) -> (px: Vec<u8>)
    requires
        0 < c.scale,
        2 <= c.fs <= 8,
        c.band + c.left + c.cells_wide <= 3 * u32::MAX,
        c.band + cells.len() * c.scale == c.height,
        c.width <= u32::MAX,
        c.width > 0,
        bar.len() == c.bar || labels is None,
    ensures
        px@ == painted(
            c.deep_view(),
            colours(cells@),
            missing,
            words_of(*labels),
            bar@,
            c.width * c.height,
        ),
{
    let ghost m = c.deep_view();
    let ghost grid = colours(cells@);
    let ghost words = words_of(*labels);
    let mut px: Vec<u8> = Vec::new();
    let mut y: usize = 0;
    while y < c.height
        invariant
            y <= c.height,
            0 < c.scale,
            2 <= c.fs <= 8,
            c.band + c.left + c.cells_wide <= 3 * u32::MAX,
            c.band + cells.len() * c.scale == c.height,
            c.width <= u32::MAX,
            c.width > 0,
            bar.len() == c.bar || labels is None,
            m == c.deep_view(),
            grid == colours(cells@),
            words == words_of(*labels),
            px@ == painted(m, grid, missing, words, bar@, y * c.width),
        decreases c.height - y,
    {
        let mut x: usize = 0;
        while x < c.width
            invariant
                x <= c.width,
                y < c.height,
                0 < c.scale,
                2 <= c.fs <= 8,
                c.band + c.left + c.cells_wide <= 3 * u32::MAX,
                c.band + cells.len() * c.scale == c.height,
                c.width <= u32::MAX,
                c.width > 0,
                bar.len() == c.bar || labels is None,
                m == c.deep_view(),
                grid == colours(cells@),
                words == words_of(*labels),
                px@ == painted(m, grid, missing, words, bar@, y * c.width + x),
            decreases c.width - x,
        {
            let p = pixel_at(c, cells, missing, labels, bar, x, y);
            let ghost had = px@;
            px.push(p.r);
            px.push(p.g);
            px.push(p.b);
            proof {
                let (q, d, r) = (y as int, c.width as int, x as int);
                let n = q * d + r;
                assert(n >= 0) by (nonlinear_arith)
                    requires
                        q >= 0,
                        d >= 0,
                        r >= 0,
                        n == q * d + r,
                ;
                vstd::arithmetic::div_mod::lemma_fundamental_div_mod_converse(n, d, q, r);
                assert(px@ =~= had + seq![p.r, p.g, p.b]);
            }
            x = x + 1;
        }
        proof {
            let (q, d) = (y as int, c.width as int);
            assert((q + 1) * d == q * d + d) by (nonlinear_arith);
        }
        y = y + 1;
    }
    proof {
        let (q, d) = (c.height as int, c.width as int);
        assert(q * d == d * q) by (nonlinear_arith);
    }
    px
}

/// A PNG file of 8-bit RGB pixels, as the `png` crate writes it.
pub uninterp spec fn png_file(width: u32, height: u32, pixels: Seq<u8>) -> Seq<u8>;

/// `png::Encoder::new`, `write_header` and `Writer::write_image_data`: the PNG file of
/// some 8-bit RGB pixels. Errors leave the file as far as it was written.
#[verifier::external_body]
fn encode_png(width: u32, height: u32, pixels: &Vec<u8>) -> (r: Vec<u8>)
    requires
        pixels.len() == width * height * 3,
    ensures
        r@ == png_file(width, height, pixels@),
{
    let mut out = Vec::new();
    let mut enc = png::Encoder::new(&mut out, width, height);
    enc.set_color(png::ColorType::Rgb);
    enc.set_depth(png::BitDepth::Eight);
    if let Ok(mut writer) = enc.write_header() {
        let _ = writer.write_image_data(pixels);
    }
    out
}

/// How many cells a row of a grid has: as many as its first.
pub open spec fn grid_cols(cells: Seq<Seq<Rgb>>) -> int {
    if cells.len() > 0 {
        cells[0].len() as int
    } else {
        0
    }
}

/// How a grid's picture is divided up.
pub open spec fn grid_canvas(cells: Seq<Seq<Rgb>>, target: int, bounds: Option<Bounds>) -> CanvasModel {
    canvas_of(cells.len() as int, grid_cols(cells), target, labels_of(bounds))
}

/// The heatmap of a grid of colours as a PNG file whose longer side is about `target_px`
/// pixels. A cell that a row lacks gets the colour `missing`. With bounds, a colour bar
/// is drawn above, whose colours from left to right are `bar`. Empty for an empty grid.
pub fn heatmap_png(
    cells: &Vec<Vec<Rgb>>,
    missing: Rgb,
    target_px: usize,
    bounds: &Option<Bounds>,
    bar: &Vec<Rgb>,
) -> (r: Vec<u8>)
    requires
        fits(grid_canvas(colours(cells@), target_px as int, *bounds)),
        bounds is Some && grid_cols(colours(cells@)) > 0 ==> bar.len() == grid_canvas(
            colours(cells@),
            target_px as int,
            *bounds,
        ).bar,
    ensures
        r@ == if grid_cols(colours(cells@)) == 0 {
            Seq::empty()
        } else {
            let c = grid_canvas(colours(cells@), target_px as int, *bounds);
            png_file(
                c.width as u32,
                c.height as u32,
                painted(
                    c,
                    colours(cells@),
                    missing,
                    labels_of(*bounds),
                    bar@,
                    c.width * c.height,
                ),
            )
        },
{
    proof {
        if cells.len() > 0 {
            assert(colours(cells@)[0] == cells@[0]@);
        }
    }
    if cells.len() == 0 || cells[0].len() == 0 {
        return Vec::new();
    }
    let c = plan_canvas(cells.len(), cells[0].len(), target_px, bounds);
    let labels = match bounds {
        Some(b) => Some(
            (
                crate::text::chars_of(b.low.as_str()),
                crate::text::chars_of(b.high.as_str()),
            ),
        ),
        None => None,
    };
    let ghost m = c.deep_view();
    proof {
        let (n, s) = (cells@[0].len() as int, m.scale);
        assert(n * s > 0) by (nonlinear_arith)
            requires
                n > 0,
                s > 0,
        ;
        assert(c.cells_wide == n * s);
    }
    let px = paint(&c, cells, missing, &labels, bar);
    proof {
        lemma_painted_len(m, colours(cells@), missing, labels_of(*bounds), bar@, m.width * m.height);
        let (a, b) = (m.width, m.height);
        assert(3 * (a * b) == a * b * 3) by (nonlinear_arith);
        assert(a * b >= 0) by (nonlinear_arith)
            requires
                a >= 0,
                b >= 0,
        ;
    }
    encode_png(c.width as u32, c.height as u32, &px)
}

proof fn lemma_painted_len(
    c: CanvasModel,
    cells: Seq<Seq<Rgb>>,
    missing: Rgb,
    labels: Option<(Seq<char>, Seq<char>)>,
    bar: Seq<Rgb>,
    n: int,
)
    ensures
        n >= 0 ==> painted(c, cells, missing, labels, bar, n).len() == 3 * n,
    decreases n,
{
    if n > 0 {
        lemma_painted_len(c, cells, missing, labels, bar, n - 1);
    }
}

// ---------------------------------------------------------------------------
// Showing a picture in a terminal

/// The character for six bits.
pub open spec fn base64_char(n: int) -> char {
    if n < 26 {
        ('A' as int + n) as char
    } else if n < 52 {
        ('a' as int + n - 26) as char
    } else if n < 62 {
        ('0' as int + n - 52) as char
    } else if n == 62 {
        '+'
    } else {
        '/'
    }
}

/// Bytes in base64.
pub open spec fn base64(bytes: Seq<u8>) -> Seq<char>
    decreases bytes.len(),
{
    if bytes.len() == 0 {
        Seq::empty()
    } else {
        let a = bytes[0] as int;
        let b = if bytes.len() > 1 {
            bytes[1] as int
        } else {
            0
        };
        let c = if bytes.len() > 2 {
            bytes[2] as int
        } else {
            0
        };
        let group = seq![
            base64_char(a / 4),
            base64_char(a % 4 * 16 + b / 16),
            if bytes.len() > 1 {
                base64_char(b % 16 * 4 + c / 64)
            } else {
                '='
            },
            if bytes.len() > 2 {
                base64_char(c % 64)
            } else {
                '='
            },
        ];
        if bytes.len() > 3 {
            group + base64(bytes.skip(3))
        } else {
            group
        }
    }
}

fn base64_digit(n: u8) -> (c: char)
    requires
        n < 64,
    ensures
        c == base64_char(n as int),
{
    if n < 26 {
        (65u8 + n) as char
    } else if n < 52 {
        (97u8 + (n - 26)) as char
    } else if n < 62 {
        (48u8 + (n - 52)) as char
    } else if n == 62 {
        '+'
    } else {
        '/'
    }
}

/// Bytes in base64, padded with `=`.
pub fn base64_encode(bytes: &[u8]) -> (r: String)
    ensures
        r@ == base64(bytes@),
{
    let mut r = String::new();
    let n: usize = bytes.len();
    let mut i: usize = 0;
    proof {
        assert(bytes@.skip(0) =~= bytes@);
        assert(r@ + base64(bytes@) =~= base64(bytes@));
    }
    while i < n
        invariant
            i <= n,
            n == bytes@.len(),
            r@ + base64(bytes@.skip(i as int)) == base64(bytes@),
        decreases n - i,
    {
        let ghost rest = bytes@.skip(i as int);
        let ghost had = r@;
        let left: usize = n - i;
        let a: u8 = bytes[i];
        let b: u8 = if left > 1 {
            bytes[i + 1]
        } else {
            0
        };
        let c: u8 = if left > 2 {
            bytes[i + 2]
        } else {
            0
        };
        r.push(base64_digit(a / 4));
        r.push(base64_digit(a % 4 * 16 + b / 16));
        if left > 1 {
            r.push(base64_digit(b % 16 * 4 + c / 64));
        } else {
            r.push('=');
        }
        if left > 2 {
            r.push(base64_digit(c % 64));
        } else {
            r.push('=');
        }
        proof {
            if left > 3 {
                assert(rest.skip(3) =~= bytes@.skip(i + 3));
                assert(r@ + base64(rest.skip(3)) =~= had + base64(rest));
            } else {
                assert(bytes@.skip(n as int) =~= Seq::empty());
                assert(r@ + base64(bytes@.skip(n as int)) =~= had + base64(rest));
            }
        }
        if left > 3 {
            i = i + 3;
        } else {
            i = n;
        }
    }
    proof {
        assert(bytes@.skip(i as int) =~= Seq::empty());
        assert(r@ + Seq::<char>::empty() =~= r@);
    }
    r
}

/// The arguments of a picture: shown in place, its shape kept, its size in bytes, the
/// cells that it is fitted in, and its name.
pub open spec fn picture_args(size: nat, name: Option<Seq<char>>, fit: Option<(usize, usize)>) -> Seq<char> {
    let base = "inline=1;preserveAspectRatio=1;size="@ + decimal(size);
    let sized = match fit {
        Some((cols, rows)) => base + ";width="@ + decimal(cols as nat) + ";height="@ + decimal(
            rows as nat,
        ),
        None => base,
    };
    match name {
        Some(n) => "name="@ + base64(vstd::utf8::encode_utf8(n)) + ";"@ + sized,
        None => sized,
    }
}

/// A text that may be missing.
pub open spec fn maybe(s: Option<&str>) -> Option<Seq<char>> {
    match s {
        Some(t) => Some(t@),
        None => None,
    }
}

fn file_args(len: usize, name: Option<&str>, fit: Option<(usize, usize)>) -> (r: String)
    ensures
        r@ == picture_args(len as nat, maybe(name), fit),
{
    let mut args = "inline=1;preserveAspectRatio=1;size=".to_owned().concat(
        decimal_string(len as u128).as_str(),
    );
    if let Some((cols, rows)) = fit {
        args = args.concat(";width=").concat(decimal_string(cols as u128).as_str()).concat(
            ";height=",
        ).concat(decimal_string(rows as u128).as_str());
    }
    match name {
        Some(n) => "name=".to_owned().concat(base64_encode(n.as_bytes()).as_str()).concat(
            ";",
        ).concat(args.as_str()),
        None => args,
    }
}

/// A picture as one escape sequence.
pub open spec fn picture_escape(png: Seq<u8>, name: Option<Seq<char>>, fit: Option<(usize, usize)>) -> Seq<
    char,
> {
    "\x1b]1337;File="@ + picture_args(png.len(), name, fit) + ":"@ + base64(png) + "\x07"@
}

/// A picture as one escape sequence.
pub fn iterm2_escape(png: &[u8], name: Option<&str>, fit: Option<(usize, usize)>) -> (r: String)
    ensures
        r@ == picture_escape(png@, maybe(name), fit),
{
    "\x1b]1337;File=".to_owned().concat(file_args(png.len(), name, fit).as_str()).concat(
        ":",
    ).concat(base64_encode(png).as_str()).concat("\x07")
}

/// A text with each escape character doubled.
pub open spec fn doubled(s: Seq<char>) -> Seq<char>
    decreases s.len(),
{
    if s.len() == 0 {
        s
    } else if s.last() == '\u{1b}' {
        doubled(s.drop_last()) + seq!['\u{1b}', '\u{1b}']
    } else {
        doubled(s.drop_last()).push(s.last())
    }
}

/// An escape sequence wrapped so that tmux hands it on.
pub open spec fn wrapped(s: Seq<char>) -> Seq<char> {
    "\x1bPtmux;"@ + doubled(s) + "\x1b\\"@
}

/// Inside tmux, wrap an escape sequence so that tmux hands it on to the terminal: each
/// escape character in it is doubled. Elsewhere it stays as it is.
pub fn passthrough(seq: &str, in_tmux: bool) -> (r: String)
    ensures
        r@ == if in_tmux {
            wrapped(seq@)
        } else {
            seq@
        },
{
    if !in_tmux {
        return seq.to_owned();
    }
    let v = crate::text::chars_of(seq);
    let mut inner = String::new();
    let mut i: usize = 0;
    proof {
        assert(v@.take(0) =~= Seq::empty());
    }
    while i < v.len()
        invariant
            i <= v.len(),
            inner@ == doubled(v@.take(i as int)),
        decreases v.len() - i,
    {
        let ghost had = inner@;
        proof {
            assert(v@.take(i + 1).drop_last() =~= v@.take(i as int));
            assert(v@.take(i + 1).last() == v@[i as int]);
        }
        inner.push(v[i]);
        if v[i] == '\u{1b}' {
            inner.push('\u{1b}');
            proof {
                assert(inner@ =~= had + seq!['\u{1b}', '\u{1b}']);
            }
        }
        i = i + 1;
    }
    proof {
        assert(v@.take(i as int) =~= v@);
    }
    "\x1bPtmux;".to_owned().concat(inner.as_str()).concat("\x1b\\")
}

/// How many characters one part of a picture holds, so that tmux takes it.
pub const CHUNK: usize = 2048;

/// The parts of a text, each but the last of [`CHUNK`] characters.
pub open spec fn chunks(s: Seq<char>) -> Seq<Seq<char>>
    decreases s.len(),
{
    if s.len() == 0 {
        Seq::empty()
    } else if s.len() <= CHUNK {
        seq![s]
    } else {
        seq![s.take(CHUNK as int)] + chunks(s.skip(CHUNK as int))
    }
}

/// The escape sequences for the parts of a picture, in a row.
pub open spec fn part_escapes(parts: Seq<Seq<char>>) -> Seq<char>
    decreases parts.len(),
{
    if parts.len() == 0 {
        Seq::empty()
    } else {
        wrapped("\x1b]1337;FilePart="@ + parts[0] + "\x07"@) + part_escapes(parts.skip(1))
    }
}

/// A picture as several escape sequences.
pub open spec fn picture_parts(png: Seq<u8>, name: Option<Seq<char>>, fit: Option<(usize, usize)>) -> Seq<
    char,
> {
    wrapped("\x1b]1337;MultipartFile="@ + picture_args(png.len(), name, fit) + "\x07"@)
        + part_escapes(chunks(base64(png))) + wrapped("\x1b]1337;FileEnd\x07"@)
}

/// A picture as several escape sequences, each wrapped for tmux, which takes no long
/// ones.
pub fn iterm2_multipart(png: &[u8], name: Option<&str>, fit: Option<(usize, usize)>) -> (r: String)
    ensures
        r@ == picture_parts(png@, maybe(name), fit),
{
    let b64 = base64_encode(png);
    let v = crate::text::chars_of(b64.as_str());
    let mut out = passthrough(
        "\x1b]1337;MultipartFile=".to_owned().concat(
            file_args(png.len(), name, fit).as_str(),
        ).concat("\x07").as_str(),
        true,
    );
    let ghost head = out@;
    let ghost all = part_escapes(chunks(v@));
    let mut i: usize = 0;
    proof {
        assert(v@.skip(0) =~= v@);
    }
    while i < v.len()
        invariant
            i <= v.len(),
            all == part_escapes(chunks(v@)),
            out@ + part_escapes(chunks(v@.skip(i as int))) == head + all,
        decreases v.len() - i,
    {
        let ghost rest = v@.skip(i as int);
        let ghost had = out@;
        let end: usize = if v.len() - i <= CHUNK {
            v.len()
        } else {
            i + CHUNK
        };
        let part = crate::text::substring(&v, i, end);
        let escape = passthrough(
            "\x1b]1337;FilePart=".to_owned().concat(part.as_str()).concat("\x07").as_str(),
            true,
        );
        out.append(escape.as_str());
        proof {
            let ps = chunks(rest);
            if rest.len() <= CHUNK {
                assert(part@ =~= rest);
                assert(v@.skip(end as int) =~= Seq::empty());
                assert(ps.skip(1) =~= chunks(v@.skip(end as int)));
            } else {
                assert(part@ =~= rest.take(CHUNK as int));
                assert(v@.skip(end as int) =~= rest.skip(CHUNK as int));
                assert(ps.skip(1) =~= chunks(v@.skip(end as int)));
            }
            assert(ps[0] == part@);
            assert(out@ + part_escapes(chunks(v@.skip(end as int))) =~= had + part_escapes(ps));
        }
        i = end;
    }
    proof {
        assert(v@.skip(i as int) =~= Seq::empty());
        assert(out@ + Seq::<char>::empty() =~= out@);
    }
    let done = passthrough("\x1b]1337;FileEnd\x07", true);
    out.append(done.as_str());
    out
}

/// A picture as a terminal is shown it: in one escape sequence, or inside tmux in
/// several.
pub fn iterm2_inline(png: &[u8], name: Option<&str>, fit: Option<(usize, usize)>, in_tmux: bool) -> (r:
    String)
    ensures
        r@ == if in_tmux {
            picture_parts(png@, maybe(name), fit)
        } else {
            picture_escape(png@, maybe(name), fit)
        },
{
    if in_tmux {
        iterm2_multipart(png, name, fit)
    } else {
        iterm2_escape(png, name, fit)
    }
}

/// Some texts in a row.
pub open spec fn in_a_row(parts: Seq<Seq<char>>) -> Seq<char>
    decreases parts.len(),
{
    if parts.len() == 0 {
        Seq::empty()
    } else {
        parts[0] + in_a_row(parts.skip(1))
    }
}

/// The parts of a picture are together all of it, and none is longer than a chunk.
pub proof fn law_parts_are_whole(s: Seq<char>)
    ensures
        in_a_row(chunks(s)) == s,
        forall|i: int| 0 <= i < chunks(s).len() ==> 0 < (#[trigger] chunks(s)[i]).len() <= CHUNK,
    decreases s.len(),
{
    let ps = chunks(s);
    if s.len() == 0 {
    } else if s.len() <= CHUNK {
        assert(ps.skip(1) =~= Seq::empty());
        assert(in_a_row(ps.skip(1)) =~= Seq::empty());
        assert(in_a_row(ps) =~= s);
    } else {
        let rest = s.skip(CHUNK as int);
        law_parts_are_whole(rest);
        assert(ps.skip(1) =~= chunks(rest));
        assert(in_a_row(ps) =~= s);
        assert forall|i: int| 0 <= i < ps.len() implies 0 < (#[trigger] ps[i]).len() <= CHUNK by {
            if i > 0 {
                assert(ps[i] == chunks(rest)[i - 1]);
            }
        }
    }
}

/// The colour bar of a heatmap on one line: the lower bound, one block for each colour,
/// the upper bound.
pub open spec fn blocks(ramp: Seq<Rgb>) -> Seq<char>
    decreases ramp.len(),
{
    if ramp.len() == 0 {
        Seq::empty()
    } else {
        let c = ramp.last();
        blocks(ramp.drop_last()) + "\x1b[38;2;"@ + decimal(c.r as nat) + ";"@ + decimal(
            c.g as nat,
        ) + ";"@ + decimal(c.b as nat) + "m\u{2588}"@
    }
}

/// The colour bar of a heatmap on one line, between its bounds.
pub fn ansi_legend(low: &str, high: &str, ramp: &Vec<Rgb>) -> (r: String)
    ensures
        r@ == low@ + "  "@ + blocks(ramp@) + "\x1b[0m  "@ + high@,
{
    let mut bar = String::new();
    let mut i: usize = 0;
    while i < ramp.len()
        invariant
            i <= ramp.len(),
            bar@ == blocks(ramp@.take(i as int)),
        decreases ramp.len() - i,
    {
        proof {
            assert(ramp@.take(i + 1).drop_last() =~= ramp@.take(i as int));
            assert(ramp@.take(i + 1).last() == ramp@[i as int]);
        }
        let c = ramp[i];
        bar = bar.concat("\x1b[38;2;").concat(decimal_string(c.r as u128).as_str()).concat(
            ";",
        ).concat(decimal_string(c.g as u128).as_str()).concat(";").concat(
            decimal_string(c.b as u128).as_str(),
        ).concat("m\u{2588}");
        i = i + 1;
    }
    proof {
        assert(ramp@.take(i as int) =~= ramp@);
    }
    low.to_owned().concat("  ").concat(bar.as_str()).concat("\x1b[0m  ").concat(high)
}

// ---------------------------------------------------------------------------
// What can be read back of it

/// The number that a character of base64 stands for.
pub open spec fn sextet(c: char) -> int {
    if 'A' <= c && c <= 'Z' {
        c as int - 'A' as int
    } else if 'a' <= c && c <= 'z' {
        c as int - 'a' as int + 26
    } else if '0' <= c && c <= '9' {
        c as int - '0' as int + 52
    } else if c == '+' {
        62
    } else {
        63
    }
}

/// The bytes that groups of four characters of base64 hold.
pub open spec fn unpacked(s: Seq<char>) -> Seq<u8>
    decreases s.len(),
{
    if s.len() < 4 {
        Seq::empty()
    } else {
        let first = (sextet(s[0]) * 4 + sextet(s[1]) / 16) as u8;
        let second = (sextet(s[1]) % 16 * 16 + sextet(s[2]) / 4) as u8;
        let third = (sextet(s[2]) % 4 * 64 + sextet(s[3])) as u8;
        (if s[2] == '=' {
            seq![first]
        } else if s[3] == '=' {
            seq![first, second]
        } else {
            seq![first, second, third]
        }) + unpacked(s.skip(4))
    }
}

proof fn lemma_sextet(n: int)
    requires
        0 <= n < 64,
    ensures
        sextet(base64_char(n)) == n,
        base64_char(n) != '=',
{
}

/// What is packed in base64 unpacks to the bytes, and is as long as it has to be.
pub proof fn law_base64_unpacks(bytes: Seq<u8>)
    ensures
        unpacked(base64(bytes)) == bytes,
        base64(bytes).len() == (bytes.len() + 2) / 3 * 4,
    decreases bytes.len(),
{
    if bytes.len() == 0 {
        assert(unpacked(base64(bytes)) =~= bytes);
    } else {
        let a = bytes[0] as int;
        let b = if bytes.len() > 1 {
            bytes[1] as int
        } else {
            0
        };
        let c = if bytes.len() > 2 {
            bytes[2] as int
        } else {
            0
        };
        lemma_sextet(a / 4);
        lemma_sextet(a % 4 * 16 + b / 16);
        lemma_sextet(b % 16 * 4 + c / 64);
        lemma_sextet(c % 64);
        let s = base64(bytes);
        assert(a / 4 * 4 + (a % 4 * 16 + b / 16) / 16 == a);
        assert((a % 4 * 16 + b / 16) % 16 * 16 + (b % 16 * 4 + c / 64) / 4 == b);
        assert((b % 16 * 4 + c / 64) % 4 * 64 + c % 64 == c);
        if bytes.len() > 3 {
            let rest = bytes.skip(3);
            law_base64_unpacks(rest);
            assert(s.skip(4) =~= base64(rest));
            assert(unpacked(s) =~= bytes);
            assert((bytes.len() + 2) / 3 == (rest.len() + 2) / 3 + 1);
        } else {
            assert(s.skip(4) =~= Seq::empty());
            assert(unpacked(s.skip(4)) =~= Seq::empty());
            assert(unpacked(s) =~= bytes);
        }
    }
}

/// Each cell is a square of its colour, as many pixels wide and high as the scale; the cells
/// stand side by side below the legend, in the middle, with nothing cut off.
pub proof fn law_cells_are_squares_of_their_colour(
    cells: Seq<Seq<Rgb>>,
    missing: Rgb,
    target: int,
    labels: Option<(Seq<char>, Seq<char>)>,
    bar: Seq<Rgb>,
    row: int,
    col: int,
    dx: int,
    dy: int,
)
    requires
        0 <= target,
        0 <= row < cells.len(),
        0 <= col < grid_cols(cells),
        ({
            let c = canvas_of(cells.len() as int, grid_cols(cells), target, labels);
            0 <= dx < c.scale && 0 <= dy < c.scale
        }),
    ensures
        ({
            let c = canvas_of(cells.len() as int, grid_cols(cells), target, labels);
            let x = c.left + col * c.scale + dx;
            let y = c.band + row * c.scale + dy;
            &&& 0 <= x < c.width
            &&& 0 <= y < c.height
            &&& pixel(c, cells, missing, labels, bar, x, y) == if col < cells[row].len() {
                cells[row][col]
            } else {
                missing
            }
        }),
{
    let (rows, cols) = (cells.len() as int, grid_cols(cells));
    let c = canvas_of(rows, cols, target, labels);
    let s = c.scale;
    assert(s >= 1);
    assert(0 <= col * s && col * s + dx < cols * s) by (nonlinear_arith)
        requires
            0 <= col < cols,
            0 <= dx < s,
    ;
    assert(0 <= row * s && row * s + dy < rows * s) by (nonlinear_arith)
        requires
            0 <= row < rows,
            0 <= dy < s,
    ;
    vstd::arithmetic::div_mod::lemma_fundamental_div_mod_converse(col * s + dx, s, col, dx);
    vstd::arithmetic::div_mod::lemma_fundamental_div_mod_converse(row * s + dy, s, row, dy);
    assert(c.width >= c.cells_wide);
    assert(c.band >= 0);
    assert(c.left + c.cells_wide <= c.width);
}

/// A picture has three bytes to a pixel, row by row from the top left: red, green and blue.
pub proof fn law_pixels_are_in_rows(
    c: CanvasModel,
    cells: Seq<Seq<Rgb>>,
    missing: Rgb,
    labels: Option<(Seq<char>, Seq<char>)>,
    bar: Seq<Rgb>,
    x: int,
    y: int,
    n: int,
)
    requires
        0 <= x < c.width,
        0 <= y,
        y * c.width + x < n,
    ensures
        painted(c, cells, missing, labels, bar, n).len() == 3 * n,
        ({
            let p = pixel(c, cells, missing, labels, bar, x, y);
            let at = 3 * (y * c.width + x);
            let bytes = painted(c, cells, missing, labels, bar, n);
            bytes[at] == p.r && bytes[at + 1] == p.g && bytes[at + 2] == p.b
        }),
    decreases n,
{
    let w = c.width;
    assert(y * w >= 0) by (nonlinear_arith)
        requires
            y >= 0,
            w > 0,
    ;
    lemma_painted_len(c, cells, missing, labels, bar, n - 1);
    if y * w + x < n - 1 {
        law_pixels_are_in_rows(c, cells, missing, labels, bar, x, y, n - 1);
    } else {
        assert(y * w + x == w * y + x) by (nonlinear_arith);
        vstd::arithmetic::div_mod::lemma_fundamental_div_mod_converse(n - 1, w, y, x);
    }
}

/// A cell is at least one pixel wide and at most 64, and the picture no wider or higher than
/// asked for where a cell is more than one.
pub proof fn law_cells_fit_the_target(rows: int, cols: int, target: int)
    requires
        0 <= rows,
        0 <= cols,
        0 <= target,
    ensures
        1 <= cell_side(rows, cols, target) <= 64,
        cell_side(rows, cols, target) > 1 ==> rows * cell_side(rows, cols, target) <= target && cols
            * cell_side(rows, cols, target) <= target,
{
    let m = larger(larger(rows, cols), 1);
    let q = target / m;
    let s = cell_side(rows, cols, target);
    vstd::arithmetic::div_mod::lemma_fundamental_div_mod(target, m);
    if s > 1 {
        assert(s <= q);
        assert(rows * s <= target && cols * s <= target) by (nonlinear_arith)
            requires
                target == m * q + target % m,
                0 <= target % m,
                0 <= rows <= m,
                0 <= cols <= m,
                0 < s <= q,
        ;
    }
}

/// Each escape character is doubled, and nothing else is changed.
pub proof fn law_escapes_are_doubled(s: Seq<char>, c: char)
    ensures
        doubled(Seq::empty()) == Seq::<char>::empty(),
        c != '\u{1b}' ==> doubled(s.push(c)) == doubled(s).push(c),
        c == '\u{1b}' ==> doubled(s.push(c)) == doubled(s).push(c).push(c),
{
    assert(s.push(c).drop_last() =~= s);
    assert(doubled(s) + seq!['\u{1b}', '\u{1b}'] =~= doubled(s).push('\u{1b}').push('\u{1b}'));
}

/// A picture that is sent gives its size in bytes, its name in base64 where it has one, the
/// cells it is to fill, columns before rows, and its bytes in base64.
pub proof fn law_pictures_are_sent_whole(png: Seq<u8>, name: Seq<char>, cols: usize, rows: usize)
    ensures
        picture_escape(png, None, None) == "\x1b]1337;File="@ + ("inline=1;preserveAspectRatio=1;size="@
            + decimal(png.len())) + ":"@ + base64(png) + "\x07"@,
        picture_args(png.len(), None, Some((cols, rows))) == picture_args(png.len(), None, None)
            + ";width="@ + decimal(cols as nat) + ";height="@ + decimal(rows as nat),
        picture_args(png.len(), Some(name), None) == "name="@ + base64(
            vstd::utf8::encode_utf8(name),
        ) + ";"@ + picture_args(png.len(), None, None),
        picture_args(png.len(), Some(name), Some((cols, rows))) == "name="@ + base64(
            vstd::utf8::encode_utf8(name),
        ) + ";"@ + picture_args(png.len(), None, Some((cols, rows))),
{
}

/// A picture in parts begins with what it is, gives its base64 part by part, in order, and
/// ends; each piece is wrapped by itself.
pub proof fn law_parts_are_sent_in_order(png: Seq<u8>, parts: Seq<Seq<char>>, part: Seq<char>)
    ensures
        picture_parts(png, None, None) == wrapped(
            "\x1b]1337;MultipartFile="@ + picture_args(png.len(), None, None) + "\x07"@,
        ) + part_escapes(chunks(base64(png))) + wrapped("\x1b]1337;FileEnd\x07"@),
        part_escapes(Seq::empty()) == Seq::<char>::empty(),
        part_escapes(seq![part] + parts) == wrapped("\x1b]1337;FilePart="@ + part + "\x07"@)
            + part_escapes(parts),
        wrapped(part) == "\x1bPtmux;"@ + doubled(part) + "\x1b\\"@,
{
    assert((seq![part] + parts).skip(1) =~= parts);
}

} // verus!
