//! Mapping of pixels to palette entries, with optional error diffusion.

use vstd::prelude::*;
use crate::pixel::{RasterView, Rgb};
use crate::quant::Palette;
use crate::status;
use crate::SixelError;

verus! {

/// Selects the error-diffusion kernel.
#[derive(Debug, Clone, Copy, PartialEq, Eq, Structural)]
pub enum DiffusionMethod {
    /// Choose by the size of the palette.
    Auto,
    /// Do not diffuse: every pixel takes the nearest palette entry.
    Off,
    /// Bill Atkinson's kernel.
    Atkinson,
    /// The Floyd-Steinberg kernel.
    FS,
    /// The kernel of Jarvis, Judice and Ninke.
    JaJuNi,
    /// Stucki's kernel.
    Stucki,
    /// Burkes' kernel.
    Burkes,
}

/// A raster of palette indices, one for each pixel, in raster order.
#[derive(Debug)]
pub struct IndexRaster {
    width: usize,
    height: usize,
    indices: Vec<u8>,
}

impl View for IndexRaster {
    type V = Seq<u8>;

    closed spec fn view(&self) -> Seq<u8> {
        self.indices@
    }
}

/// The place of the cell in column `x` of row `y` lies within the raster.
pub proof fn lemma_cell_in_raster(x: int, y: int, w: int, h: int)
    requires
        0 <= x < w,
        0 <= y < h,
    ensures
        0 <= y * w + x < w * h,
        y * w + w <= w * h,
        y * w >= 0,
{
    assert(0 <= y * w && y * w + w <= w * h) by (nonlinear_arith)
        requires
            0 <= y < h,
            0 < w,
    ;
}

impl IndexRaster {
    pub closed spec fn spec_width(&self) -> nat {
        self.width as nat
    }

    pub closed spec fn spec_height(&self) -> nat {
        self.height as nat
    }

    /// Both sides are positive, and there is one index for each pixel.
    pub open spec fn wf(&self) -> bool {
        &&& self.spec_width() > 0
        &&& self.spec_height() > 0
        &&& self@.len() == self.spec_width() * self.spec_height()
    }

    /// Takes the indices of a raster of the given geometry. Fails with
    /// [`status::BAD_INPUT`] unless both sides are positive and there is
    /// exactly one index for each pixel.
    pub fn new(width: usize, height: usize, indices: Vec<u8>) -> (r: Result<
        IndexRaster,
        SixelError,
    >)
        ensures
            r is Ok <==> width > 0 && height > 0 && indices@.len() == width * height,
            r matches Ok(ix) ==> ix.wf() && ix@ == indices@ && ix.spec_width() == width
                && ix.spec_height() == height,
            r matches Err(e) ==> e == SixelError::Sixel(status::BAD_INPUT),
    {
        if width == 0 || height == 0 {
            return Err(SixelError::Sixel(status::BAD_INPUT));
        }
        let n = indices.len();
        // width * height == n  exactly when  height divides n, with quotient width
        if n % height != 0 || n / height != width {
            proof {
                if indices@.len() == width * height {
                    assert((width * height) % (height as int) == 0 && (width * height) / (
                    height as int) == width) by (nonlinear_arith)
                        requires
                            height > 0,
                            width >= 0,
                    ;
                }
            }
            return Err(SixelError::Sixel(status::BAD_INPUT));
        }
        assert(n == width * height) by (nonlinear_arith)
            requires
                height > 0,
                n % height == 0,
                n / height == width,
        ;
        Ok(IndexRaster { width, height, indices })
    }

    pub fn width(&self) -> (w: usize)
        ensures
            w == self.spec_width(),
    {
        self.width
    }

    pub fn height(&self) -> (h: usize)
        ensures
            h == self.spec_height(),
    {
        self.height
    }

    /// The number of pixels.
    pub fn len(&self) -> (n: usize)
        ensures
            n == self@.len(),
    {
        self.indices.len()
    }

    /// The index of pixel `k`, counted in raster order.
    pub fn get(&self, k: usize) -> (c: u8)
        requires
            k < self@.len(),
        ensures
            c == self@[k as int],
    {
        self.indices[k]
    }

    /// The index of the pixel in column `x` of row `y`.
    pub fn at(&self, x: usize, y: usize) -> (c: u8)
        requires
            self.wf(),
            x < self.spec_width(),
            y < self.spec_height(),
        ensures
            c == self@[y * self.spec_width() + x],
    {
        let n = self.indices.len();
        proof {
            lemma_cell_in_raster(x as int, y as int, self.width as int, self.height as int);
            assert(y * self.width + x < n);
        }
        self.indices[y * self.width + x]
    }
}

/// One cell of a diffusion kernel: the neighbour at `(dx, dy)` from the
/// current pixel takes `num / den` of the error.
#[derive(Debug, Clone, Copy, PartialEq, Eq, Structural)]
pub struct Tap {
    pub dx: i32,
    pub dy: i32,
    pub num: i32,
    pub den: i32,
}

/// A tap reaches two columns to either side and two rows down at most,
/// and takes a part of the error, not more than all of it.
pub open spec fn tap_ok(t: Tap) -> bool {
    &&& -2 <= t.dx <= 2
    &&& 0 <= t.dy <= 2
    &&& 1 <= t.num <= t.den <= 48
}

pub open spec fn tap(dx: int, dy: int, num: int, den: int) -> Tap {
    Tap { dx: dx as i32, dy: dy as i32, num: num as i32, den: den as i32 }
}

/// The method that stands for `Auto`: Floyd-Steinberg for a palette of
/// more than 16 colours, Atkinson for a smaller one.
pub open spec fn resolved_method(method: DiffusionMethod, ncolors: nat) -> DiffusionMethod {
    match method {
        DiffusionMethod::Auto => if ncolors > 16 {
            DiffusionMethod::FS
        } else {
            DiffusionMethod::Atkinson
        },
        _ => method,
    }
}

/// The taps of a method, in the order in which they are served.
pub open spec fn kernel(method: DiffusionMethod) -> Seq<Tap> {
    match method {
        DiffusionMethod::Auto | DiffusionMethod::Off => Seq::empty(),
        DiffusionMethod::FS => seq![
            tap(1, 0, 7, 16),
            tap(-1, 1, 3, 16),
            tap(0, 1, 5, 16),
            tap(1, 1, 1, 16),
        ],
        DiffusionMethod::Atkinson => seq![
            tap(1, 0, 1, 8),
            tap(2, 0, 1, 8),
            tap(-1, 1, 1, 8),
            tap(0, 1, 1, 8),
            tap(1, 1, 1, 8),
            tap(0, 2, 1, 8),
        ],
        DiffusionMethod::JaJuNi => seq![
            tap(1, 0, 7, 48),
            tap(2, 0, 5, 48),
            tap(-2, 1, 3, 48),
            tap(-1, 1, 5, 48),
            tap(0, 1, 7, 48),
            tap(1, 1, 5, 48),
            tap(2, 1, 3, 48),
            tap(-2, 2, 1, 48),
            tap(-1, 2, 3, 48),
            tap(0, 2, 5, 48),
            tap(1, 2, 3, 48),
            tap(2, 2, 1, 48),
        ],
        DiffusionMethod::Stucki => seq![
            tap(1, 0, 1, 6),
            tap(2, 0, 1, 12),
            tap(-2, 1, 1, 24),
            tap(-1, 1, 1, 12),
            tap(0, 1, 1, 6),
            tap(1, 1, 1, 12),
            tap(2, 1, 1, 24),
            tap(-2, 2, 1, 48),
            tap(-1, 2, 1, 24),
            tap(0, 2, 1, 12),
            tap(1, 2, 1, 24),
            tap(2, 2, 1, 48),
        ],
        DiffusionMethod::Burkes => seq![
            tap(1, 0, 1, 4),
            tap(2, 0, 1, 8),
            tap(-2, 1, 1, 16),
            tap(-1, 1, 1, 8),
            tap(0, 1, 1, 4),
            tap(1, 1, 1, 8),
            tap(2, 1, 1, 16),
        ],
    }
}

/// The squared distance of two colours.
pub open spec fn distance(a: Rgb, b: Rgb) -> int {
    (a.r - b.r) * (a.r - b.r) + (a.g - b.g) * (a.g - b.g) + (a.b - b.b) * (a.b - b.b)
}

/// Among the first `n` entries, the one nearest to `c`; of several, the first.
pub open spec fn nearest(palette: Seq<Rgb>, c: Rgb, n: nat) -> int
    decreases n,
{
    if n <= 1 {
        0
    } else {
        let p = nearest(palette, c, (n - 1) as nat);
        if distance(palette[n - 1], c) < distance(palette[p], c) {
            n - 1
        } else {
            p
        }
    }
}

/// The quotient rounded towards zero.
pub open spec fn trunc_div(a: int, d: int) -> int {
    if a >= 0 {
        a / d
    } else {
        -((-a) / d)
    }
}

/// The part of an error that a tap hands on.
pub open spec fn share(err: int, t: Tap) -> int {
    trunc_div(err * t.num, t.den as int)
}

pub open spec fn clamp_channel(v: int) -> u8 {
    if v < 0 {
        0
    } else if v > 255 {
        255
    } else {
        v as u8
    }
}

/// A colour after it has taken its share of an error, each channel kept
/// within 0..=255.
pub open spec fn add_error(c: Rgb, er: int, eg: int, eb: int, t: Tap) -> Rgb {
    Rgb {
        r: clamp_channel(c.r + share(er, t)),
        g: clamp_channel(c.g + share(eg, t)),
        b: clamp_channel(c.b + share(eb, t)),
    }
}

/// The work buffer after the first `k` taps have handed the error of the
/// pixel at `(x, y)` on. A neighbour outside the raster takes nothing.
pub open spec fn spread_error(
    work: Seq<Rgb>,
    w: nat,
    h: nat,
    x: int,
    y: int,
    er: int,
    eg: int,
    eb: int,
    taps: Seq<Tap>,
    k: nat,
) -> Seq<Rgb>
    decreases k,
{
    if k == 0 {
        work
    } else {
        let prev = spread_error(work, w, h, x, y, er, eg, eb, taps, (k - 1) as nat);
        let t = taps[k - 1];
        let nx = x + t.dx;
        let ny = y + t.dy;
        if 0 <= nx < w && 0 <= ny < h {
            prev.update(ny * w + nx, add_error(prev[ny * w + nx], er, eg, eb, t))
        } else {
            prev
        }
    }
}

/// The work buffer after the first `k` pixels, in raster order, have been
/// mapped and have handed their errors on.
pub open spec fn work_after(
    pixels: Seq<Rgb>,
    palette: Seq<Rgb>,
    taps: Seq<Tap>,
    w: nat,
    h: nat,
    k: nat,
) -> Seq<Rgb>
    decreases k,
{
    if k == 0 {
        pixels
    } else {
        let prev = work_after(pixels, palette, taps, w, h, (k - 1) as nat);
        let i = k - 1;
        let c = prev[i];
        let p = palette[nearest(palette, c, palette.len())];
        spread_error(
            prev,
            w,
            h,
            i % (w as int),
            i / (w as int),
            c.r - p.r,
            c.g - p.g,
            c.b - p.b,
            taps,
            taps.len(),
        )
    }
}

/// The palette entry that pixel `i` is mapped to.
pub open spec fn dithered_index(
    pixels: Seq<Rgb>,
    palette: Seq<Rgb>,
    taps: Seq<Tap>,
    w: nat,
    h: nat,
    i: int,
) -> int {
    nearest(palette, work_after(pixels, palette, taps, w, h, i as nat)[i], palette.len())
}

/// The index raster of the pixels under a palette and a kernel.
pub open spec fn dithered(pixels: Seq<Rgb>, palette: Seq<Rgb>, taps: Seq<Tap>, w: nat, h: nat) -> Seq<
    u8,
> {
    Seq::new(pixels.len(), |i: int| dithered_index(pixels, palette, taps, w, h, i) as u8)
}

/// The nearest entry is an entry, none is nearer, and none before it is as near.
pub proof fn lemma_nearest(palette: Seq<Rgb>, c: Rgb, n: nat)
    requires
        1 <= n <= palette.len(),
    ensures
        0 <= nearest(palette, c, n) < n,
        forall|j: int|
            0 <= j < n ==> distance(palette[nearest(palette, c, n)], c) <= distance(
                #[trigger] palette[j],
                c,
            ),
        forall|j: int|
            0 <= j < nearest(palette, c, n) ==> distance(palette[nearest(palette, c, n)], c)
                < distance(#[trigger] palette[j], c),
    decreases n,
{
    if n > 1 {
        lemma_nearest(palette, c, (n - 1) as nat);
    }
}

/// Pixel `i` stands in column `i % w` of row `i / w`.
pub proof fn lemma_position(i: int, w: int, h: int)
    requires
        0 <= i < w * h,
        w > 0,
    ensures
        0 <= i % w < w,
        0 <= i / w < h,
        (i / w) * w + i % w == i,
{
    vstd::arithmetic::div_mod::lemma_fundamental_div_mod(i, w);
    vstd::arithmetic::div_mod::lemma_mod_pos_bound(i, w);
    assert(0 <= i / w < h) by (nonlinear_arith)
        requires
            0 <= i < w * h,
            w > 0,
            i == w * (i / w) + i % w,
            0 <= i % w < w,
    ;
    assert((i / w) * w == w * (i / w)) by (nonlinear_arith);
}

fn kernel_of(method: DiffusionMethod) -> (taps: Vec<Tap>)
    ensures
        taps@ == kernel(method),
        forall|j: int| 0 <= j < taps@.len() ==> tap_ok(#[trigger] taps@[j]),
{
    let mut taps: Vec<Tap> = Vec::new();
    match method {
        DiffusionMethod::Auto | DiffusionMethod::Off => {},
        DiffusionMethod::FS => {
            taps.push(Tap { dx: 1, dy: 0, num: 7, den: 16 });
            taps.push(Tap { dx: -1, dy: 1, num: 3, den: 16 });
            taps.push(Tap { dx: 0, dy: 1, num: 5, den: 16 });
            taps.push(Tap { dx: 1, dy: 1, num: 1, den: 16 });
        },
        DiffusionMethod::Atkinson => {
            taps.push(Tap { dx: 1, dy: 0, num: 1, den: 8 });
            taps.push(Tap { dx: 2, dy: 0, num: 1, den: 8 });
            taps.push(Tap { dx: -1, dy: 1, num: 1, den: 8 });
            taps.push(Tap { dx: 0, dy: 1, num: 1, den: 8 });
            taps.push(Tap { dx: 1, dy: 1, num: 1, den: 8 });
            taps.push(Tap { dx: 0, dy: 2, num: 1, den: 8 });
        },
        DiffusionMethod::JaJuNi => {
            taps.push(Tap { dx: 1, dy: 0, num: 7, den: 48 });
            taps.push(Tap { dx: 2, dy: 0, num: 5, den: 48 });
            taps.push(Tap { dx: -2, dy: 1, num: 3, den: 48 });
            taps.push(Tap { dx: -1, dy: 1, num: 5, den: 48 });
            taps.push(Tap { dx: 0, dy: 1, num: 7, den: 48 });
            taps.push(Tap { dx: 1, dy: 1, num: 5, den: 48 });
            taps.push(Tap { dx: 2, dy: 1, num: 3, den: 48 });
            taps.push(Tap { dx: -2, dy: 2, num: 1, den: 48 });
            taps.push(Tap { dx: -1, dy: 2, num: 3, den: 48 });
            taps.push(Tap { dx: 0, dy: 2, num: 5, den: 48 });
            taps.push(Tap { dx: 1, dy: 2, num: 3, den: 48 });
            taps.push(Tap { dx: 2, dy: 2, num: 1, den: 48 });
        },
        DiffusionMethod::Stucki => {
            taps.push(Tap { dx: 1, dy: 0, num: 1, den: 6 });
            taps.push(Tap { dx: 2, dy: 0, num: 1, den: 12 });
            taps.push(Tap { dx: -2, dy: 1, num: 1, den: 24 });
            taps.push(Tap { dx: -1, dy: 1, num: 1, den: 12 });
            taps.push(Tap { dx: 0, dy: 1, num: 1, den: 6 });
            taps.push(Tap { dx: 1, dy: 1, num: 1, den: 12 });
            taps.push(Tap { dx: 2, dy: 1, num: 1, den: 24 });
            taps.push(Tap { dx: -2, dy: 2, num: 1, den: 48 });
            taps.push(Tap { dx: -1, dy: 2, num: 1, den: 24 });
            taps.push(Tap { dx: 0, dy: 2, num: 1, den: 12 });
            taps.push(Tap { dx: 1, dy: 2, num: 1, den: 24 });
            taps.push(Tap { dx: 2, dy: 2, num: 1, den: 48 });
        },
        DiffusionMethod::Burkes => {
            taps.push(Tap { dx: 1, dy: 0, num: 1, den: 4 });
            taps.push(Tap { dx: 2, dy: 0, num: 1, den: 8 });
            taps.push(Tap { dx: -2, dy: 1, num: 1, den: 16 });
            taps.push(Tap { dx: -1, dy: 1, num: 1, den: 8 });
            taps.push(Tap { dx: 0, dy: 1, num: 1, den: 4 });
            taps.push(Tap { dx: 1, dy: 1, num: 1, den: 8 });
            taps.push(Tap { dx: 2, dy: 1, num: 1, den: 16 });
        },
    }
    assert(taps@ =~= kernel(method));
    taps
}

fn resolve(method: DiffusionMethod, ncolors: usize) -> (m: DiffusionMethod)
    ensures
        m == resolved_method(method, ncolors as nat),
{
    match method {
        DiffusionMethod::Auto => if ncolors > 16 {
            DiffusionMethod::FS
        } else {
            DiffusionMethod::Atkinson
        },
        _ => method,
    }
}

fn square_diff(a: u8, b: u8) -> (d: u32)
    ensures
        d == (a - b) * (a - b),
        d <= 255 * 255,
{
    let m: u32 = if a >= b {
        (a - b) as u32
    } else {
        (b - a) as u32
    };
    assert(m * m <= 255 * 255 && m * m == (a - b) * (a - b)) by (nonlinear_arith)
        requires
            m <= 255,
            m == a - b || m == b - a,
    ;
    m * m
}

fn distance_of(a: Rgb, b: Rgb) -> (d: u32)
    ensures
        d == distance(a, b),
{
    square_diff(a.r, b.r) + square_diff(a.g, b.g) + square_diff(a.b, b.b)
}

/// The entry of the palette that is nearest to `c`.
pub fn nearest_index(palette: &Palette, c: Rgb) -> (p: usize)
    requires
        palette@.len() >= 1,
    ensures
        p == nearest(palette@, c, palette@.len()),
        p < palette@.len(),
{
    let n = palette.len();
    let mut best: usize = 0;
    let mut best_distance: u32 = distance_of(palette.color(0), c);
    let mut i: usize = 1;
    while i < n
        invariant
            n == palette@.len(),
            1 <= i <= n,
            best < i,
            best == nearest(palette@, c, i as nat),
            best_distance == distance(palette@[best as int], c),
        decreases n - i,
    {
        let d = distance_of(palette.color(i), c);
        if d < best_distance {
            best = i;
            best_distance = d;
        }
        i += 1;
    }
    best
}

fn share_of(err: i32, t: Tap) -> (s: i32)
    requires
        -255 <= err <= 255,
        tap_ok(t),
    ensures
        s == share(err as int, t),
        -255 <= s <= 255,
{
    if err >= 0 {
        assert(0 <= err * t.num <= 255 * 48) by (nonlinear_arith)
            requires
                0 <= err <= 255,
                1 <= t.num <= 48,
        ;
        let product: u32 = (err * t.num) as u32;
        let q = product / (t.den as u32);
        proof {
            assert(product <= 255 * t.den) by (nonlinear_arith)
                requires
                    product == err * t.num,
                    0 <= err <= 255,
                    1 <= t.num <= t.den,
            ;
            vstd::arithmetic::div_mod::lemma_div_is_ordered(
                product as int,
                255 * (t.den as int),
                t.den as int,
            );
            vstd::arithmetic::div_mod::lemma_div_by_multiple(255, t.den as int);
            vstd::arithmetic::div_mod::lemma_div_pos_is_pos(product as int, t.den as int);
        }
        q as i32
    } else {
        assert(0 <= (-err) * t.num <= 255 * 48 && (-err) * t.num == -(err * t.num))
            by (nonlinear_arith)
            requires
                -255 <= err < 0,
                1 <= t.num <= 48,
        ;
        let product: u32 = ((-err) * t.num) as u32;
        let q = product / (t.den as u32);
        proof {
            assert(product <= 255 * t.den) by (nonlinear_arith)
                requires
                    product == (-err) * t.num,
                    0 < -err <= 255,
                    1 <= t.num <= t.den,
            ;
            vstd::arithmetic::div_mod::lemma_div_is_ordered(
                product as int,
                255 * (t.den as int),
                t.den as int,
            );
            vstd::arithmetic::div_mod::lemma_div_by_multiple(255, t.den as int);
            vstd::arithmetic::div_mod::lemma_div_pos_is_pos(product as int, t.den as int);
        }
        -(q as i32)
    }
}

fn clamp(v: i32) -> (c: u8)
    ensures
        c == clamp_channel(v as int),
{
    if v < 0 {
        0
    } else if v > 255 {
        255
    } else {
        v as u8
    }
}

fn add_error_of(c: Rgb, er: i32, eg: i32, eb: i32, t: Tap) -> (r: Rgb)
    requires
        -255 <= er <= 255,
        -255 <= eg <= 255,
        -255 <= eb <= 255,
        tap_ok(t),
    ensures
        r == add_error(c, er as int, eg as int, eb as int, t),
{
    Rgb {
        r: clamp(c.r as i32 + share_of(er, t)),
        g: clamp(c.g as i32 + share_of(eg, t)),
        b: clamp(c.b as i32 + share_of(eb, t)),
    }
}

fn spread_error_into(
    work: &mut Vec<Rgb>,
    w: usize,
    h: usize,
    x: usize,
    y: usize,
    er: i32,
    eg: i32,
    eb: i32,
    taps: &Vec<Tap>,
)
    requires
        old(work)@.len() == w * h,
        x < w,
        y < h,
        -255 <= er <= 255,
        -255 <= eg <= 255,
        -255 <= eb <= 255,
        forall|j: int| 0 <= j < taps@.len() ==> tap_ok(#[trigger] taps@[j]),
    ensures
        final(work)@ == spread_error(
            old(work)@,
            w as nat,
            h as nat,
            x as int,
            y as int,
            er as int,
            eg as int,
            eb as int,
            taps@,
            taps@.len(),
        ),
        final(work)@.len() == old(work)@.len(),
{
    let ghost start = work@;
    let mut k: usize = 0;
    while k < taps.len()
        invariant
            k <= taps@.len(),
            work@.len() == w * h,
            x < w,
            y < h,
            -255 <= er <= 255,
            -255 <= eg <= 255,
            -255 <= eb <= 255,
            forall|j: int| 0 <= j < taps@.len() ==> tap_ok(#[trigger] taps@[j]),
            work@ == spread_error(
                start,
                w as nat,
                h as nat,
                x as int,
                y as int,
                er as int,
                eg as int,
                eb as int,
                taps@,
                k as nat,
            ),
        decreases taps@.len() - k,
    {
        let t = taps[k];
        assert(tap_ok(t));
        let inside_x = if t.dx < 0 {
            x >= (-t.dx) as usize
        } else {
            (t.dx as usize) < w - x
        };
        let inside_y = (t.dy as usize) < h - y;
        if inside_x && inside_y {
            let nx: usize = if t.dx < 0 {
                x - ((-t.dx) as usize)
            } else {
                x + (t.dx as usize)
            };
            let ny: usize = y + (t.dy as usize);
            let total = work.len();
            proof {
                lemma_cell_in_raster(nx as int, ny as int, w as int, h as int);
                assert(ny * w + nx < total);
            }
            let place = ny * w + nx;
            let c = work[place];
            work.set(place, add_error_of(c, er, eg, eb, t));
        }
        k += 1;
    }
}

/// Maps every pixel of a raster to a palette entry: to the nearest one,
/// after the pixel has taken the errors that earlier pixels handed on
/// under the method's kernel. Fails with [`status::BAD_ARGUMENT`] when the
/// palette is empty.
pub fn apply_palette(view: &RasterView, palette: &Palette, method: DiffusionMethod) -> (r: Result<
    IndexRaster,
    SixelError,
>)
    requires
        view.wf(),
        palette.wf(),
    ensures
        r is Ok <==> palette@.len() >= 1,
        r matches Ok(ix) ==> ix.wf() && ix.spec_width() == view.spec_width() && ix.spec_height()
            == view.spec_height() && ix@ == dithered(
            view.pixels(),
            palette@,
            kernel(resolved_method(method, palette@.len())),
            view.spec_width(),
            view.spec_height(),
        ) && forall|k: int| 0 <= k < ix@.len() ==> (#[trigger] ix@[k] as nat) < palette@.len(),
        r matches Err(e) ==> e == SixelError::Sixel(status::BAD_ARGUMENT),
{
    if palette.len() < 1 {
        return Err(SixelError::Sixel(status::BAD_ARGUMENT));
    }
    let w = view.width();
    let h = view.height();
    let n = view.len();
    let taps = kernel_of(resolve(method, palette.len()));
    let mut work = view.colors();
    let mut indices: Vec<u8> = Vec::new();
    let ghost pixels = view.pixels();
    let mut i: usize = 0;
    while i < n
        invariant
            view.wf(),
            palette.wf(),
            palette@.len() >= 1,
            w == view.spec_width(),
            h == view.spec_height(),
            n == w * h,
            pixels == view.pixels(),
            pixels.len() == n,
            i <= n,
            forall|j: int| 0 <= j < taps@.len() ==> tap_ok(#[trigger] taps@[j]),
            work@.len() == n,
            work@ == work_after(pixels, palette@, taps@, w as nat, h as nat, i as nat),
            indices@.len() == i,
            forall|k: int|
                0 <= k < i ==> indices@[k] == dithered_index(
                    pixels,
                    palette@,
                    taps@,
                    w as nat,
                    h as nat,
                    k,
                ) && (#[trigger] indices@[k] as nat) < palette@.len(),
        decreases n - i,
    {
        let c = work[i];
        let p = nearest_index(palette, c);
        let chosen = palette.color(p);
        proof {
            lemma_position(i as int, w as int, h as int);
        }
        indices.push(p as u8);
        spread_error_into(
            &mut work,
            w,
            h,
            i % w,
            i / w,
            c.r as i32 - chosen.r as i32,
            c.g as i32 - chosen.g as i32,
            c.b as i32 - chosen.b as i32,
            &taps,
        );
        i += 1;
    }
    assert(indices@ =~= dithered(pixels, palette@, taps@, w as nat, h as nat));
    Ok(IndexRaster { width: w, height: h, indices })
}

/// Every pixel is mapped to an entry of the palette.
pub proof fn lemma_dithered_in_palette(
    pixels: Seq<Rgb>,
    palette: Seq<Rgb>,
    taps: Seq<Tap>,
    w: nat,
    h: nat,
)
    requires
        palette.len() >= 1,
    ensures
        forall|i: int|
            0 <= i < pixels.len() ==> 0 <= #[trigger] dithered_index(
                pixels,
                palette,
                taps,
                w,
                h,
                i,
            ) < palette.len(),
        palette.len() <= 256 ==> forall|i: int|
            0 <= i < pixels.len() ==> (#[trigger] dithered(pixels, palette, taps, w, h)[i] as nat)
                < palette.len(),
{
    assert forall|i: int| 0 <= i < pixels.len() implies 0 <= #[trigger] dithered_index(
        pixels,
        palette,
        taps,
        w,
        h,
        i,
    ) < palette.len() by {
        lemma_nearest(
            palette,
            work_after(pixels, palette, taps, w, h, i as nat)[i],
            palette.len(),
        );
    }
}

/// Only equal colours are at distance 0.
pub proof fn lemma_distance_zero(a: Rgb, b: Rgb)
    ensures
        distance(a, b) >= 0,
        distance(a, b) == 0 <==> a == b,
{
    let dr = a.r - b.r;
    let dg = a.g - b.g;
    let db = a.b - b.b;
    assert(dr * dr >= 0 && (dr * dr == 0 <==> dr == 0)) by (nonlinear_arith);
    assert(dg * dg >= 0 && (dg * dg == 0 <==> dg == 0)) by (nonlinear_arith);
    assert(db * db >= 0 && (db * db == 0 <==> db == 0)) by (nonlinear_arith);
}

/// A colour of the palette is nearest to its own entry: to the first that holds it.
pub proof fn lemma_nearest_of_member(palette: Seq<Rgb>, c: Rgb)
    requires
        palette.contains(c),
    ensures
        0 <= nearest(palette, c, palette.len()) < palette.len(),
        palette[nearest(palette, c, palette.len())] == c,
        forall|j: int| 0 <= j < nearest(palette, c, palette.len()) ==> #[trigger] palette[j] != c,
{
    let j = choose|j: int| 0 <= j < palette.len() && palette[j] == c;
    lemma_nearest(palette, c, palette.len());
    let p = nearest(palette, c, palette.len());
    lemma_distance_zero(palette[j], c);
    lemma_distance_zero(palette[p], c);
    assert forall|k: int| 0 <= k < p implies #[trigger] palette[k] != c by {
        lemma_distance_zero(palette[k], c);
    }
}

/// An error of zero changes nothing.
pub proof fn lemma_spread_nothing(
    work: Seq<Rgb>,
    w: nat,
    h: nat,
    x: int,
    y: int,
    taps: Seq<Tap>,
    k: nat,
)
    requires
        work.len() == w * h,
        0 <= x < w,
        0 <= y < h,
        k <= taps.len(),
        forall|j: int| 0 <= j < taps.len() ==> tap_ok(#[trigger] taps[j]),
    ensures
        spread_error(work, w, h, x, y, 0, 0, 0, taps, k) == work,
    decreases k,
{
    if k > 0 {
        lemma_spread_nothing(work, w, h, x, y, taps, (k - 1) as nat);
        let t = taps[k - 1];
        assert(tap_ok(t));
        let nx = x + t.dx;
        let ny = y + t.dy;
        if 0 <= nx < w && 0 <= ny < h {
            lemma_cell_in_raster(nx, ny, w as int, h as int);
            let place = ny * w + nx;
            assert(0 * t.num == 0) by (nonlinear_arith);
            assert(share(0, t) == 0);
            assert(add_error(work[place], 0, 0, 0, t) == work[place]);
            assert(work.update(place, work[place]) =~= work);
        }
    }
}

/// Under a palette that holds the colour of every pixel, no pixel hands
/// an error on, and each pixel is mapped to an entry of its own colour.
pub proof fn lemma_exact_palette(
    pixels: Seq<Rgb>,
    palette: Seq<Rgb>,
    taps: Seq<Tap>,
    w: nat,
    h: nat,
    k: nat,
)
    requires
        pixels.len() == w * h,
        k <= pixels.len(),
        forall|j: int| 0 <= j < taps.len() ==> tap_ok(#[trigger] taps[j]),
        forall|i: int| 0 <= i < pixels.len() ==> palette.contains(#[trigger] pixels[i]),
    ensures
        work_after(pixels, palette, taps, w, h, k) == pixels,
        k < pixels.len() ==> 0 <= dithered_index(pixels, palette, taps, w, h, k as int)
            < palette.len() && palette[dithered_index(pixels, palette, taps, w, h, k as int)]
            == pixels[k as int],
    decreases k,
{
    if k > 0 {
        lemma_exact_palette(pixels, palette, taps, w, h, (k - 1) as nat);
        let i = k - 1;
        let c = pixels[i];
        assert(palette.contains(c));
        lemma_nearest_of_member(palette, c);
        assert(w > 0) by (nonlinear_arith)
            requires
                w * h > 0,
        ;
        lemma_position(i, w as int, h as int);
        lemma_spread_nothing(pixels, w, h, i % (w as int), i / (w as int), taps, taps.len());
    }
    if k < pixels.len() {
        assert(palette.contains(pixels[k as int]));
        lemma_nearest_of_member(palette, pixels[k as int]);
    }
}

/// The taps of every method are within reach.
pub proof fn lemma_kernel_ok(method: DiffusionMethod)
    ensures
        forall|j: int| 0 <= j < kernel(method).len() ==> tap_ok(#[trigger] kernel(method)[j]),
{
}

} // verus!
