//! Pixel formats, colours, and the read-only view over a caller's pixel buffer.

use vstd::prelude::*;
use crate::status;
use crate::SixelError;

verus! {

/// A colour of three 8-bit channels.
#[derive(Debug, Clone, Copy, PartialEq, Eq, Structural)]
pub struct Rgb {
    pub r: u8,
    pub g: u8,
    pub b: u8,
}

/// The gray of the given level.
pub open spec fn gray(level: int) -> Rgb {
    Rgb { r: level as u8, g: level as u8, b: level as u8 }
}

/// Layout of one pixel's samples in the input buffer.
///
/// Every pixel takes a whole number of bytes. Formats of two bytes are read
/// most significant byte first. Formats below 8 bits keep one sample in the
/// low bits of a byte of its own. An alpha sample is skipped. A palette
/// format travels without a colour table: its sample is read as the gray
/// level of the same depth.
#[derive(Debug, Clone, Copy, PartialEq, Eq, Structural)]
pub enum PixelFormat {
    /// 15bpp
    RGB555,
    /// 16bpp
    RGB565,
    /// 24bpp
    RGB888,
    /// 15bpp
    BGR555,
    /// 16bpp
    BGR565,
    /// 24bpp
    BGR888,
    /// 32bpp
    ARGB8888,
    /// 32bpp
    RGBA8888,
    /// 32bpp
    ABGR8888,
    /// 32bpp
    BGRA8888,
    /// 1bpp grayscale
    G1,
    /// 2bpp grayscale
    G2,
    /// 4bpp grayscale
    G4,
    /// 8bpp grayscale
    G8,
    /// 16bpp grayscale with alpha
    AG88,
    /// 16bpp grayscale with alpha
    GA88,
    /// 1bpp palette
    Pal1,
    /// 2bpp palette
    Pal2,
    /// 4bpp palette
    Pal4,
    /// 8bpp palette
    Pal8,
}

impl PixelFormat {
    /// The number of bytes that one pixel takes.
    pub open spec fn spec_bytes_per_pixel(self) -> nat {
        match self {
            PixelFormat::ARGB8888
            | PixelFormat::RGBA8888
            | PixelFormat::ABGR8888
            | PixelFormat::BGRA8888 => 4,
            PixelFormat::RGB888 | PixelFormat::BGR888 => 3,
            PixelFormat::RGB555
            | PixelFormat::RGB565
            | PixelFormat::BGR555
            | PixelFormat::BGR565
            | PixelFormat::AG88
            | PixelFormat::GA88 => 2,
            PixelFormat::G1
            | PixelFormat::G2
            | PixelFormat::G4
            | PixelFormat::G8
            | PixelFormat::Pal1
            | PixelFormat::Pal2
            | PixelFormat::Pal4
            | PixelFormat::Pal8 => 1,
        }
    }

    /// The number of bytes that one pixel takes.
    pub fn bytes_per_pixel(self) -> (n: usize)
        ensures
            n == self.spec_bytes_per_pixel(),
            1 <= n <= 4,
    {
        match self {
            PixelFormat::ARGB8888
            | PixelFormat::RGBA8888
            | PixelFormat::ABGR8888
            | PixelFormat::BGRA8888 => 4,
            PixelFormat::RGB888 | PixelFormat::BGR888 => 3,
            PixelFormat::RGB555
            | PixelFormat::RGB565
            | PixelFormat::BGR555
            | PixelFormat::BGR565
            | PixelFormat::AG88
            | PixelFormat::GA88 => 2,
            PixelFormat::G1
            | PixelFormat::G2
            | PixelFormat::G4
            | PixelFormat::G8
            | PixelFormat::Pal1
            | PixelFormat::Pal2
            | PixelFormat::Pal4
            | PixelFormat::Pal8 => 1,
        }
    }
}

/// The colour that the bytes `s` of one pixel stand for.
pub open spec fn sample_color(format: PixelFormat, s: Seq<u8>) -> Rgb {
    let p = s[0] as int * 256 + s[1] as int;
    match format {
        PixelFormat::RGB888 => Rgb { r: s[0], g: s[1], b: s[2] },
        PixelFormat::BGR888 => Rgb { r: s[2], g: s[1], b: s[0] },
        PixelFormat::RGBA8888 => Rgb { r: s[0], g: s[1], b: s[2] },
        PixelFormat::ARGB8888 => Rgb { r: s[1], g: s[2], b: s[3] },
        PixelFormat::BGRA8888 => Rgb { r: s[2], g: s[1], b: s[0] },
        PixelFormat::ABGR8888 => Rgb { r: s[3], g: s[2], b: s[1] },
        PixelFormat::RGB555 => Rgb {
            r: (((p / 1024) % 32) * 8) as u8,
            g: (((p / 32) % 32) * 8) as u8,
            b: ((p % 32) * 8) as u8,
        },
        PixelFormat::RGB565 => Rgb {
            r: (((p / 2048) % 32) * 8) as u8,
            g: (((p / 32) % 64) * 4) as u8,
            b: ((p % 32) * 8) as u8,
        },
        PixelFormat::BGR555 => Rgb {
            r: ((p % 32) * 8) as u8,
            g: (((p / 32) % 32) * 8) as u8,
            b: (((p / 1024) % 32) * 8) as u8,
        },
        PixelFormat::BGR565 => Rgb {
            r: ((p % 32) * 8) as u8,
            g: (((p / 32) % 64) * 4) as u8,
            b: (((p / 2048) % 32) * 8) as u8,
        },
        PixelFormat::G8 | PixelFormat::Pal8 | PixelFormat::GA88 => gray(s[0] as int),
        PixelFormat::AG88 => gray(s[1] as int),
        PixelFormat::G1 | PixelFormat::Pal1 => gray((s[0] % 2) * 255),
        PixelFormat::G2 | PixelFormat::Pal2 => gray((s[0] % 4) * 85),
        PixelFormat::G4 | PixelFormat::Pal4 => gray((s[0] % 16) * 17),
    }
}

/// The colour of pixel `i` of a buffer in the given format.
pub open spec fn pixel_at(format: PixelFormat, bytes: Seq<u8>, i: int) -> Rgb {
    let d = format.spec_bytes_per_pixel() as int;
    sample_color(format, bytes.subrange(i * d, i * d + d))
}

/// The colours of the first `n` pixels of a buffer, in raster order.
pub open spec fn pixels_of(format: PixelFormat, bytes: Seq<u8>, n: nat) -> Seq<Rgb> {
    Seq::new(n, |i: int| pixel_at(format, bytes, i))
}

/// True when a buffer of `len` bytes holds exactly `width` by `height`
/// pixels of the format, and there is one pixel at least.
pub open spec fn raster_ok(len: nat, width: int, height: int, format: PixelFormat) -> bool {
    &&& width > 0
    &&& height > 0
    &&& width * height * format.spec_bytes_per_pixel() == len
}

/// A read-only view over caller-owned pixel bytes, with its geometry.
pub struct RasterView<'a> {
    bytes: &'a [u8],
    width: usize,
    height: usize,
    format: PixelFormat,
}

/// The bytes of pixel `i` of `n` pixels of `d` bytes lie within `n * d` bytes.
pub proof fn lemma_pixel_in_buffer(i: int, n: int, d: int)
    requires
        0 <= i < n,
        d > 0,
    ensures
        0 <= i * d,
        i * d + d <= n * d,
{
    assert(0 <= i * d && i * d + d <= n * d) by (nonlinear_arith)
        requires
            0 <= i < n,
            d > 0,
    ;
}

impl<'a> RasterView<'a> {
    pub closed spec fn spec_width(&self) -> nat {
        self.width as nat
    }

    pub closed spec fn spec_height(&self) -> nat {
        self.height as nat
    }

    pub closed spec fn spec_format(&self) -> PixelFormat {
        self.format
    }

    /// The bytes under the view.
    pub closed spec fn bytes(&self) -> Seq<u8> {
        self.bytes@
    }

    /// The number of pixels.
    pub open spec fn pixel_count(&self) -> nat {
        self.spec_width() * self.spec_height()
    }

    /// The colours of the pixels, in raster order.
    pub open spec fn pixels(&self) -> Seq<Rgb> {
        pixels_of(self.spec_format(), self.bytes(), self.pixel_count())
    }

    /// The geometry fits the buffer, and the buffer is not empty.
    pub open spec fn wf(&self) -> bool {
        &&& raster_ok(
            self.bytes().len(),
            self.spec_width() as int,
            self.spec_height() as int,
            self.spec_format(),
        )
        &&& self.spec_width() <= i32::MAX
        &&& self.spec_height() <= i32::MAX
        &&& self.pixel_count() <= usize::MAX
    }

    /// Takes a buffer with its declared geometry. Fails with
    /// [`status::BAD_INPUT`] unless both sides are positive and the buffer
    /// holds exactly `width * height` pixels of the format.
    pub fn new(bytes: &'a [u8], width: i32, height: i32, format: PixelFormat) -> (r: Result<
        RasterView<'a>,
        SixelError,
    >)
        ensures
            r is Ok <==> raster_ok(bytes@.len(), width as int, height as int, format),
            r matches Ok(v) ==> v.wf() && v.bytes() == bytes@ && v.spec_width() == width
                && v.spec_height() == height && v.spec_format() == format,
            r matches Err(e) ==> e == SixelError::Sixel(status::BAD_INPUT),
    {
        if width < 1 || height < 1 {
            return Err(SixelError::Sixel(status::BAD_INPUT));
        }
        let depth = format.bytes_per_pixel();
        let w = width as u64;
        let h = height as u64;
        assert(w * h <= 0x7fff_ffff * 0x7fff_ffff) by (nonlinear_arith)
            requires
                0 < w <= 0x7fff_ffff,
                0 < h <= 0x7fff_ffff,
        ;
        let count: u64 = w * h;
        assert(count * depth <= 0x7fff_ffff * 0x7fff_ffff * 4) by (nonlinear_arith)
            requires
                count <= 0x7fff_ffff * 0x7fff_ffff,
                depth <= 4,
        ;
        let expected: u64 = count * (depth as u64);
        if bytes.len() as u64 != expected {
            return Err(SixelError::Sixel(status::BAD_INPUT));
        }
        assert(count <= bytes@.len()) by (nonlinear_arith)
            requires
                count * depth == bytes@.len(),
                depth >= 1,
                count >= 0,
        ;
        Ok(RasterView { bytes, width: width as usize, height: height as usize, format })
    }

    pub fn width(&self) -> (w: usize)
        requires
            self.wf(),
        ensures
            w == self.spec_width(),
            0 < w <= i32::MAX,
    {
        self.width
    }

    pub fn height(&self) -> (h: usize)
        requires
            self.wf(),
        ensures
            h == self.spec_height(),
            0 < h <= i32::MAX,
    {
        self.height
    }

    pub fn format(&self) -> (f: PixelFormat)
        ensures
            f == self.spec_format(),
    {
        self.format
    }

    /// The number of pixels.
    pub fn len(&self) -> (n: usize)
        requires
            self.wf(),
        ensures
            n == self.pixel_count(),
            n > 0,
    {
        assert(self.width * self.height > 0) by (nonlinear_arith)
            requires
                self.width > 0,
                self.height > 0,
        ;
        self.width * self.height
    }

    /// The colour of pixel `i`, counted in raster order.
    pub fn pixel(&self, i: usize) -> (c: Rgb)
        requires
            self.wf(),
            i < self.pixel_count(),
        ensures
            c == self.pixels()[i as int],
    {
        let d = self.format.bytes_per_pixel();
        let total = self.bytes.len();
        proof {
            lemma_pixel_in_buffer(i as int, self.pixel_count() as int, d as int);
            assert(self.pixel_count() * d == total);
            assert(i * d + d <= total);
        }
        let base = i * d;
        let ghost s = self.bytes@.subrange(base as int, base + d);
        let b0 = self.bytes[base];
        assert(b0 == s[0]);
        let c = match self.format {
            PixelFormat::RGB888 | PixelFormat::RGBA8888 => {
                assert(self.bytes@[base + 1] == s[1] && self.bytes@[base + 2] == s[2]);
                Rgb { r: b0, g: self.bytes[base + 1], b: self.bytes[base + 2] }
            },
            PixelFormat::BGR888 | PixelFormat::BGRA8888 => {
                assert(self.bytes@[base + 1] == s[1] && self.bytes@[base + 2] == s[2]);
                Rgb { r: self.bytes[base + 2], g: self.bytes[base + 1], b: b0 }
            },
            PixelFormat::ARGB8888 => {
                assert(self.bytes@[base + 1] == s[1] && self.bytes@[base + 2] == s[2]
                    && self.bytes@[base + 3] == s[3]);
                Rgb { r: self.bytes[base + 1], g: self.bytes[base + 2], b: self.bytes[base + 3] }
            },
            PixelFormat::ABGR8888 => {
                assert(self.bytes@[base + 1] == s[1] && self.bytes@[base + 2] == s[2]
                    && self.bytes@[base + 3] == s[3]);
                Rgb { r: self.bytes[base + 3], g: self.bytes[base + 2], b: self.bytes[base + 1] }
            },
            PixelFormat::RGB555 => {
                assert(self.bytes@[base + 1] == s[1]);
                let p: u32 = (b0 as u32) * 256 + (self.bytes[base + 1] as u32);
                Rgb {
                    r: (((p / 1024) % 32) * 8) as u8,
                    g: (((p / 32) % 32) * 8) as u8,
                    b: ((p % 32) * 8) as u8,
                }
            },
            PixelFormat::RGB565 => {
                assert(self.bytes@[base + 1] == s[1]);
                let p: u32 = (b0 as u32) * 256 + (self.bytes[base + 1] as u32);
                Rgb {
                    r: (((p / 2048) % 32) * 8) as u8,
                    g: (((p / 32) % 64) * 4) as u8,
                    b: ((p % 32) * 8) as u8,
                }
            },
            PixelFormat::BGR555 => {
                assert(self.bytes@[base + 1] == s[1]);
                let p: u32 = (b0 as u32) * 256 + (self.bytes[base + 1] as u32);
                Rgb {
                    r: ((p % 32) * 8) as u8,
                    g: (((p / 32) % 32) * 8) as u8,
                    b: (((p / 1024) % 32) * 8) as u8,
                }
            },
            PixelFormat::BGR565 => {
                assert(self.bytes@[base + 1] == s[1]);
                let p: u32 = (b0 as u32) * 256 + (self.bytes[base + 1] as u32);
                Rgb {
                    r: ((p % 32) * 8) as u8,
                    g: (((p / 32) % 64) * 4) as u8,
                    b: (((p / 2048) % 32) * 8) as u8,
                }
            },
            PixelFormat::G8 | PixelFormat::Pal8 | PixelFormat::GA88 => Rgb { r: b0, g: b0, b: b0 },
            PixelFormat::AG88 => {
                assert(self.bytes@[base + 1] == s[1]);
                let v = self.bytes[base + 1];
                Rgb { r: v, g: v, b: v }
            },
            PixelFormat::G1 | PixelFormat::Pal1 => {
                let v: u8 = (b0 % 2) * 255;
                Rgb { r: v, g: v, b: v }
            },
            PixelFormat::G2 | PixelFormat::Pal2 => {
                let v: u8 = (b0 % 4) * 85;
                Rgb { r: v, g: v, b: v }
            },
            PixelFormat::G4 | PixelFormat::Pal4 => {
                let v: u8 = (b0 % 16) * 17;
                Rgb { r: v, g: v, b: v }
            },
        };
        assert(c == sample_color(self.format, s));
        c
    }

    /// The colours of all pixels, in raster order.
    pub fn colors(&self) -> (v: Vec<Rgb>)
        requires
            self.wf(),
        ensures
            v@ == self.pixels(),
    {
        let n = self.len();
        let mut v: Vec<Rgb> = Vec::new();
        let mut i: usize = 0;
        while i < n
            invariant
                self.wf(),
                n == self.pixel_count(),
                i <= n,
                v@.len() == i,
                forall|k: int| 0 <= k < i ==> v@[k] == self.pixels()[k],
            decreases n - i,
        {
            let c = self.pixel(i);
            v.push(c);
            i += 1;
        }
        assert(v@ =~= self.pixels());
        v
    }
}

} // verus!
