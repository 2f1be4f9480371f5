//! Encode raw pixels to a [String] of Sixel data.
//!
//! The pixels of a raster are counted into a palette of at most 256
//! colours, every pixel is mapped to a palette entry, with or without
//! diffusion of the error, and the indexed raster is written out as Sixel
//! text: palette definitions, then bands of six rows.
//!
//! # Examples
//!
//! Encode a generated image to sixel and print it:
//! ```rust
//! let mut bytes: Vec<u8> = Vec::new();
//! for x in 0..255 {
//!     for y in 0..255 {
//!         bytes.append(&mut vec![x, 0, y]);
//!     }
//! }
//!
//! let data = sixel_bytes::sixel_string(
//!     &bytes,
//!     255,
//!     255,
//!     sixel_bytes::PixelFormat::RGB888,
//!     sixel_bytes::DiffusionMethod::Atkinson,
//! ).unwrap();
//! assert_eq!(&data[..3], "\u{1b}Pq");
//! ```
//!
//! To hand the data on as it is made, band by band, give [`encode`] an
//! [`OutputSink`] of your own.

use vstd::prelude::*;

pub mod band;
pub mod dither;
pub mod framing;
pub mod histogram;
pub mod pixel;
pub mod quant;
pub mod status;
pub mod text;

pub use crate::band::{BufferSink, OutputSink};
pub use crate::dither::DiffusionMethod;
pub use crate::pixel::PixelFormat;
pub use crate::status::Status;

use crate::band::{encode_indexed, introducer, sixel_stream, terminator};
use crate::dither::{
    apply_palette, dithered, dithered_index, kernel, lemma_exact_palette, lemma_kernel_ok,
    resolved_method,
};
use crate::histogram::{distinct_colors, lemma_distinct_contains, lemma_distinct_no_duplicates};
use crate::framing::lemma_stream_framing;
use crate::pixel::{pixels_of, raster_ok, RasterView, Rgb};
use crate::quant::{
    lemma_palette_colors_len, lemma_sampled_all, make_palette, raster_palette, MethodForLargest,
    MethodForRepColor, QualityMode,
};
use crate::text::{
    ascii_text, decimal, is_ascii_bytes, lemma_ascii_is_utf8, lemma_decimal_digits, push_decimal,
    string_from_utf8,
};

verus! {

/// `std::string::FromUtf8Error`, the error of `String::from_utf8`. It is
/// carried as it is: nothing is claimed of what it holds.
#[verifier::external_type_specification]
#[verifier::external_body]
pub struct ExFromUtf8Error(std::string::FromUtf8Error);

/// Why an encoding did not complete.
#[derive(Debug)]
pub enum SixelError {
    /// A stage reported a status other than [`status::OK`].
    Sixel(Status),
    /// The bytes that were produced are not UTF-8.
    Utf8(std::string::FromUtf8Error),
}

/// `Sixel error code `, the words before the number of a status.
pub open spec fn status_words() -> Seq<u8> {
    seq![83u8, 105u8, 120u8, 101u8, 108u8, 32u8, 101u8, 114u8, 114u8, 111u8, 114u8, 32u8, 99u8,
        111u8, 100u8, 101u8, 32u8]
}

/// The bytes of the message for a status: the words, then the number in
/// decimal, with `-` before a negative one.
pub open spec fn status_message(code: Status) -> Seq<u8> {
    if code < 0 {
        status_words() + seq![45u8] + decimal((-code) as nat)
    } else {
        status_words() + decimal(code as nat)
    }
}

/// Calls `to_string` of the error of `String::from_utf8`: the text that
/// the standard library has for it.
#[verifier::external_body]
fn utf8_error_text(e: &std::string::FromUtf8Error) -> (s: String) {
    e.to_string()
}

impl SixelError {
    /// `status::OK` gives `Ok(())`, every other status the error that carries it.
    pub fn from_status(value: Status) -> (r: Result<(), SixelError>)
        ensures
            value == status::OK ==> r is Ok,
            value != status::OK ==> r == Err::<(), SixelError>(SixelError::Sixel(value)),
    {
        if value == status::OK {
            Ok(())
        } else {
            Err(SixelError::Sixel(value))
        }
    }

    /// The error in words: `Sixel error code ` and the status in decimal,
    /// or the standard library's text for bytes that are not UTF-8.
    pub fn message(&self) -> (s: String)
        ensures
            *self matches SixelError::Sixel(code) ==> s@ == ascii_text(status_message(code)),
    {
        match self {
            SixelError::Sixel(code) => {
                let words: [u8; 17] = [
                    83,
                    105,
                    120,
                    101,
                    108,
                    32,
                    101,
                    114,
                    114,
                    111,
                    114,
                    32,
                    99,
                    111,
                    100,
                    101,
                    32,
                ];
                let mut bytes: Vec<u8> = Vec::new();
                let mut i: usize = 0;
                while i < 17
                    invariant
                        i <= 17,
                        words@ == status_words(),
                        bytes@ == status_words().take(i as int),
                    decreases 17 - i,
                {
                    bytes.push(words[i]);
                    assert(status_words().take(i + 1) =~= status_words().take(i as int).push(
                        status_words()[i as int],
                    ));
                    i += 1;
                }
                assert(status_words().take(17) =~= status_words());
                let magnitude: u64 = if *code < 0 {
                    bytes.push(45);
                    (-(*code as i64)) as u64
                } else {
                    *code as u64
                };
                push_decimal(&mut bytes, magnitude);
                proof {
                    lemma_decimal_digits(magnitude as nat);
                    assert(bytes@ =~= status_message(*code));
                    assert(is_ascii_bytes(bytes@));
                    lemma_ascii_is_utf8(bytes@);
                }
                match string_from_utf8(bytes) {
                    Ok(s) => s,
                    Err(_) => String::new(),
                }
            },
            SixelError::Utf8(e) => utf8_error_text(e),
        }
    }
}

/// The number of colours that the palette of `sixel_string` can hold.
pub const DEFAULT_COLORS: usize = 256;

/// The palette that `sixel_string` builds for the given pixels.
pub open spec fn default_palette(pixels: Seq<Rgb>) -> Seq<Rgb> {
    raster_palette(
        pixels,
        DEFAULT_COLORS as nat,
        MethodForLargest::Auto,
        MethodForRepColor::Auto,
        QualityMode::Auto,
    )
}

/// The index raster that `sixel_string` makes of the given pixels.
pub open spec fn default_indices(
    pixels: Seq<Rgb>,
    width: nat,
    height: nat,
    method: DiffusionMethod,
) -> Seq<u8> {
    let palette = default_palette(pixels);
    dithered(pixels, palette, kernel(resolved_method(method, palette.len())), width, height)
}

/// The Sixel stream of a buffer: of its pixels, their palette under the
/// default policy, and their index raster under the diffusion method.
pub open spec fn sixel_bytes_of(
    bytes: Seq<u8>,
    width: int,
    height: int,
    format: PixelFormat,
    method: DiffusionMethod,
) -> Seq<u8> {
    let pixels = pixels_of(format, bytes, (width * height) as nat);
    sixel_stream(
        default_palette(pixels),
        default_indices(pixels, width as nat, height as nat, method),
        width as nat,
        height as nat,
    )
}

/// `ESC P q` as text.
pub open spec fn introducer_text() -> Seq<char> {
    seq!['\u{1b}', 'P', 'q']
}

/// `ESC \` as text.
pub open spec fn terminator_text() -> Seq<char> {
    seq!['\u{1b}', '\\']
}

/// What `sixel_string` returns for an input: the Sixel stream as text
/// where the geometry fits the buffer, else the status
/// [`status::BAD_INPUT`]; never an error of the text encoding.
pub open spec fn encodes(
    bytes: Seq<u8>,
    width: int,
    height: int,
    format: PixelFormat,
    method: DiffusionMethod,
    r: Result<String, SixelError>,
) -> bool {
    &&& r is Ok <==> raster_ok(bytes.len(), width, height, format)
    &&& r matches Ok(s) ==> s@ == ascii_text(sixel_bytes_of(bytes, width, height, format, method))
    &&& r matches Err(e) ==> e == SixelError::Sixel(status::BAD_INPUT)
}

/// Encodes image bytes and hands the Sixel data to `sink`, band by band.
///
/// The `bytes` must match the width, height, and pixel format: if they do
/// not, the call fails with [`status::BAD_INPUT`] and the sink takes nothing.
pub fn encode<S: OutputSink>(
    bytes: &[u8],
    width: i32,
    height: i32,
    pixelformat: PixelFormat,
    method_for_diffuse: DiffusionMethod,
    sink: &mut S,
) -> (r: Result<(), SixelError>)
    ensures
        r is Ok <==> raster_ok(bytes@.len(), width as int, height as int, pixelformat),
        r is Ok ==> final(sink).written() == old(sink).written() + sixel_bytes_of(
            bytes@,
            width as int,
            height as int,
            pixelformat,
            method_for_diffuse,
        ),
        r matches Err(e) ==> e == SixelError::Sixel(status::BAD_INPUT) && final(sink).written()
            == old(sink).written(),
{
    let view = match RasterView::new(bytes, width, height, pixelformat) {
        Ok(view) => view,
        Err(e) => {
            return Err(e);
        },
    };
    let palette = match make_palette(
        &view,
        DEFAULT_COLORS,
        MethodForLargest::Auto,
        MethodForRepColor::Auto,
        QualityMode::Auto,
    ) {
        Ok(palette) => palette,
        Err(e) => {
            return Err(e);
        },
    };
    let indices = match apply_palette(&view, &palette, method_for_diffuse) {
        Ok(indices) => indices,
        Err(e) => {
            return Err(e);
        },
    };
    encode_indexed(&indices, &palette, sink)
}

/// Encode image bytes to a [String] containing the sixel data.
///
/// The `bytes` must match the width, height, and pixel format.
pub fn sixel_string(
    bytes: &[u8],
    width: i32,
    height: i32,
    pixelformat: PixelFormat,
    method_for_diffuse: DiffusionMethod,
) -> (r: Result<String, SixelError>)
    ensures
        encodes(bytes@, width as int, height as int, pixelformat, method_for_diffuse, r),
        r matches Ok(s) ==> s@.len() >= 5 && s@.take(3) == introducer_text() && s@.skip(
            s@.len() - 2,
        ) == terminator_text(),
{
    let mut sink = BufferSink::new();
    match encode(bytes, width, height, pixelformat, method_for_diffuse, &mut sink) {
        Ok(()) => {},
        Err(e) => {
            return Err(e);
        },
    }
    let data = sink.into_bytes();
    proof {
        let pixels = pixels_of(pixelformat, bytes@, (width * height) as nat);
        lemma_stream_framing(
            default_palette(pixels),
            default_indices(pixels, width as nat, height as nat, method_for_diffuse),
            width as nat,
            height as nat,
        );
        assert(data@ =~= sixel_bytes_of(
            bytes@,
            width as int,
            height as int,
            pixelformat,
            method_for_diffuse,
        ));
        lemma_ascii_is_utf8(data@);
        assert(ascii_text(data@).take(3) =~= introducer_text());
        assert(ascii_text(data@).skip(data@.len() - 2) =~= terminator_text());
    }
    match string_from_utf8(data) {
        Ok(s) => Ok(s),
        Err(e) => Err(SixelError::Utf8(e)),
    }
}

/// Two outcomes of `sixel_string` on one input are the same: the same
/// text, or the same error.
pub proof fn lemma_encoding_is_determined(
    bytes: Seq<u8>,
    width: int,
    height: int,
    format: PixelFormat,
    method: DiffusionMethod,
    first: Result<String, SixelError>,
    second: Result<String, SixelError>,
)
    requires
        encodes(bytes, width, height, format, method, first),
        encodes(bytes, width, height, format, method, second),
    ensures
        first is Ok <==> second is Ok,
        first matches Ok(a) ==> second matches Ok(b) && a@ == b@,
        first matches Err(e) ==> second == first,
{
}

/// The palette of `sixel_string` never holds more than `DEFAULT_COLORS`
/// colours: it holds the distinct colours of the pixels, or
/// `DEFAULT_COLORS` colours where the pixels have more.
pub proof fn lemma_default_palette_len(pixels: Seq<Rgb>)
    requires
        pixels.len() > 0,
    ensures
        1 <= default_palette(pixels).len() <= DEFAULT_COLORS,
        default_palette(pixels).len() == if distinct_colors(pixels).len() <= DEFAULT_COLORS {
            distinct_colors(pixels).len()
        } else {
            DEFAULT_COLORS as nat
        },
{
    lemma_sampled_all(pixels);
    lemma_palette_colors_len(
        pixels,
        DEFAULT_COLORS as nat,
        MethodForLargest::Auto,
        MethodForRepColor::Auto,
    );
}

/// The bytes below `n`.
pub open spec fn indices_below(n: nat) -> Set<u8> {
    Set::new(|c: u8| (c as nat) < n)
}

pub proof fn lemma_indices_below(n: nat)
    requires
        n <= 256,
    ensures
        indices_below(n).finite(),
        indices_below(n).len() == n,
    decreases n,
{
    if n == 0 {
        assert(indices_below(n) =~= Set::<u8>::empty());
    } else {
        lemma_indices_below((n - 1) as nat);
        assert(indices_below(n) =~= indices_below((n - 1) as nat).insert((n - 1) as u8));
    }
}

/// Where the pixels have `DEFAULT_COLORS` distinct colours at most, the
/// palette is made of these colours, every pixel is mapped to an entry of
/// its own colour whatever the diffusion method, and the index raster
/// uses every entry: the palette has as many entries as the raster uses.
pub proof fn lemma_few_colors(pixels: Seq<Rgb>, width: nat, height: nat, method: DiffusionMethod)
    requires
        pixels.len() == width * height,
        distinct_colors(pixels).len() <= DEFAULT_COLORS,
    ensures
        default_palette(pixels) == distinct_colors(pixels),
        forall|i: int|
            0 <= i < pixels.len() ==> default_palette(pixels)[(#[trigger] default_indices(
                pixels,
                width,
                height,
                method,
            )[i]) as int] == pixels[i],
        default_indices(pixels, width, height, method).to_set() == indices_below(
            default_palette(pixels).len(),
        ),
        default_indices(pixels, width, height, method).to_set().len() == default_palette(
            pixels,
        ).len(),
{
    let palette = default_palette(pixels);
    let taps = kernel(resolved_method(method, palette.len()));
    let ix = default_indices(pixels, width, height, method);
    lemma_sampled_all(pixels);
    assert(palette == distinct_colors(pixels));
    lemma_distinct_no_duplicates(pixels);
    lemma_kernel_ok(resolved_method(method, palette.len()));
    assert forall|i: int| 0 <= i < pixels.len() implies palette.contains(#[trigger] pixels[i]) by {
        lemma_distinct_contains(pixels, pixels[i]);
    }
    assert forall|i: int| 0 <= i < pixels.len() implies 0 <= dithered_index(
        pixels,
        palette,
        taps,
        width,
        height,
        i,
    ) < palette.len() && palette[(#[trigger] ix[i]) as int] == pixels[i] by {
        lemma_exact_palette(pixels, palette, taps, width, height, i as nat);
    }
    lemma_indices_below(palette.len());
    assert forall|c: u8| ix.to_set().contains(c) <==> indices_below(palette.len()).contains(c) by {
        if ix.to_set().contains(c) {
            let i = choose|i: int| 0 <= i < ix.len() && ix[i] == c;
            lemma_exact_palette(pixels, palette, taps, width, height, i as nat);
        }
        if (c as nat) < palette.len() {
            lemma_distinct_contains(pixels, palette[c as int]);
            let i = choose|i: int| 0 <= i < pixels.len() && pixels[i] == palette[c as int];
            lemma_exact_palette(pixels, palette, taps, width, height, i as nat);
            assert(palette[ix[i] as int] == palette[c as int]);
            assert(ix[i] == c);
            assert(ix.contains(c));
        }
    }
    assert(ix.to_set() =~= indices_below(palette.len()));
}

} // verus!
