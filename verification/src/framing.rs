//! What the bytes of a Sixel stream are: the characters that each part is
//! made of, how the stream begins and ends, and how many passes and band
//! separators it holds.

use vstd::prelude::*;
use crate::band::{
    band_bottom, band_count, band_text, bands_text, color_in_band, color_pass, introducer,
    lemma_run_length_bounds, palette_entry_text, palette_text, pass_cells, rle, run_length,
    run_text, scale_channel, sixel_stream, terminator,
};
use crate::pixel::Rgb;
use crate::text::{decimal, is_ascii_bytes, lemma_decimal_digits};

verus! {

/// `!`, a digit, or a sixel character: what the data of a pass is made of.
pub open spec fn is_data_byte(b: u8) -> bool {
    b == 33 || 48 <= b <= 57 || 63 <= b <= 126
}

/// A data byte, `#` or `$`: what a band is made of.
pub open spec fn is_band_byte(b: u8) -> bool {
    is_data_byte(b) || b == 35 || b == 36
}

/// A band byte, `-`, `;` or `ESC`: what a stream is made of.
pub open spec fn is_stream_byte(b: u8) -> bool {
    is_band_byte(b) || b == 45 || b == 59 || b == 27
}

pub open spec fn data_only(s: Seq<u8>) -> bool {
    forall|i: int| 0 <= i < s.len() ==> is_data_byte(#[trigger] s[i])
}

pub open spec fn band_only(s: Seq<u8>) -> bool {
    forall|i: int| 0 <= i < s.len() ==> is_band_byte(#[trigger] s[i])
}

pub open spec fn stream_only(s: Seq<u8>) -> bool {
    forall|i: int| 0 <= i < s.len() ==> is_stream_byte(#[trigger] s[i])
}

/// The number of places at which `s` holds the byte `b`.
pub open spec fn count_byte(s: Seq<u8>, b: u8) -> nat
    decreases s.len(),
{
    if s.len() == 0 {
        0
    } else {
        count_byte(s.drop_last(), b) + if s.last() == b {
            1nat
        } else {
            0
        }
    }
}

/// The places of a byte in a concatenation are those in its parts.
pub proof fn lemma_count_concat(a: Seq<u8>, b: Seq<u8>, x: u8)
    ensures
        count_byte(a + b, x) == count_byte(a, x) + count_byte(b, x),
    decreases b.len(),
{
    if b.len() == 0 {
        assert(a + b =~= a);
    } else {
        assert((a + b).drop_last() =~= a + b.drop_last());
        lemma_count_concat(a, b.drop_last(), x);
    }
}

/// A single byte holds itself once, and no other byte.
pub proof fn lemma_count_single(x: u8, b: u8)
    ensures
        count_byte(seq![x], b) == if x == b {
            1nat
        } else {
            0
        },
{
    reveal_with_fuel(count_byte, 2);
    assert(seq![x].drop_last() =~= Seq::<u8>::empty());
    assert(seq![x].last() == x);
}

/// A byte that stands nowhere is counted zero times.
pub proof fn lemma_count_absent(s: Seq<u8>, x: u8)
    requires
        forall|i: int| 0 <= i < s.len() ==> #[trigger] s[i] != x,
    ensures
        count_byte(s, x) == 0,
    decreases s.len(),
{
    if s.len() > 0 {
        let rest = s.drop_last();
        assert forall|i: int| 0 <= i < rest.len() implies #[trigger] rest[i] != x by {
            assert(rest[i] == s[i]);
        }
        lemma_count_absent(rest, x);
    }
}

/// A decimal number is data.
pub proof fn lemma_decimal_data(n: nat)
    ensures
        data_only(decimal(n)),
        decimal(n).len() >= 1,
{
    lemma_decimal_digits(n);
}

/// The run-length coding of sixel characters is data.
pub proof fn lemma_rle_data(s: Seq<u8>)
    requires
        forall|i: int| 0 <= i < s.len() ==> 63 <= #[trigger] s[i] <= 126,
    ensures
        data_only(rle(s)),
        s.len() > 0 ==> rle(s).len() > 0,
    decreases s.len(),
{
    if s.len() > 0 {
        lemma_run_length_bounds(s);
        let n = run_length(s);
        let rest = s.skip(n as int);
        assert forall|i: int| 0 <= i < rest.len() implies 63 <= #[trigger] rest[i] <= 126 by {
            assert(rest[i] == s[i + n]);
        }
        lemma_rle_data(rest);
        lemma_decimal_data(n);
        assert(63 <= s[0] <= 126);
        assert(data_only(run_text(s[0], n)));
        assert(run_text(s[0], n).len() > 0);
    }
}

/// A pass is `#` and then data.
pub proof fn lemma_color_pass_bytes(ix: Seq<u8>, w: nat, h: nat, band: nat, c: u8)
    ensures
        color_pass(ix, w, h, band, c).len() >= 2,
        color_pass(ix, w, h, band, c)[0] == 35,
        data_only(color_pass(ix, w, h, band, c).skip(1)),
        band_only(color_pass(ix, w, h, band, c)),
        count_byte(color_pass(ix, w, h, band, c), 35) == 1,
        count_byte(color_pass(ix, w, h, band, c), 45) == 0,
{
    let cells = pass_cells(ix, w, h, band, c);
    lemma_rle_data(cells);
    lemma_decimal_data(c as nat);
    let pass = color_pass(ix, w, h, band, c);
    let tail = decimal(c as nat) + rle(cells);
    assert(pass =~= seq![35u8] + tail);
    assert(pass.skip(1) =~= tail);
    assert(data_only(tail));
    lemma_count_concat(seq![35u8], tail, 35);
    lemma_count_concat(seq![35u8], tail, 45);
    lemma_count_absent(tail, 35);
    lemma_count_absent(tail, 45);
    lemma_count_single(35, 35);
    lemma_count_single(35, 45);
    assert forall|i: int| 0 <= i < pass.len() implies is_band_byte(#[trigger] pass[i]) by {
        if i > 0 {
            assert(pass[i] == tail[i - 1]);
        }
    }
}

/// The colours below `n` that occur in a band.
pub open spec fn colors_in_band(ix: Seq<u8>, w: nat, h: nat, band: nat, n: nat) -> Set<u8> {
    Set::new(|c: u8| (c as nat) < n && color_in_band(ix, w, h, band, c))
}

/// A band holds one `#` for each colour that occurs in it, no `-`, and
/// is empty only when no colour occurs in it.
pub proof fn lemma_band_text_bytes(ix: Seq<u8>, w: nat, h: nat, band: nat, n: nat)
    requires
        n <= 256,
    ensures
        band_only(band_text(ix, w, h, band, n)),
        colors_in_band(ix, w, h, band, n).finite(),
        count_byte(band_text(ix, w, h, band, n), 35) == colors_in_band(ix, w, h, band, n).len(),
        count_byte(band_text(ix, w, h, band, n), 45) == 0,
        band_text(ix, w, h, band, n).len() == 0 <==> colors_in_band(ix, w, h, band, n).len() == 0,
    decreases n,
{
    let now = colors_in_band(ix, w, h, band, n);
    if n == 0 {
        assert(now =~= Set::<u8>::empty());
    } else {
        let m = (n - 1) as nat;
        let c = m as u8;
        let before = band_text(ix, w, h, band, m);
        let earlier = colors_in_band(ix, w, h, band, m);
        lemma_band_text_bytes(ix, w, h, band, m);
        if !color_in_band(ix, w, h, band, c) {
            assert(now =~= earlier);
        } else {
            assert(now =~= earlier.insert(c));
            assert(!earlier.contains(c));
            let pass = color_pass(ix, w, h, band, c);
            lemma_color_pass_bytes(ix, w, h, band, c);
            if before.len() == 0 {
            } else {
                let sep = seq![36u8];
                lemma_count_single(36, 35);
                lemma_count_single(36, 45);
                lemma_count_concat(before, sep, 35);
                lemma_count_concat(before + sep, pass, 35);
                lemma_count_concat(before, sep, 45);
                lemma_count_concat(before + sep, pass, 45);
            }
        }
    }
}

/// A band of a raster is never empty: some colour occurs in it.
pub proof fn lemma_band_has_color(ix: Seq<u8>, w: nat, h: nat, band: nat)
    requires
        w > 0,
        ix.len() == w * h,
        band < band_count(h),
    ensures
        colors_in_band(ix, w, h, band, 256).len() > 0,
        band_text(ix, w, h, band, 256).len() > 0,
{
    lemma_band_text_bytes(ix, w, h, band, 256);
    let k = 6 * band * w;
    assert(6 * band < h);
    assert(6 * band * w < band_bottom(h, band) * w && 0 <= 6 * band * w && band_bottom(h, band) * w
        <= w * h) by (nonlinear_arith)
        requires
            6 * band < band_bottom(h, band) <= h,
            w > 0,
    ;
    assert(color_in_band(ix, w, h, band, ix[k as int]));
    assert(colors_in_band(ix, w, h, band, 256).contains(ix[k as int]));
}

/// The first `n` bands hold `n - 1` band separators.
pub proof fn lemma_bands_text_bytes(ix: Seq<u8>, w: nat, h: nat, n: nat)
    ensures
        stream_only(bands_text(ix, w, h, n)),
        n >= 1 ==> count_byte(bands_text(ix, w, h, n), 45) == n - 1,
        n == 0 ==> bands_text(ix, w, h, n).len() == 0,
    decreases n,
{
    if n == 1 {
        lemma_band_text_bytes(ix, w, h, 0, 256);
    } else if n > 1 {
        let m = (n - 1) as nat;
        lemma_bands_text_bytes(ix, w, h, m);
        lemma_band_text_bytes(ix, w, h, m, 256);
        let sep = seq![45u8];
        lemma_count_single(45, 45);
        lemma_count_concat(bands_text(ix, w, h, m), sep, 45);
        lemma_count_concat(bands_text(ix, w, h, m) + sep, band_text(ix, w, h, m, 256), 45);
    }
}

/// The palette definitions hold no band separator.
pub proof fn lemma_palette_text_bytes(colors: Seq<Rgb>, n: nat)
    ensures
        stream_only(palette_text(colors, n)),
        count_byte(palette_text(colors, n), 45) == 0,
        count_byte(palette_text(colors, n), 35) == n,
    decreases n,
{
    if n > 0 {
        let m = (n - 1) as nat;
        lemma_palette_text_bytes(colors, m);
        let c = colors[n - 1];
        let entry = palette_entry_text(m, c);
        lemma_decimal_data(m);
        lemma_decimal_data(scale_channel(c.r));
        lemma_decimal_data(scale_channel(c.g));
        lemma_decimal_data(scale_channel(c.b));
        let tail = decimal(m) + seq![59u8, 50u8, 59u8] + decimal(scale_channel(c.r)) + seq![59u8]
            + decimal(scale_channel(c.g)) + seq![59u8] + decimal(scale_channel(c.b));
        assert(entry =~= seq![35u8] + tail);
        assert forall|i: int| 0 <= i < tail.len() implies (is_data_byte(#[trigger] tail[i])
            || tail[i] == 59) by {}
        assert(stream_only(entry));
        lemma_count_absent(tail, 45);
        lemma_count_absent(tail, 35);
        lemma_count_single(35, 35);
        lemma_count_single(35, 45);
        lemma_count_concat(seq![35u8], tail, 45);
        lemma_count_concat(seq![35u8], tail, 35);
        lemma_count_concat(palette_text(colors, m), entry, 45);
        lemma_count_concat(palette_text(colors, m), entry, 35);
    }
}

/// A stream is ASCII, begins with the introducer and ends with the
/// terminator, and holds one band separator less than there are bands.
pub proof fn lemma_stream_framing(colors: Seq<Rgb>, ix: Seq<u8>, w: nat, h: nat)
    requires
        h > 0,
    ensures
        is_ascii_bytes(sixel_stream(colors, ix, w, h)),
        sixel_stream(colors, ix, w, h).len() >= 5,
        sixel_stream(colors, ix, w, h).take(3) == introducer(),
        sixel_stream(colors, ix, w, h).skip(sixel_stream(colors, ix, w, h).len() - 2)
            == terminator(),
        count_byte(sixel_stream(colors, ix, w, h), 45) == band_count(h) - 1,
{
    let s = sixel_stream(colors, ix, w, h);
    let defs = palette_text(colors, colors.len());
    let bands = bands_text(ix, w, h, band_count(h));
    lemma_palette_text_bytes(colors, colors.len());
    lemma_bands_text_bytes(ix, w, h, band_count(h));
    assert(s.take(3) =~= introducer());
    assert(s.skip(s.len() - 2) =~= terminator());
    assert forall|i: int| 0 <= i < s.len() implies #[trigger] s[i] < 128 by {
        if i < 3 {
        } else if i < 3 + defs.len() {
            assert(is_stream_byte(defs[i - 3]));
        } else if i < 3 + defs.len() + bands.len() {
            assert(is_stream_byte(bands[i - 3 - defs.len()]));
        } else {
        }
    }
    lemma_count_concat(introducer(), defs, 45);
    lemma_count_concat(introducer() + defs, bands, 45);
    lemma_count_concat(introducer() + defs + bands, terminator(), 45);
    lemma_count_absent(introducer(), 45);
    lemma_count_absent(terminator(), 45);
}

/// The stream of a raster does not end with a band separator: the byte
/// before the terminator belongs to the last band.
pub proof fn lemma_last_band_closes_the_stream(colors: Seq<Rgb>, ix: Seq<u8>, w: nat, h: nat)
    requires
        w > 0,
        h > 0,
        ix.len() == w * h,
    ensures
        sixel_stream(colors, ix, w, h).len() >= 6,
        is_band_byte(sixel_stream(colors, ix, w, h)[sixel_stream(colors, ix, w, h).len() - 3]),
        sixel_stream(colors, ix, w, h)[sixel_stream(colors, ix, w, h).len() - 3] != 45,
{
    let s = sixel_stream(colors, ix, w, h);
    let n = band_count(h);
    let last = (n - 1) as nat;
    let tail = band_text(ix, w, h, last, 256);
    let bands = bands_text(ix, w, h, n);
    lemma_band_has_color(ix, w, h, last);
    lemma_band_text_bytes(ix, w, h, last, 256);
    assert(bands.len() >= tail.len() && bands[bands.len() - 1] == tail[tail.len() - 1]);
    assert(s[s.len() - 3] == bands[bands.len() - 1]);
}

/// The palette indices that occur in the rows of a band.
pub open spec fn band_indices(ix: Seq<u8>, w: nat, h: nat, band: nat) -> Set<u8> {
    Set::new(|c: u8| color_in_band(ix, w, h, band, c))
}

/// In the text of a band there are as many colour-selection passes, each
/// begun by its `#`, as there are distinct palette indices in the rows of
/// the band: none for an index that is absent from the band.
pub proof fn lemma_band_passes(ix: Seq<u8>, w: nat, h: nat, band: nat)
    ensures
        band_indices(ix, w, h, band).finite(),
        count_byte(band_text(ix, w, h, band, 256), 35) == band_indices(ix, w, h, band).len(),
{
    lemma_band_text_bytes(ix, w, h, band, 256);
    assert(band_indices(ix, w, h, band) =~= colors_in_band(ix, w, h, band, 256));
}

} // verus!
