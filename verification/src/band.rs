//! The Sixel stream of an indexed raster: palette definitions, then bands
//! of six rows, each band as one run-length coded pass for each colour in it.

use vstd::prelude::*;
use crate::dither::{lemma_cell_in_raster, IndexRaster};
use crate::pixel::Rgb;
use crate::quant::Palette;
use crate::status;
use crate::text::{decimal, push_decimal};
use crate::SixelError;

verus! {

/// `ESC P q`: starts Sixel data.
pub open spec fn introducer() -> Seq<u8> {
    seq![0x1bu8, 0x50u8, 0x71u8]
}

/// `ESC \`: ends Sixel data.
pub open spec fn terminator() -> Seq<u8> {
    seq![0x1bu8, 0x5cu8]
}

/// A channel of 0..=255 in hundredths of full intensity, rounded.
pub open spec fn scale_channel(v: u8) -> nat {
    ((v as nat) * 100 + 127) / 255
}

/// `# i ; 2 ; r ; g ; b`: defines palette entry `i` as an RGB colour.
pub open spec fn palette_entry_text(i: nat, c: Rgb) -> Seq<u8> {
    seq![35u8] + decimal(i) + seq![59u8, 50u8, 59u8] + decimal(scale_channel(c.r)) + seq![59u8]
        + decimal(scale_channel(c.g)) + seq![59u8] + decimal(scale_channel(c.b))
}

/// The definitions of the first `n` palette entries, in index order.
pub open spec fn palette_text(colors: Seq<Rgb>, n: nat) -> Seq<u8>
    decreases n,
{
    if n == 0 {
        Seq::empty()
    } else {
        palette_text(colors, (n - 1) as nat) + palette_entry_text(
            (n - 1) as nat,
            colors[n - 1],
        )
    }
}

/// The number of bands of a raster of `h` rows.
pub open spec fn band_count(h: nat) -> nat {
    (h + 5) / 6
}

/// The row below the last row of a band.
pub open spec fn band_bottom(h: nat, band: nat) -> nat {
    if 6 * band + 6 <= h {
        6 * band + 6
    } else {
        h
    }
}

/// True when the raster has colour `c` in column `x` of row `y`.
pub open spec fn cell_set(ix: Seq<u8>, w: nat, h: nat, x: int, y: int, c: u8) -> bool {
    y < h && ix[y * w + x] == c
}

/// The six-bit mask of the rows of a band that hold colour `c` in column
/// `x`, the top row as the lowest bit.
pub open spec fn sixel_value(ix: Seq<u8>, w: nat, h: nat, band: nat, x: int, c: u8) -> nat {
    let y = 6 * band as int;
    (if cell_set(ix, w, h, x, y, c) { 1nat } else { 0 })
        + (if cell_set(ix, w, h, x, y + 1, c) { 2nat } else { 0 })
        + (if cell_set(ix, w, h, x, y + 2, c) { 4nat } else { 0 })
        + (if cell_set(ix, w, h, x, y + 3, c) { 8nat } else { 0 })
        + (if cell_set(ix, w, h, x, y + 4, c) { 16nat } else { 0 })
        + (if cell_set(ix, w, h, x, y + 5, c) { 32nat } else { 0 })
}

/// The sixel character of a mask: `?` for the empty mask, `~` for the full one.
pub open spec fn sixel_byte(ix: Seq<u8>, w: nat, h: nat, band: nat, x: int, c: u8) -> u8 {
    (63 + sixel_value(ix, w, h, band, x, c)) as u8
}

/// The sixel characters of colour `c` in a band, one for each column.
pub open spec fn pass_cells(ix: Seq<u8>, w: nat, h: nat, band: nat, c: u8) -> Seq<u8> {
    Seq::new(w, |x: int| sixel_byte(ix, w, h, band, x, c))
}

/// The length of the run of equal characters that `s` starts with.
pub open spec fn run_length(s: Seq<u8>) -> nat
    decreases s.len(),
{
    if s.len() <= 1 {
        s.len()
    } else if s[1] == s[0] {
        1 + run_length(s.drop_first())
    } else {
        1
    }
}

/// A run of `n` characters `ch`: `! n ch` when longer than three, else written out.
pub open spec fn run_text(ch: u8, n: nat) -> Seq<u8> {
    if n > 3 {
        seq![33u8] + decimal(n) + seq![ch]
    } else {
        Seq::new(n, |i: int| ch)
    }
}

/// A run has one character at least, and no more than there are.
pub proof fn lemma_run_length_bounds(s: Seq<u8>)
    requires
        s.len() > 0,
    ensures
        1 <= run_length(s) <= s.len(),
    decreases s.len(),
{
    if s.len() > 1 && s[1] == s[0] {
        lemma_run_length_bounds(s.drop_first());
    }
}

/// The run-length coding of `s`: its maximal runs, each as `run_text`.
pub open spec fn rle(s: Seq<u8>) -> Seq<u8>
    decreases s.len(),
    via rle_decreases
{
    if s.len() == 0 {
        Seq::empty()
    } else {
        run_text(s[0], run_length(s)) + rle(s.skip(run_length(s) as int))
    }
}

#[via_fn]
proof fn rle_decreases(s: Seq<u8>) {
    if s.len() != 0 {
        lemma_run_length_bounds(s);
    }
}

/// `# c`, then the run-length coded sixel characters of colour `c` in a band.
pub open spec fn color_pass(ix: Seq<u8>, w: nat, h: nat, band: nat, c: u8) -> Seq<u8> {
    seq![35u8] + decimal(c as nat) + rle(pass_cells(ix, w, h, band, c))
}

/// True when some pixel of a band has colour `c`.
pub open spec fn color_in_band(ix: Seq<u8>, w: nat, h: nat, band: nat, c: u8) -> bool {
    exists|k: int| 6 * band * w <= k < band_bottom(h, band) * w && #[trigger] ix[k] == c
}

/// The passes of a band for the colours below `n` that occur in it, in
/// ascending order, with `$` between two passes.
pub open spec fn band_text(ix: Seq<u8>, w: nat, h: nat, band: nat, n: nat) -> Seq<u8>
    decreases n,
{
    if n == 0 {
        Seq::empty()
    } else {
        let before = band_text(ix, w, h, band, (n - 1) as nat);
        let c = (n - 1) as u8;
        if !color_in_band(ix, w, h, band, c) {
            before
        } else if before.len() == 0 {
            color_pass(ix, w, h, band, c)
        } else {
            before + seq![36u8] + color_pass(ix, w, h, band, c)
        }
    }
}

/// The first `n` bands, with `-` between two bands.
pub open spec fn bands_text(ix: Seq<u8>, w: nat, h: nat, n: nat) -> Seq<u8>
    decreases n,
{
    if n == 0 {
        Seq::empty()
    } else if n == 1 {
        band_text(ix, w, h, 0, 256)
    } else {
        bands_text(ix, w, h, (n - 1) as nat) + seq![45u8] + band_text(
            ix,
            w,
            h,
            (n - 1) as nat,
            256,
        )
    }
}

/// The whole stream: introducer, palette definitions, bands, terminator.
pub open spec fn sixel_stream(colors: Seq<Rgb>, ix: Seq<u8>, w: nat, h: nat) -> Seq<u8> {
    introducer() + palette_text(colors, colors.len()) + bands_text(ix, w, h, band_count(h))
        + terminator()
}

/// True when every index names a palette entry.
pub open spec fn indices_in_palette(ix: Seq<u8>, n: nat) -> bool {
    forall|k: int| 0 <= k < ix.len() ==> (#[trigger] ix[k] as nat) < n
}

/// An append-only consumer of the bytes that the encoder emits.
pub trait OutputSink {
    /// All that the sink has taken so far.
    spec fn written(&self) -> Seq<u8>;

    /// Takes `bytes` after what it has.
    fn write(&mut self, bytes: &[u8])
        ensures
            final(self).written() == old(self).written() + bytes@,
    ;
}

/// A sink that keeps the bytes in memory.
pub struct BufferSink {
    bytes: Vec<u8>,
}

impl BufferSink {
    pub fn new() -> (s: BufferSink)
        ensures
            s.written() == Seq::<u8>::empty(),
    {
        BufferSink { bytes: Vec::new() }
    }

    /// Hands out what was written.
    pub fn into_bytes(self) -> (v: Vec<u8>)
        ensures
            v@ == self.written(),
    {
        self.bytes
    }
}

impl OutputSink for BufferSink {
    closed spec fn written(&self) -> Seq<u8> {
        self.bytes@
    }

    fn write(&mut self, bytes: &[u8]) {
        let ghost before = self.bytes@;
        let mut i: usize = 0;
        while i < bytes.len()
            invariant
                i <= bytes@.len(),
                self.bytes@ == before + bytes@.take(i as int),
            decreases bytes@.len() - i,
        {
            self.bytes.push(bytes[i]);
            assert(bytes@.take(i + 1) =~= bytes@.take(i as int).push(bytes@[i as int]));
            assert(self.bytes@ =~= before + bytes@.take(i + 1));
            i += 1;
        }
        assert(bytes@.take(i as int) =~= bytes@);
    }
}

fn scale(v: u8) -> (s: u64)
    ensures
        s == scale_channel(v),
{
    ((v as u64) * 100 + 127) / 255
}

fn push_palette_entry(out: &mut Vec<u8>, i: usize, c: Rgb)
    ensures
        final(out)@ == old(out)@ + palette_entry_text(i as nat, c),
{
    let ghost base = out@;
    out.push(35);
    push_decimal(out, i as u64);
    out.push(59);
    out.push(50);
    out.push(59);
    push_decimal(out, scale(c.r));
    out.push(59);
    push_decimal(out, scale(c.g));
    out.push(59);
    push_decimal(out, scale(c.b));
    assert(out@ =~= base + palette_entry_text(i as nat, c));
}

fn palette_bytes(palette: &Palette) -> (out: Vec<u8>)
    ensures
        out@ == palette_text(palette@, palette@.len()),
{
    let mut out: Vec<u8> = Vec::new();
    let n = palette.len();
    let mut i: usize = 0;
    while i < n
        invariant
            n == palette@.len(),
            i <= n,
            out@ == palette_text(palette@, i as nat),
        decreases n - i,
    {
        push_palette_entry(&mut out, i, palette.color(i));
        i += 1;
    }
    out
}

fn cell(ix: &IndexRaster, x: usize, top: usize, row: usize, c: u8) -> (b: bool)
    requires
        ix.wf(),
        x < ix.spec_width(),
        top < ix.spec_height(),
    ensures
        b == cell_set(ix@, ix.spec_width(), ix.spec_height(), x as int, top + row, c),
{
    if row < ix.height() - top {
        ix.at(x, top + row) == c
    } else {
        false
    }
}

fn sixel_at(ix: &IndexRaster, band: usize, x: usize, c: u8) -> (b: u8)
    requires
        ix.wf(),
        band < band_count(ix.spec_height()),
        x < ix.spec_width(),
    ensures
        b == sixel_byte(ix@, ix.spec_width(), ix.spec_height(), band as nat, x as int, c),
        63 <= b <= 126,
{
    let h = ix.height();
    let top = band * 6;
    let mut v: u8 = 63;
    if cell(ix, x, top, 0, c) {
        v += 1;
    }
    if cell(ix, x, top, 1, c) {
        v += 2;
    }
    if cell(ix, x, top, 2, c) {
        v += 4;
    }
    if cell(ix, x, top, 3, c) {
        v += 8;
    }
    if cell(ix, x, top, 4, c) {
        v += 16;
    }
    if cell(ix, x, top, 5, c) {
        v += 32;
    }
    v
}

fn pass_cells_of(ix: &IndexRaster, band: usize, c: u8) -> (cells: Vec<u8>)
    requires
        ix.wf(),
        band < band_count(ix.spec_height()),
    ensures
        cells@ == pass_cells(ix@, ix.spec_width(), ix.spec_height(), band as nat, c),
{
    let w = ix.width();
    let mut cells: Vec<u8> = Vec::new();
    let mut x: usize = 0;
    while x < w
        invariant
            ix.wf(),
            band < band_count(ix.spec_height()),
            w == ix.spec_width(),
            x <= w,
            cells@.len() == x,
            forall|j: int|
                0 <= j < x ==> cells@[j] == sixel_byte(
                    ix@,
                    ix.spec_width(),
                    ix.spec_height(),
                    band as nat,
                    j,
                    c,
                ),
        decreases w - x,
    {
        cells.push(sixel_at(ix, band, x, c));
        x += 1;
    }
    assert(cells@ =~= pass_cells(ix@, ix.spec_width(), ix.spec_height(), band as nat, c));
    cells
}

fn push_run(out: &mut Vec<u8>, ch: u8, n: usize)
    ensures
        final(out)@ == old(out)@ + run_text(ch, n as nat),
{
    let ghost base = out@;
    if n > 3 {
        out.push(33);
        push_decimal(out, n as u64);
        out.push(ch);
        assert(out@ =~= base + run_text(ch, n as nat));
    } else {
        let mut i: usize = 0;
        while i < n
            invariant
                i <= n,
                out@ == base + Seq::new(i as nat, |k: int| ch),
            decreases n - i,
        {
            out.push(ch);
            i += 1;
            assert(out@ =~= base + Seq::new(i as nat, |k: int| ch));
        }
    }
}

/// The run that `s` starts with has length `n` when its first `n`
/// characters are equal and the next one, if any, differs.
pub proof fn lemma_run_length_is(s: Seq<u8>, n: nat)
    requires
        1 <= n <= s.len(),
        forall|k: int| 0 <= k < n ==> #[trigger] s[k] == s[0],
        n == s.len() || s[n as int] != s[0],
    ensures
        run_length(s) == n,
    decreases n,
{
    if s.len() > 1 && n > 1 {
        let t = s.drop_first();
        assert(s[1] == s[0]);
        assert forall|k: int| 0 <= k < n - 1 implies #[trigger] t[k] == t[0] by {
            assert(t[k] == s[k + 1]);
        }
        lemma_run_length_is(t, (n - 1) as nat);
    }
}

fn push_rle(out: &mut Vec<u8>, cells: &Vec<u8>)
    ensures
        final(out)@ == old(out)@ + rle(cells@),
{
    let ghost base = out@;
    let n = cells.len();
    let mut i: usize = 0;
    assert(cells@.skip(0) =~= cells@);
    while i < n
        invariant
            n == cells@.len(),
            i <= n,
            out@ + rle(cells@.skip(i as int)) == base + rle(cells@),
        decreases n - i,
    {
        let ch = cells[i];
        let mut j: usize = i + 1;
        while j < n && cells[j] == ch
            invariant
                n == cells@.len(),
                i < j <= n,
                ch == cells@[i as int],
                forall|k: int| i <= k < j ==> cells@[k] == ch,
            decreases n - j,
        {
            j += 1;
        }
        let ghost rest = cells@.skip(i as int);
        let ghost before = out@;
        proof {
            lemma_run_length_is(rest, (j - i) as nat);
            assert(rest.skip(j - i) =~= cells@.skip(j as int));
        }
        push_run(out, ch, j - i);
        assert(out@ + rle(cells@.skip(j as int)) =~= before + rle(rest));
        i = j;
    }
    assert(rle(cells@.skip(n as int)) =~= Seq::<u8>::empty());
    assert(out@ =~= base + rle(cells@));
}

fn push_pass(out: &mut Vec<u8>, ix: &IndexRaster, band: usize, c: u8)
    requires
        ix.wf(),
        band < band_count(ix.spec_height()),
    ensures
        final(out)@ == old(out)@ + color_pass(
            ix@,
            ix.spec_width(),
            ix.spec_height(),
            band as nat,
            c,
        ),
{
    let ghost base = out@;
    out.push(35);
    push_decimal(out, c as u64);
    let cells = pass_cells_of(ix, band, c);
    push_rle(out, &cells);
    assert(out@ =~= base + color_pass(ix@, ix.spec_width(), ix.spec_height(), band as nat, c));
}

/// For each colour, whether some pixel of the band has it.
fn band_colors(ix: &IndexRaster, band: usize) -> (flags: Vec<bool>)
    requires
        ix.wf(),
        band < band_count(ix.spec_height()),
    ensures
        flags@.len() == 256,
        forall|c: u8|
            flags@[c as int] == color_in_band(
                ix@,
                ix.spec_width(),
                ix.spec_height(),
                band as nat,
                c,
            ),
{
    let w = ix.width();
    let h = ix.height();
    let top = band * 6;
    let bottom = if h - top >= 6 {
        top + 6
    } else {
        h
    };
    proof {
        lemma_cell_in_raster(0, top as int, w as int, h as int);
        lemma_cell_in_raster(0, bottom - 1, w as int, h as int);
        assert(bottom == band_bottom(h as nat, band as nat));
        assert(6 * band * w == top * w);
        assert(bottom * w <= h * w && top * w <= bottom * w) by (nonlinear_arith)
            requires
                top <= bottom <= h,
                w >= 0,
        ;
        assert(h * w == w * h) by (nonlinear_arith);
    }
    let total = ix.len();
    assert(top * w <= bottom * w <= total);
    let lo = top * w;
    let hi = bottom * w;
    let mut flags: Vec<bool> = Vec::new();
    let mut c: usize = 0;
    while c < 256
        invariant
            c <= 256,
            flags@.len() == c,
            forall|j: int| 0 <= j < c ==> !flags@[j],
        decreases 256 - c,
    {
        flags.push(false);
        c += 1;
    }
    assert(lo <= hi) by (nonlinear_arith)
        requires
            lo == top * w,
            hi == bottom * w,
            top <= bottom,
            w >= 0,
    ;
    let mut k: usize = lo;
    while k < hi
        invariant
            lo <= k <= hi,
            hi <= ix@.len(),
            flags@.len() == 256,
            forall|c: u8|
                flags@[c as int] == (exists|j: int| lo <= j < k && #[trigger] ix@[j] == c),
        decreases hi - k,
    {
        let v = ix.get(k);
        let ghost prev = flags@;
        flags.set(v as usize, true);
        assert forall|c: u8|
            flags@[c as int] == (exists|j: int| lo <= j < k + 1 && #[trigger] ix@[j] == c) by {
            if c == v {
                assert(ix@[k as int] == c);
            } else {
                assert(flags@[c as int] == prev[c as int]);
                if exists|j: int| lo <= j < k + 1 && #[trigger] ix@[j] == c {
                    let j = choose|j: int| lo <= j < k + 1 && #[trigger] ix@[j] == c;
                    assert(j < k);
                }
            }
        }
        k += 1;
    }
    flags
}

/// The text of one band.
fn encode_band(ix: &IndexRaster, band: usize) -> (out: Vec<u8>)
    requires
        ix.wf(),
        band < band_count(ix.spec_height()),
    ensures
        out@ == band_text(ix@, ix.spec_width(), ix.spec_height(), band as nat, 256),
{
    let flags = band_colors(ix, band);
    let mut out: Vec<u8> = Vec::new();
    let mut c: usize = 0;
    while c < 256
        invariant
            ix.wf(),
            band < band_count(ix.spec_height()),
            c <= 256,
            flags@.len() == 256,
            forall|c: u8|
                flags@[c as int] == color_in_band(
                    ix@,
                    ix.spec_width(),
                    ix.spec_height(),
                    band as nat,
                    c,
                ),
            out@ == band_text(ix@, ix.spec_width(), ix.spec_height(), band as nat, c as nat),
        decreases 256 - c,
    {
        if flags[c] {
            if out.len() > 0 {
                out.push(36);
            }
            push_pass(&mut out, ix, band, c as u8);
        }
        c += 1;
    }
    out
}

/// Emits the Sixel stream of an indexed raster into `sink`. Fails with
/// [`status::LOGIC_ERROR`], and emits nothing, when an index names no
/// palette entry.
pub fn encode_indexed<S: OutputSink>(ix: &IndexRaster, palette: &Palette, sink: &mut S) -> (r:
    Result<(), SixelError>)
    requires
        ix.wf(),
    ensures
        r is Ok <==> indices_in_palette(ix@, palette@.len()),
        r is Ok ==> final(sink).written() == old(sink).written() + sixel_stream(
            palette@,
            ix@,
            ix.spec_width(),
            ix.spec_height(),
        ),
        r matches Err(e) ==> e == SixelError::Sixel(status::LOGIC_ERROR) && final(sink).written()
            == old(sink).written(),
{
    let ghost base = sink.written();
    let ncolors = palette.len();
    let total = ix.len();
    let mut k: usize = 0;
    while k < total
        invariant
            total == ix@.len(),
            ncolors == palette@.len(),
            k <= total,
            forall|j: int| 0 <= j < k ==> (#[trigger] ix@[j] as nat) < ncolors,
        decreases total - k,
    {
        if ix.get(k) as usize >= ncolors {
            return Err(SixelError::Sixel(status::LOGIC_ERROR));
        }
        k += 1;
    }
    let intro: [u8; 3] = [0x1b, 0x50, 0x71];
    sink.write(&intro);
    assert(intro@ =~= introducer());
    let defs = palette_bytes(palette);
    sink.write(defs.as_slice());
    let h = ix.height();
    let nbands = (h - 1) / 6 + 1;
    assert(nbands == band_count(h as nat));
    let ghost head = base + introducer() + palette_text(palette@, palette@.len());
    assert(sink.written() =~= head + bands_text(ix@, ix.spec_width(), ix.spec_height(), 0));
    let mut band: usize = 0;
    while band < nbands
        invariant
            ix.wf(),
            nbands == band_count(ix.spec_height()),
            band <= nbands,
            sink.written() == head + bands_text(
                ix@,
                ix.spec_width(),
                ix.spec_height(),
                band as nat,
            ),
        decreases nbands - band,
    {
        let ghost before = sink.written();
        if band > 0 {
            let sep: [u8; 1] = [45];
            sink.write(&sep);
            assert(sep@ =~= seq![45u8]);
        }
        let text = encode_band(ix, band);
        sink.write(text.as_slice());
        assert(sink.written() =~= head + bands_text(
            ix@,
            ix.spec_width(),
            ix.spec_height(),
            (band + 1) as nat,
        ));
        band += 1;
    }
    let end: [u8; 2] = [0x1b, 0x5c];
    sink.write(&end);
    assert(end@ =~= terminator());
    assert(sink.written() =~= base + sixel_stream(
        palette@,
        ix@,
        ix.spec_width(),
        ix.spec_height(),
    ));
    Ok(())
}

} // verus!
