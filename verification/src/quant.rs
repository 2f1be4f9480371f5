//! Construction of a bounded colour palette from the pixels of a raster.

use vstd::prelude::*;
use vstd::arithmetic::div_mod::{
    lemma_div_by_multiple, lemma_div_is_ordered, lemma_fundamental_div_mod_converse,
};
use crate::histogram::{
    count_colors, distinct_colors, histogram, lemma_distinct_len, lemma_distinct_no_duplicates,
    total_count, ColorCount,
};
use crate::pixel::{RasterView, Rgb};
use crate::status;
use crate::SixelError;

verus! {

/// The largest number of entries that a palette can hold.
pub const PALETTE_MAX: usize = 256;

/// An ordered set of colours. An entry is named by its position.
#[derive(Debug)]
pub struct Palette {
    colors: Vec<Rgb>,
}

impl View for Palette {
    type V = Seq<Rgb>;

    closed spec fn view(&self) -> Seq<Rgb> {
        self.colors@
    }
}

impl Palette {
    /// A palette holds `PALETTE_MAX` entries at most.
    pub open spec fn wf(&self) -> bool {
        self@.len() <= PALETTE_MAX
    }

    /// Makes a palette of the given colours, in their order. Fails with
    /// [`status::BAD_INPUT`] when there are more than `PALETTE_MAX` of them.
    pub fn new(colors: Vec<Rgb>) -> (r: Result<Palette, SixelError>)
        ensures
            r is Ok <==> colors@.len() <= PALETTE_MAX,
            r matches Ok(p) ==> p.wf() && p@ == colors@,
            r matches Err(e) ==> e == SixelError::Sixel(status::BAD_INPUT),
    {
        if colors.len() > PALETTE_MAX {
            Err(SixelError::Sixel(status::BAD_INPUT))
        } else {
            Ok(Palette { colors })
        }
    }

    /// The number of entries.
    pub fn len(&self) -> (n: usize)
        ensures
            n == self@.len(),
    {
        self.colors.len()
    }

    /// The colour of entry `i`.
    pub fn color(&self, i: usize) -> (c: Rgb)
        requires
            i < self@.len(),
        ensures
            c == self@[i as int],
    {
        self.colors[i]
    }

    /// The colours of the entries, in index order.
    pub fn colors(&self) -> (v: Vec<Rgb>)
        ensures
            v@ == self@,
    {
        let mut v: Vec<Rgb> = Vec::new();
        let mut i: usize = 0;
        while i < self.colors.len()
            invariant
                i <= self.colors@.len(),
                v@ == self.colors@.take(i as int),
            decreases self.colors@.len() - i,
        {
            v.push(self.colors[i]);
            assert(self.colors@.take(i + 1) =~= self.colors@.take(i as int).push(
                self.colors@[i as int],
            ));
            i += 1;
        }
        assert(self.colors@.take(i as int) =~= self.colors@);
        v
    }
}

/// How the dimension along which a box is split is found.
#[derive(Debug, Clone, Copy, PartialEq, Eq, Structural)]
pub enum MethodForLargest {
    /// The same as `Normal`.
    Auto,
    /// The channel with the greatest range.
    Normal,
    /// The channel with the greatest range, each range weighed by the
    /// channel's part in luminosity.
    Luminosity,
}

/// How the colour that stands for a box is chosen.
#[derive(Debug, Clone, Copy, PartialEq, Eq, Structural)]
pub enum MethodForRepColor {
    /// The same as `CenterOfBox`.
    Auto,
    /// Midway between the least and the greatest value of each channel.
    CenterOfBox,
    /// The mean of the colours of the box.
    AverageColor,
    /// The mean of the pixels of the box.
    AveragePixels,
}

/// How many pixels are looked at when the colours are counted.
#[derive(Debug, Clone, Copy, PartialEq, Eq, Structural)]
pub enum QualityMode {
    /// The same as `Full`.
    Auto,
    /// About `HIGH_SAMPLES` pixels, evenly spaced.
    High,
    /// About `LOW_SAMPLES` pixels, evenly spaced.
    Low,
    /// Every pixel.
    Full,
}

/// Channel 0 is red, 1 is green, any other is blue.
pub open spec fn channel(c: Rgb, ch: int) -> int {
    if ch == 0 {
        c.r as int
    } else if ch == 1 {
        c.g as int
    } else {
        c.b as int
    }
}

/// The least value of a channel in a box; 255 for the empty box.
pub open spec fn channel_min(b: Seq<ColorCount>, ch: int) -> int
    decreases b.len(),
{
    if b.len() == 0 {
        255
    } else {
        let m = channel_min(b.drop_last(), ch);
        let v = channel(b.last().color, ch);
        if v < m {
            v
        } else {
            m
        }
    }
}

/// The greatest value of a channel in a box; 0 for the empty box.
pub open spec fn channel_max(b: Seq<ColorCount>, ch: int) -> int
    decreases b.len(),
{
    if b.len() == 0 {
        0
    } else {
        let m = channel_max(b.drop_last(), ch);
        let v = channel(b.last().color, ch);
        if v > m {
            v
        } else {
            m
        }
    }
}

/// The part of a channel in luminosity, in ten-thousandths.
pub open spec fn luminosity_factor(ch: int) -> int {
    if ch == 0 {
        2989
    } else if ch == 1 {
        5866
    } else {
        1145
    }
}

/// The range of a channel in a box, as the method weighs it.
pub open spec fn spread(b: Seq<ColorCount>, method: MethodForLargest, ch: int) -> int {
    let range = channel_max(b, ch) - channel_min(b, ch);
    match method {
        MethodForLargest::Luminosity => luminosity_factor(ch) * range,
        _ => range,
    }
}

/// The channel of the greatest spread; of several, the first.
pub open spec fn largest_dimension(b: Seq<ColorCount>, method: MethodForLargest) -> int {
    let s0 = spread(b, method, 0);
    let s1 = spread(b, method, 1);
    let s2 = spread(b, method, 2);
    if s0 >= s1 && s0 >= s2 {
        0
    } else if s1 >= s2 {
        1
    } else {
        2
    }
}

/// The number of pixels of a box whose channel `ch` is `v`.
pub open spec fn count_at(b: Seq<ColorCount>, ch: int, v: int) -> nat
    decreases b.len(),
{
    if b.len() == 0 {
        0
    } else {
        count_at(b.drop_last(), ch, v) + if channel(b.last().color, ch) == v {
            b.last().count as nat
        } else {
            0
        }
    }
}

/// The number of pixels of a box whose channel `ch` is `t` at most.
pub open spec fn count_upto(b: Seq<ColorCount>, ch: int, t: int) -> nat
    decreases b.len(),
{
    if b.len() == 0 {
        0
    } else {
        count_upto(b.drop_last(), ch, t) + if channel(b.last().color, ch) <= t {
            b.last().count as nat
        } else {
            0
        }
    }
}

/// The least `u` from `t` on that has half of the pixels of the box at or
/// below it; `last` if there is none before it.
pub open spec fn least_threshold(b: Seq<ColorCount>, ch: int, t: int, last: int) -> int
    decreases last - t,
{
    if t >= last {
        last
    } else if 2 * count_upto(b, ch, t) >= total_count(b) {
        t
    } else {
        least_threshold(b, ch, t + 1, last)
    }
}

/// Where a box is cut along channel `ch`: at the median of its pixels,
/// and below the greatest value, so that both sides hold a colour.
pub open spec fn median_threshold(b: Seq<ColorCount>, ch: int) -> int {
    least_threshold(b, ch, channel_min(b, ch), channel_max(b, ch) - 1)
}

/// The entries whose channel `ch` is `t` at most, in their order.
pub open spec fn lower_part(b: Seq<ColorCount>, ch: int, t: int) -> Seq<ColorCount>
    decreases b.len(),
{
    if b.len() == 0 {
        Seq::empty()
    } else {
        let rest = lower_part(b.drop_last(), ch, t);
        if channel(b.last().color, ch) <= t {
            rest.push(b.last())
        } else {
            rest
        }
    }
}

/// The entries whose channel `ch` is above `t`, in their order.
pub open spec fn upper_part(b: Seq<ColorCount>, ch: int, t: int) -> Seq<ColorCount>
    decreases b.len(),
{
    if b.len() == 0 {
        Seq::empty()
    } else {
        let rest = upper_part(b.drop_last(), ch, t);
        if channel(b.last().color, ch) > t {
            rest.push(b.last())
        } else {
            rest
        }
    }
}

/// Among the first `n` boxes, the one that is split next: of those with two
/// colours at least, the one with the most pixels, and of several the
/// first. Negative when no box has two colours.
pub open spec fn pick_box(boxes: Seq<Seq<ColorCount>>, n: nat) -> int
    decreases n,
{
    if n == 0 {
        -1
    } else {
        let p = pick_box(boxes, (n - 1) as nat);
        let i = n - 1;
        if boxes[i].len() >= 2 && (p < 0 || total_count(boxes[i]) > total_count(boxes[p])) {
            i
        } else {
            p
        }
    }
}

/// The picked box has two colours at least, and no box of two colours or
/// more has more pixels, nor as many and an earlier place.
pub proof fn lemma_pick_box(boxes: Seq<Seq<ColorCount>>, n: nat)
    requires
        n <= boxes.len(),
    ensures
        -1 <= pick_box(boxes, n) < n,
        pick_box(boxes, n) >= 0 ==> boxes[pick_box(boxes, n)].len() >= 2,
        forall|i: int|
            0 <= i < n && (#[trigger] boxes[i]).len() >= 2 ==> pick_box(boxes, n) >= 0
                && total_count(boxes[i]) <= total_count(boxes[pick_box(boxes, n)]) && (
            total_count(boxes[i]) == total_count(boxes[pick_box(boxes, n)]) ==> pick_box(boxes, n)
                <= i),
    decreases n,
{
    if n > 0 {
        lemma_pick_box(boxes, (n - 1) as nat);
    }
}

/// One split: the picked box keeps its lower part, the upper part becomes
/// a new last box.
pub open spec fn split_step(boxes: Seq<Seq<ColorCount>>, method: MethodForLargest) -> Seq<
    Seq<ColorCount>,
> {
    let i = pick_box(boxes, boxes.len());
    let b = boxes[i];
    let ch = largest_dimension(b, method);
    let t = median_threshold(b, ch);
    boxes.update(i, lower_part(b, ch, t)).push(upper_part(b, ch, t))
}

/// Splits until there are `capacity` boxes or no box has two colours.
pub open spec fn median_cut(
    boxes: Seq<Seq<ColorCount>>,
    capacity: nat,
    method: MethodForLargest,
) -> Seq<Seq<ColorCount>>
    decreases capacity - boxes.len(),
{
    if boxes.len() >= capacity || pick_box(boxes, boxes.len()) < 0 {
        boxes
    } else {
        proof {
            lemma_pick_box(boxes, boxes.len());
        }
        median_cut(split_step(boxes, method), capacity, method)
    }
}

/// The sum of a channel over the colours of a box.
pub open spec fn channel_sum(b: Seq<ColorCount>, ch: int) -> nat
    decreases b.len(),
{
    if b.len() == 0 {
        0
    } else {
        channel_sum(b.drop_last(), ch) + channel(b.last().color, ch) as nat
    }
}

/// The sum of a channel over the pixels of a box.
pub open spec fn channel_pixel_sum(b: Seq<ColorCount>, ch: int) -> nat
    decreases b.len(),
{
    if b.len() == 0 {
        0
    } else {
        channel_pixel_sum(b.drop_last(), ch) + (channel(b.last().color, ch) * b.last().count) as nat
    }
}

/// The value of one channel of the colour that stands for a box.
pub open spec fn representative_channel(b: Seq<ColorCount>, rep: MethodForRepColor, ch: int) -> int {
    match rep {
        MethodForRepColor::AverageColor => channel_sum(b, ch) as int / b.len() as int,
        MethodForRepColor::AveragePixels => channel_pixel_sum(b, ch) as int / total_count(
            b,
        ) as int,
        _ => (channel_min(b, ch) + channel_max(b, ch)) / 2,
    }
}

/// The colour that stands for a box.
pub open spec fn representative(b: Seq<ColorCount>, rep: MethodForRepColor) -> Rgb {
    Rgb {
        r: representative_channel(b, rep, 0) as u8,
        g: representative_channel(b, rep, 1) as u8,
        b: representative_channel(b, rep, 2) as u8,
    }
}

/// No two entries have the same colour.
pub open spec fn distinct_entries(b: Seq<ColorCount>) -> bool {
    forall|i: int, j: int| 0 <= i < j < b.len() ==> (#[trigger] b[i]).color != (#[trigger] b[j]).color
}

/// What holds of every box during the cut: it has a colour, no colour
/// twice, a pixel for each colour, and a pixel count within `u64`.
pub open spec fn box_ok(b: Seq<ColorCount>) -> bool {
    &&& b.len() >= 1
    &&& distinct_entries(b)
    &&& forall|k: int| 0 <= k < b.len() ==> (#[trigger] b[k]).count >= 1
    &&& total_count(b) <= u64::MAX
}

/// The least and the greatest value of a channel are values of entries of
/// the box, and no entry is beyond them.
pub proof fn lemma_channel_bounds(b: Seq<ColorCount>, ch: int)
    ensures
        0 <= channel_min(b, ch) <= 255,
        0 <= channel_max(b, ch) <= 255,
        forall|i: int|
            0 <= i < b.len() ==> channel_min(b, ch) <= channel((#[trigger] b[i]).color, ch)
                <= channel_max(b, ch),
        b.len() > 0 ==> exists|i: int|
            0 <= i < b.len() && channel((#[trigger] b[i]).color, ch) == channel_min(b, ch),
        b.len() > 0 ==> exists|i: int|
            0 <= i < b.len() && channel((#[trigger] b[i]).color, ch) == channel_max(b, ch),
    decreases b.len(),
{
    if b.len() > 0 {
        let rest = b.drop_last();
        lemma_channel_bounds(rest, ch);
        let last = b.len() - 1;
        assert forall|i: int| 0 <= i < b.len() implies channel_min(b, ch) <= channel(
            (#[trigger] b[i]).color,
            ch,
        ) <= channel_max(b, ch) by {
            if i < last {
                assert(rest[i] == b[i]);
            }
        }
        if channel(b.last().color, ch) < channel_min(rest, ch) || rest.len() == 0 {
            assert(channel(b[last].color, ch) == channel_min(b, ch));
        } else {
            let i = choose|i: int|
                0 <= i < rest.len() && channel((#[trigger] rest[i]).color, ch) == channel_min(
                    rest,
                    ch,
                );
            assert(channel(b[i].color, ch) == channel_min(b, ch));
        }
        if channel(b.last().color, ch) > channel_max(rest, ch) || rest.len() == 0 {
            assert(channel(b[last].color, ch) == channel_max(b, ch));
        } else {
            let i = choose|i: int|
                0 <= i < rest.len() && channel((#[trigger] rest[i]).color, ch) == channel_max(
                    rest,
                    ch,
                );
            assert(channel(b[i].color, ch) == channel_max(b, ch));
        }
    }
}

/// The pixels at or below a value are those below it and those at it;
/// none are below the least value, all at or below the greatest.
pub proof fn lemma_count_upto_step(b: Seq<ColorCount>, ch: int, t: int)
    ensures
        count_upto(b, ch, t) == count_upto(b, ch, t - 1) + count_at(b, ch, t),
        count_at(b, ch, t) <= total_count(b),
        count_upto(b, ch, t) <= total_count(b),
        t < channel_min(b, ch) ==> count_upto(b, ch, t) == 0,
        t >= channel_max(b, ch) ==> count_upto(b, ch, t) == total_count(b),
    decreases b.len(),
{
    if b.len() > 0 {
        lemma_count_upto_step(b.drop_last(), ch, t);
    }
}

/// The first entries of a box stand for no more pixels than the box.
pub proof fn lemma_total_count_prefix(b: Seq<ColorCount>, i: int)
    requires
        0 <= i <= b.len(),
    ensures
        total_count(b.take(i)) <= total_count(b),
    decreases b.len(),
{
    if i < b.len() {
        assert(b.drop_last().take(i) =~= b.take(i));
        lemma_total_count_prefix(b.drop_last(), i);
    } else {
        assert(b.take(i) =~= b);
    }
}

/// The threshold lies where it was looked for.
pub proof fn lemma_least_threshold_range(b: Seq<ColorCount>, ch: int, t: int, last: int)
    requires
        t <= last,
    ensures
        t <= least_threshold(b, ch, t, last) <= last,
    decreases last - t,
{
    if t < last && 2 * count_upto(b, ch, t) < total_count(b) {
        lemma_least_threshold_range(b, ch, t + 1, last);
    }
}

/// What the two parts of a box hold, and that nothing is lost between them.
pub proof fn lemma_parts(b: Seq<ColorCount>, ch: int, t: int)
    ensures
        forall|e: ColorCount| #[trigger]
            lower_part(b, ch, t).contains(e) <==> b.contains(e) && channel(e.color, ch) <= t,
        forall|e: ColorCount| #[trigger]
            upper_part(b, ch, t).contains(e) <==> b.contains(e) && channel(e.color, ch) > t,
        total_count(lower_part(b, ch, t)) + total_count(upper_part(b, ch, t)) == total_count(b),
        lower_part(b, ch, t).len() + upper_part(b, ch, t).len() == b.len(),
        distinct_entries(b) ==> distinct_entries(lower_part(b, ch, t)) && distinct_entries(
            upper_part(b, ch, t),
        ),
    decreases b.len(),
{
    let lo = lower_part(b, ch, t);
    let hi = upper_part(b, ch, t);
    if b.len() > 0 {
        let rest = b.drop_last();
        let x = b.last();
        let rlo = lower_part(rest, ch, t);
        let rhi = upper_part(rest, ch, t);
        lemma_parts(rest, ch, t);
        assert forall|e: ColorCount| b.contains(e) <==> rest.contains(e) || e == x by {
            if b.contains(e) {
                let i = choose|i: int| 0 <= i < b.len() && b[i] == e;
                if i < rest.len() {
                    assert(rest[i] == e);
                }
            }
            if rest.contains(e) {
                let i = choose|i: int| 0 <= i < rest.len() && rest[i] == e;
                assert(b[i] == e);
            }
            assert(b[b.len() - 1] == x);
        }
        assert forall|e: ColorCount| #[trigger] lo.contains(e) <==> b.contains(e) && channel(
            e.color,
            ch,
        ) <= t by {
            if channel(x.color, ch) <= t {
                assert(lo == rlo.push(x));
                assert(lo[rlo.len() as int] == x);
                if rlo.contains(e) {
                    let i = choose|i: int| 0 <= i < rlo.len() && rlo[i] == e;
                    assert(lo[i] == e);
                }
                if lo.contains(e) {
                    let i = choose|i: int| 0 <= i < lo.len() && lo[i] == e;
                    if i < rlo.len() {
                        assert(rlo[i] == e);
                    }
                }
            }
        }
        assert forall|e: ColorCount| #[trigger] hi.contains(e) <==> b.contains(e) && channel(
            e.color,
            ch,
        ) > t by {
            if channel(x.color, ch) > t {
                assert(hi == rhi.push(x));
                assert(hi[rhi.len() as int] == x);
                if rhi.contains(e) {
                    let i = choose|i: int| 0 <= i < rhi.len() && rhi[i] == e;
                    assert(hi[i] == e);
                }
                if hi.contains(e) {
                    let i = choose|i: int| 0 <= i < hi.len() && hi[i] == e;
                    if i < rhi.len() {
                        assert(rhi[i] == e);
                    }
                }
            }
        }
        if channel(x.color, ch) <= t {
            assert(lo.drop_last() =~= rlo);
        } else {
            assert(hi.drop_last() =~= rhi);
        }
        if distinct_entries(b) {
            assert(distinct_entries(rest)) by {
                assert forall|i: int, j: int| 0 <= i < j < rest.len() implies (
                #[trigger] rest[i]).color != (#[trigger] rest[j]).color by {
                    assert(b[i].color != b[j].color);
                }
            }
            assert forall|e: ColorCount| rest.contains(e) implies e.color != x.color by {
                let i = choose|i: int| 0 <= i < rest.len() && rest[i] == e;
                assert(b[i].color != b[b.len() - 1].color);
            }
            assert forall|i: int, j: int| 0 <= i < j < lo.len() implies (#[trigger] lo[i]).color
                != (#[trigger] lo[j]).color by {
                if j < rlo.len() {
                    assert(rlo[i].color != rlo[j].color);
                } else {
                    assert(rlo.contains(rlo[i]));
                }
            }
            assert forall|i: int, j: int| 0 <= i < j < hi.len() implies (#[trigger] hi[i]).color
                != (#[trigger] hi[j]).color by {
                if j < rhi.len() {
                    assert(rhi[i].color != rhi[j].color);
                } else {
                    assert(rhi.contains(rhi[i]));
                }
            }
        }
    }
}

/// A box of two colours or more has a range along its largest dimension.
pub proof fn lemma_largest_dimension_has_range(b: Seq<ColorCount>, method: MethodForLargest)
    requires
        b.len() >= 2,
        distinct_entries(b),
    ensures
        0 <= largest_dimension(b, method) <= 2,
        channel_min(b, largest_dimension(b, method)) < channel_max(
            b,
            largest_dimension(b, method),
        ),
{
    lemma_channel_bounds(b, 0);
    lemma_channel_bounds(b, 1);
    lemma_channel_bounds(b, 2);
    assert(b[0].color != b[1].color);
    let r0 = channel_max(b, 0) - channel_min(b, 0);
    let r1 = channel_max(b, 1) - channel_min(b, 1);
    let r2 = channel_max(b, 2) - channel_min(b, 2);
    assert(channel(b[0].color, 0) != channel(b[1].color, 0) || channel(b[0].color, 1) != channel(
        b[1].color,
        1,
    ) || channel(b[0].color, 2) != channel(b[1].color, 2));
    assert(r0 > 0 || r1 > 0 || r2 > 0);
    assert(r0 >= 0 && r1 >= 0 && r2 >= 0);
}

/// Both parts of a cut at the median threshold of a box with a range are boxes again.
pub proof fn lemma_split_keeps_boxes(b: Seq<ColorCount>, ch: int)
    requires
        box_ok(b),
        channel_min(b, ch) < channel_max(b, ch),
    ensures
        channel_min(b, ch) <= median_threshold(b, ch) < channel_max(b, ch),
        box_ok(lower_part(b, ch, median_threshold(b, ch))),
        box_ok(upper_part(b, ch, median_threshold(b, ch))),
{
    let t = median_threshold(b, ch);
    lemma_least_threshold_range(b, ch, channel_min(b, ch), channel_max(b, ch) - 1);
    lemma_channel_bounds(b, ch);
    lemma_parts(b, ch, t);
    let lo = lower_part(b, ch, t);
    let hi = upper_part(b, ch, t);
    let i = choose|i: int|
        0 <= i < b.len() && channel((#[trigger] b[i]).color, ch) == channel_min(b, ch);
    assert(b.contains(b[i]));
    assert(lo.contains(b[i]));
    let j = choose|j: int|
        0 <= j < b.len() && channel((#[trigger] b[j]).color, ch) == channel_max(b, ch);
    assert(b.contains(b[j]));
    assert(hi.contains(b[j]));
    assert forall|k: int| 0 <= k < lo.len() implies (#[trigger] lo[k]).count >= 1 by {
        assert(lo.contains(lo[k]));
        let m = choose|m: int| 0 <= m < b.len() && b[m] == lo[k];
        assert(b[m].count >= 1);
    }
    assert forall|k: int| 0 <= k < hi.len() implies (#[trigger] hi[k]).count >= 1 by {
        assert(hi.contains(hi[k]));
        let m = choose|m: int| 0 <= m < b.len() && b[m] == hi[k];
        assert(b[m].count >= 1);
    }
}

/// The number of pixels that `QualityMode::Low` aims to look at.
pub const LOW_SAMPLES: usize = 18383;

/// The number of pixels that `QualityMode::High` aims to look at.
pub const HIGH_SAMPLES: usize = 1118383;

/// The distance between two pixels that are looked at, among `n` pixels.
pub open spec fn sample_step(quality: QualityMode, n: nat) -> nat {
    match quality {
        QualityMode::Low => if n / (LOW_SAMPLES as nat) >= 1 {
            n / (LOW_SAMPLES as nat)
        } else {
            1
        },
        QualityMode::High => if n / (HIGH_SAMPLES as nat) >= 1 {
            n / (HIGH_SAMPLES as nat)
        } else {
            1
        },
        _ => 1,
    }
}

/// Every `step`-th pixel, from the first on.
pub open spec fn sampled(pixels: Seq<Rgb>, step: nat) -> Seq<Rgb> {
    Seq::new(((pixels.len() + step - 1) / (step as int)) as nat, |j: int| pixels[j * step])
}

/// The palette of at most `capacity` colours for the given pixels: their
/// distinct colours where these are few enough, else the representatives
/// of the boxes of a median cut.
pub open spec fn palette_colors(
    pixels: Seq<Rgb>,
    capacity: nat,
    largest: MethodForLargest,
    rep: MethodForRepColor,
) -> Seq<Rgb> {
    let hist = histogram(pixels);
    if hist.len() <= capacity {
        distinct_colors(pixels)
    } else {
        let boxes = median_cut(seq![hist], capacity, largest);
        Seq::new(boxes.len(), |i: int| representative(boxes[i], rep))
    }
}

/// The palette that `make_palette` builds for a raster.
pub open spec fn raster_palette(
    pixels: Seq<Rgb>,
    capacity: nat,
    largest: MethodForLargest,
    rep: MethodForRepColor,
    quality: QualityMode,
) -> Seq<Rgb> {
    palette_colors(sampled(pixels, sample_step(quality, pixels.len())), capacity, largest, rep)
}

/// With step 1 every pixel is looked at.
pub proof fn lemma_sampled_all(pixels: Seq<Rgb>)
    ensures
        sampled(pixels, 1) == pixels,
{
    assert(sampled(pixels, 1) =~= pixels);
}

/// The number of colours in all boxes together.
pub open spec fn total_entries(boxes: Seq<Seq<ColorCount>>) -> nat
    decreases boxes.len(),
{
    if boxes.len() == 0 {
        0
    } else {
        total_entries(boxes.drop_last()) + boxes.last().len()
    }
}

/// Replacing one box changes the number of colours by the change of its size.
pub proof fn lemma_total_entries_update(boxes: Seq<Seq<ColorCount>>, i: int, b: Seq<ColorCount>)
    requires
        0 <= i < boxes.len(),
    ensures
        total_entries(boxes.update(i, b)) == total_entries(boxes) - boxes[i].len() + b.len(),
    decreases boxes.len(),
{
    let after = boxes.update(i, b);
    if i == boxes.len() - 1 {
        assert(after.drop_last() =~= boxes.drop_last());
    } else {
        assert(after.drop_last() =~= boxes.drop_last().update(i, b));
        lemma_total_entries_update(boxes.drop_last(), i, b);
    }
}

/// Where there are more colours than boxes, some box has two colours.
pub proof fn lemma_some_box_splits(boxes: Seq<Seq<ColorCount>>)
    requires
        total_entries(boxes) > boxes.len(),
    ensures
        pick_box(boxes, boxes.len()) >= 0,
    decreases boxes.len(),
{
    if boxes.len() > 0 {
        let rest = boxes.drop_last();
        lemma_pick_box(boxes, boxes.len());
        if boxes.last().len() >= 2 {
            assert(boxes[boxes.len() - 1].len() >= 2);
        } else {
            lemma_some_box_splits(rest);
            lemma_pick_box(rest, rest.len());
            let i = pick_box(rest, rest.len());
            assert(rest[i] == boxes[i]);
        }
    }
}

/// A split keeps every colour, in one of the two parts.
pub proof fn lemma_split_step_keeps_entries(boxes: Seq<Seq<ColorCount>>, method: MethodForLargest)
    requires
        pick_box(boxes, boxes.len()) >= 0,
    ensures
        split_step(boxes, method).len() == boxes.len() + 1,
        total_entries(split_step(boxes, method)) == total_entries(boxes),
{
    lemma_pick_box(boxes, boxes.len());
    let i = pick_box(boxes, boxes.len());
    let b = boxes[i];
    let ch = largest_dimension(b, method);
    let t = median_threshold(b, ch);
    lemma_parts(b, ch, t);
    lemma_total_entries_update(boxes, i, lower_part(b, ch, t));
    let kept = boxes.update(i, lower_part(b, ch, t));
    assert(kept.push(upper_part(b, ch, t)).drop_last() =~= kept);
}

/// A cut of no more boxes than the capacity, with colours enough to fill
/// it, ends with exactly `capacity` boxes.
pub proof fn lemma_median_cut_fills(
    boxes: Seq<Seq<ColorCount>>,
    capacity: nat,
    method: MethodForLargest,
)
    requires
        boxes.len() <= capacity <= total_entries(boxes),
    ensures
        median_cut(boxes, capacity, method).len() == capacity,
    decreases capacity - boxes.len(),
{
    if boxes.len() < capacity {
        lemma_some_box_splits(boxes);
        lemma_split_step_keeps_entries(boxes, method);
        lemma_median_cut_fills(split_step(boxes, method), capacity, method);
    }
}

/// A palette holds as many colours as the capacity allows and the pixels
/// have: all distinct colours of the pixels, or `capacity` of them.
pub proof fn lemma_palette_colors_len(
    pixels: Seq<Rgb>,
    capacity: nat,
    largest: MethodForLargest,
    rep: MethodForRepColor,
)
    requires
        pixels.len() > 0,
        capacity >= 1,
    ensures
        1 <= palette_colors(pixels, capacity, largest, rep).len() <= capacity,
        palette_colors(pixels, capacity, largest, rep).len() == if distinct_colors(pixels).len()
            <= capacity {
            distinct_colors(pixels).len()
        } else {
            capacity
        },
{
    lemma_distinct_len(pixels);
    let start = seq![histogram(pixels)];
    assert(start.drop_last() =~= Seq::<Seq<ColorCount>>::empty());
    assert(total_entries(start) == histogram(pixels).len()) by {
        reveal_with_fuel(total_entries, 2);
    }
    if distinct_colors(pixels).len() > capacity {
        lemma_median_cut_fills(start, capacity, largest);
    }
}

/// The boxes as sequences of entries.
pub open spec fn boxes_view(boxes: Seq<Vec<ColorCount>>) -> Seq<Seq<ColorCount>> {
    Seq::new(boxes.len(), |i: int| boxes[i]@)
}

fn channel_of(c: Rgb, ch: usize) -> (v: u8)
    ensures
        v == channel(c, ch as int),
{
    if ch == 0 {
        c.r
    } else if ch == 1 {
        c.g
    } else {
        c.b
    }
}

fn box_bounds(b: &Vec<ColorCount>, ch: usize) -> (r: (u8, u8))
    ensures
        r.0 == channel_min(b@, ch as int),
        r.1 == channel_max(b@, ch as int),
{
    let mut lo: u8 = 255;
    let mut hi: u8 = 0;
    let mut i: usize = 0;
    assert(b@.take(0) =~= Seq::<ColorCount>::empty());
    while i < b.len()
        invariant
            i <= b@.len(),
            lo == channel_min(b@.take(i as int), ch as int),
            hi == channel_max(b@.take(i as int), ch as int),
        decreases b@.len() - i,
    {
        let v = channel_of(b[i].color, ch);
        assert(b@.take(i + 1).drop_last() =~= b@.take(i as int));
        if v < lo {
            lo = v;
        }
        if v > hi {
            hi = v;
        }
        i += 1;
    }
    assert(b@.take(i as int) =~= b@);
    (lo, hi)
}

fn spread_of(b: &Vec<ColorCount>, method: MethodForLargest, ch: usize) -> (s: u32)
    requires
        b@.len() > 0,
    ensures
        s == spread(b@, method, ch as int),
{
    let (lo, hi) = box_bounds(b, ch);
    proof {
        lemma_channel_bounds(b@, ch as int);
    }
    let range: u32 = (hi - lo) as u32;
    match method {
        MethodForLargest::Luminosity => {
            let factor: u32 = if ch == 0 {
                2989
            } else if ch == 1 {
                5866
            } else {
                1145
            };
            assert(factor * range <= 5866 * 255) by (nonlinear_arith)
                requires
                    factor <= 5866,
                    range <= 255,
            ;
            factor * range
        },
        _ => range,
    }
}

fn largest_dimension_of(b: &Vec<ColorCount>, method: MethodForLargest) -> (ch: usize)
    requires
        b@.len() > 0,
    ensures
        ch == largest_dimension(b@, method),
        ch <= 2,
{
    let s0 = spread_of(b, method, 0);
    let s1 = spread_of(b, method, 1);
    let s2 = spread_of(b, method, 2);
    if s0 >= s1 && s0 >= s2 {
        0
    } else if s1 >= s2 {
        1
    } else {
        2
    }
}

fn weigh(b: &Vec<ColorCount>) -> (w: u64)
    requires
        total_count(b@) <= u64::MAX,
    ensures
        w == total_count(b@),
{
    let mut w: u64 = 0;
    let mut i: usize = 0;
    assert(b@.take(0) =~= Seq::<ColorCount>::empty());
    while i < b.len()
        invariant
            i <= b@.len(),
            total_count(b@) <= u64::MAX,
            w == total_count(b@.take(i as int)),
        decreases b@.len() - i,
    {
        proof {
            assert(b@.take(i + 1).drop_last() =~= b@.take(i as int));
            lemma_total_count_prefix(b@, i + 1);
        }
        w = w + b[i].count;
        i += 1;
    }
    assert(b@.take(i as int) =~= b@);
    w
}

fn median_threshold_of(b: &Vec<ColorCount>, ch: usize, lo: u8, hi: u8, total: u64) -> (t: u8)
    requires
        lo == channel_min(b@, ch as int),
        hi == channel_max(b@, ch as int),
        lo < hi,
        total == total_count(b@),
    ensures
        t == median_threshold(b@, ch as int),
        lo <= t < hi,
{
    let mut bins: Vec<u64> = Vec::new();
    let mut v: usize = 0;
    while v < 256
        invariant
            v <= 256,
            bins@.len() == v,
            forall|k: int| 0 <= k < v ==> bins@[k] == 0,
        decreases 256 - v,
    {
        bins.push(0);
        v += 1;
    }
    let mut i: usize = 0;
    assert(b@.take(0) =~= Seq::<ColorCount>::empty());
    while i < b.len()
        invariant
            i <= b@.len(),
            total == total_count(b@),
            bins@.len() == 256,
            forall|k: int| 0 <= k < 256 ==> bins@[k] == count_at(b@.take(i as int), ch as int, k),
        decreases b@.len() - i,
    {
        let e = b[i];
        let place = channel_of(e.color, ch) as usize;
        proof {
            assert(b@.take(i + 1).drop_last() =~= b@.take(i as int));
            lemma_total_count_prefix(b@, i + 1);
            lemma_count_upto_step(b@.take(i + 1), ch as int, place as int);
        }
        let sum = bins[place] + e.count;
        bins.set(place, sum);
        i += 1;
    }
    assert(b@.take(i as int) =~= b@);
    let mut t: u8 = lo;
    let mut below: u64 = bins[lo as usize];
    proof {
        lemma_count_upto_step(b@, ch as int, lo as int);
        lemma_count_upto_step(b@, ch as int, lo - 1);
    }
    while t < hi - 1 && (below as u128) * 2 < total as u128
        invariant
            lo <= t <= hi - 1,
            total == total_count(b@),
            bins@.len() == 256,
            forall|k: int| 0 <= k < 256 ==> bins@[k] == count_at(b@, ch as int, k),
            below == count_upto(b@, ch as int, t as int),
            least_threshold(b@, ch as int, t as int, hi - 1) == median_threshold(b@, ch as int),
        decreases hi - t,
    {
        proof {
            lemma_count_upto_step(b@, ch as int, t + 1);
        }
        t += 1;
        below = below + bins[t as usize];
    }
    t
}

fn split_box(b: &Vec<ColorCount>, ch: usize, t: u8) -> (r: (Vec<ColorCount>, Vec<ColorCount>))
    ensures
        r.0@ == lower_part(b@, ch as int, t as int),
        r.1@ == upper_part(b@, ch as int, t as int),
{
    let mut lower: Vec<ColorCount> = Vec::new();
    let mut upper: Vec<ColorCount> = Vec::new();
    let mut i: usize = 0;
    assert(b@.take(0) =~= Seq::<ColorCount>::empty());
    while i < b.len()
        invariant
            i <= b@.len(),
            lower@ == lower_part(b@.take(i as int), ch as int, t as int),
            upper@ == upper_part(b@.take(i as int), ch as int, t as int),
        decreases b@.len() - i,
    {
        let e = b[i];
        assert(b@.take(i + 1).drop_last() =~= b@.take(i as int));
        if channel_of(e.color, ch) <= t {
            lower.push(e);
        } else {
            upper.push(e);
        }
        i += 1;
    }
    assert(b@.take(i as int) =~= b@);
    (lower, upper)
}

fn pick(boxes: &Vec<Vec<ColorCount>>, weights: &Vec<u64>) -> (r: Option<usize>)
    requires
        weights@.len() == boxes@.len(),
        forall|i: int| 0 <= i < boxes@.len() ==> weights@[i] == total_count(#[trigger] boxes@[i]@),
    ensures
        r matches Some(i) ==> i == pick_box(boxes_view(boxes@), boxes@.len()),
        r is None ==> pick_box(boxes_view(boxes@), boxes@.len()) < 0,
{
    let mut best: Option<usize> = None;
    let mut i: usize = 0;
    while i < boxes.len()
        invariant
            i <= boxes@.len(),
            weights@.len() == boxes@.len(),
            forall|i: int|
                0 <= i < boxes@.len() ==> weights@[i] == total_count(#[trigger] boxes@[i]@),
            best matches Some(p) ==> p < i && p == pick_box(boxes_view(boxes@), i as nat),
            best is None ==> pick_box(boxes_view(boxes@), i as nat) < 0,
        decreases boxes@.len() - i,
    {
        assert(boxes_view(boxes@)[i as int] == boxes@[i as int]@);
        if boxes[i].len() >= 2 {
            match best {
                None => {
                    best = Some(i);
                },
                Some(p) => {
                    assert(boxes_view(boxes@)[p as int] == boxes@[p as int]@);
                    if weights[i] > weights[p] {
                        best = Some(i);
                    }
                },
            }
        }
        i += 1;
    }
    best
}

/// Cuts the box of all colours into `capacity` boxes at most.
fn median_cut_boxes(hist: Vec<ColorCount>, capacity: usize, method: MethodForLargest) -> (boxes:
    Vec<Vec<ColorCount>>)
    requires
        box_ok(hist@),
    ensures
        boxes_view(boxes@) == median_cut(seq![hist@], capacity as nat, method),
        forall|i: int| 0 <= i < boxes@.len() ==> box_ok(#[trigger] boxes@[i]@),
{
    let ghost start = seq![hist@];
    let w = weigh(&hist);
    let mut boxes: Vec<Vec<ColorCount>> = Vec::new();
    let mut weights: Vec<u64> = Vec::new();
    boxes.push(hist);
    weights.push(w);
    assert(boxes_view(boxes@) =~= start);
    let mut done = false;
    while !done && boxes.len() < capacity
        invariant
            weights@.len() == boxes@.len(),
            forall|i: int|
                0 <= i < boxes@.len() ==> box_ok(#[trigger] boxes@[i]@) && weights@[i]
                    == total_count(boxes@[i]@),
            median_cut(boxes_view(boxes@), capacity as nat, method) == median_cut(
                start,
                capacity as nat,
                method,
            ),
            done ==> pick_box(boxes_view(boxes@), boxes@.len()) < 0,
        decreases capacity - boxes@.len() + (if done { 0int } else { 1int }),
    {
        let ghost before = boxes_view(boxes@);
        match pick(&boxes, &weights) {
            None => {
                done = true;
            },
            Some(i) => {
                proof {
                    lemma_pick_box(before, before.len());
                    assert(before[i as int] == boxes@[i as int]@);
                    lemma_largest_dimension_has_range(boxes@[i as int]@, method);
                }
                let b = &boxes[i];
                let ghost full = b@;
                let ch = largest_dimension_of(b, method);
                let (lo, hi) = box_bounds(b, ch);
                let t = median_threshold_of(b, ch, lo, hi, weights[i]);
                let (lower, upper) = split_box(b, ch, t);
                proof {
                    lemma_split_keeps_boxes(full, ch as int);
                    lemma_parts(full, ch as int, t as int);
                }
                let lower_weight = weigh(&lower);
                let upper_weight = weights[i] - lower_weight;
                boxes.set(i, lower);
                boxes.push(upper);
                weights.set(i, lower_weight);
                weights.push(upper_weight);
                proof {
                    assert(boxes_view(boxes@) =~= split_step(before, method));
                }
            },
        }
    }
    boxes
}

fn representative_channel_of(b: &Vec<ColorCount>, rep: MethodForRepColor, ch: usize) -> (v: u8)
    requires
        box_ok(b@),
    ensures
        v == representative_channel(b@, rep, ch as int),
{
    match rep {
        MethodForRepColor::AverageColor => {
            let mut sum: u128 = 0;
            let mut i: usize = 0;
            assert(b@.take(0) =~= Seq::<ColorCount>::empty());
            while i < b.len()
                invariant
                    i <= b@.len(),
                    sum == channel_sum(b@.take(i as int), ch as int),
                    sum <= 255 * i,
                decreases b@.len() - i,
            {
                assert(b@.take(i + 1).drop_last() =~= b@.take(i as int));
                sum = sum + channel_of(b[i].color, ch) as u128;
                i += 1;
            }
            assert(b@.take(i as int) =~= b@);
            let n = b.len() as u128;
            proof {
                lemma_div_is_ordered(sum as int, 255 * n, n as int);
                lemma_div_by_multiple(255, n as int);
            }
            (sum / n) as u8
        },
        MethodForRepColor::AveragePixels => {
            let mut sum: u128 = 0;
            let mut i: usize = 0;
            assert(b@.take(0) =~= Seq::<ColorCount>::empty());
            while i < b.len()
                invariant
                    i <= b@.len(),
                    total_count(b@) <= u64::MAX,
                    sum == channel_pixel_sum(b@.take(i as int), ch as int),
                    sum <= 255 * total_count(b@.take(i as int)),
                decreases b@.len() - i,
            {
                proof {
                    assert(b@.take(i + 1).drop_last() =~= b@.take(i as int));
                    lemma_total_count_prefix(b@, i + 1);
                    lemma_total_count_prefix(b@, i as int);
                }
                let e = b[i];
                let c = channel_of(e.color, ch) as u128;
                let k = e.count as u128;
                assert(c * k <= 255 * k) by (nonlinear_arith)
                    requires
                        c <= 255,
                        k >= 0,
                ;
                sum = sum + c * k;
                i += 1;
            }
            assert(b@.take(i as int) =~= b@);
            let n = weigh(b) as u128;
            proof {
                assert(b@[0].count >= 1);
                assert(n >= 1) by {
                    lemma_total_count_prefix(b@, 1);
                    assert(b@.take(1).drop_last() =~= Seq::<ColorCount>::empty());
                    assert(total_count(b@.take(1)) == b@[0].count) by {
                        assert(b@.take(1).last() == b@[0]);
                        assert(total_count(b@.take(1).drop_last()) == 0);
                    }
                }
                lemma_div_is_ordered(sum as int, 255 * n, n as int);
                lemma_div_by_multiple(255, n as int);
            }
            (sum / n) as u8
        },
        _ => {
            let (lo, hi) = box_bounds(b, ch);
            ((lo as u16 + hi as u16) / 2) as u8
        },
    }
}

fn representative_of(b: &Vec<ColorCount>, rep: MethodForRepColor) -> (c: Rgb)
    requires
        box_ok(b@),
    ensures
        c == representative(b@, rep),
{
    Rgb {
        r: representative_channel_of(b, rep, 0),
        g: representative_channel_of(b, rep, 1),
        b: representative_channel_of(b, rep, 2),
    }
}

fn step_of(quality: QualityMode, n: usize) -> (step: usize)
    ensures
        step == sample_step(quality, n as nat),
        step >= 1,
{
    match quality {
        QualityMode::Low => if n / LOW_SAMPLES >= 1 {
            n / LOW_SAMPLES
        } else {
            1
        },
        QualityMode::High => if n / HIGH_SAMPLES >= 1 {
            n / HIGH_SAMPLES
        } else {
            1
        },
        _ => 1,
    }
}

fn sample_colors(view: &RasterView, step: usize) -> (v: Vec<Rgb>)
    requires
        view.wf(),
        step >= 1,
    ensures
        v@ == sampled(view.pixels(), step as nat),
        v@.len() >= 1,
{
    let n = view.len();
    let mut v: Vec<Rgb> = Vec::new();
    let mut i: usize = 0;
    assert(0 * step == 0);
    while i < n
        invariant
            view.wf(),
            n == view.pixel_count(),
            n > 0,
            step >= 1,
            i <= n,
            i < n ==> i == v@.len() * step,
            i == n ==> (v@.len() - 1) * step < n <= v@.len() * step,
            forall|k: int| 0 <= k < v@.len() ==> v@[k] == view.pixels()[k * step],
        decreases n - i,
    {
        let ghost count = v@.len() as int;
        assert((count + 1) * step == count * step + step) by (nonlinear_arith);
        v.push(view.pixel(i));
        if step >= n - i {
            i = n;
        } else {
            i += step;
        }
    }
    proof {
        let count = v@.len() as int;
        let x = n + step - 1;
        assert((count - 1) * step == count * step - step) by (nonlinear_arith);
        lemma_fundamental_div_mod_converse(x, step as int, count, x - count * step);
        assert(v@ =~= sampled(view.pixels(), step as nat));
    }
    v
}

/// Builds the palette of a raster: `capacity` colours at most, chosen as
/// the policy says. Fails with [`status::BAD_INPUT`] unless the capacity
/// is between 1 and `PALETTE_MAX`.
pub fn make_palette(
    view: &RasterView,
    capacity: usize,
    largest: MethodForLargest,
    rep: MethodForRepColor,
    quality: QualityMode,
) -> (r: Result<Palette, SixelError>)
    requires
        view.wf(),
    ensures
        r is Ok <==> 1 <= capacity <= PALETTE_MAX,
        r matches Ok(p) ==> p.wf() && 1 <= p@.len() <= capacity && p@ == raster_palette(
            view.pixels(),
            capacity as nat,
            largest,
            rep,
            quality,
        ),
        r matches Err(e) ==> e == SixelError::Sixel(status::BAD_INPUT),
{
    if capacity < 1 || capacity > PALETTE_MAX {
        return Err(SixelError::Sixel(status::BAD_INPUT));
    }
    let step = step_of(quality, view.len());
    let sample = sample_colors(view, step);
    let hist = count_colors(&sample);
    proof {
        lemma_palette_colors_len(sample@, capacity as nat, largest, rep);
        lemma_distinct_len(sample@);
        lemma_distinct_no_duplicates(sample@);
    }
    let mut colors: Vec<Rgb> = Vec::new();
    if hist.len() <= capacity {
        let mut i: usize = 0;
        while i < hist.len()
            invariant
                i <= hist@.len(),
                hist@ == histogram(sample@),
                colors@ == distinct_colors(sample@).take(i as int),
            decreases hist@.len() - i,
        {
            colors.push(hist[i].color);
            assert(distinct_colors(sample@).take(i + 1) =~= distinct_colors(sample@).take(
                i as int,
            ).push(distinct_colors(sample@)[i as int]));
            i += 1;
        }
        assert(distinct_colors(sample@).take(i as int) =~= distinct_colors(sample@));
    } else {
        proof {
            let d = distinct_colors(sample@);
            assert forall|i: int, j: int| 0 <= i < j < hist@.len() implies (
            #[trigger] hist@[i]).color != (#[trigger] hist@[j]).color by {
                assert(hist@[i].color == d[i] && hist@[j].color == d[j]);
            }
            assert(total_count(hist@) == sample.len());
        }
        let boxes = median_cut_boxes(hist, capacity, largest);
        let ghost cut = median_cut(seq![histogram(sample@)], capacity as nat, largest);
        let mut i: usize = 0;
        while i < boxes.len()
            invariant
                i <= boxes@.len(),
                boxes_view(boxes@) == cut,
                forall|i: int| 0 <= i < boxes@.len() ==> box_ok(#[trigger] boxes@[i]@),
                colors@.len() == i,
                forall|k: int| 0 <= k < i ==> colors@[k] == representative(cut[k], rep),
            decreases boxes@.len() - i,
        {
            assert(boxes_view(boxes@)[i as int] == boxes@[i as int]@);
            colors.push(representative_of(&boxes[i], rep));
            i += 1;
        }
        assert(colors@ =~= palette_colors(sample@, capacity as nat, largest, rep));
    }
    Ok(Palette { colors })
}

} // verus!
