//! The colours of a pixel sequence, each once, with the number of pixels
//! that have it.

use vstd::prelude::*;
use std::collections::HashMap;
use crate::pixel::Rgb;

verus! {

broadcast use vstd::std_specs::hash::group_hash_axioms;

/// A colour, and the number of pixels that have it.
#[derive(Debug, Clone, Copy, PartialEq, Eq, Structural)]
pub struct ColorCount {
    pub color: Rgb,
    pub count: u64,
}

/// The number of pixels of colour `c`.
pub open spec fn occurrences(pixels: Seq<Rgb>, c: Rgb) -> nat
    decreases pixels.len(),
{
    if pixels.len() == 0 {
        0
    } else {
        occurrences(pixels.drop_last(), c) + if pixels.last() == c {
            1nat
        } else {
            0
        }
    }
}

/// The colours of the pixels, each once, in the order in which they first occur.
pub open spec fn distinct_colors(pixels: Seq<Rgb>) -> Seq<Rgb>
    decreases pixels.len(),
{
    if pixels.len() == 0 {
        Seq::empty()
    } else {
        let before = distinct_colors(pixels.drop_last());
        if before.contains(pixels.last()) {
            before
        } else {
            before.push(pixels.last())
        }
    }
}

/// The distinct colours in order of first occurrence, each with its number of pixels.
pub open spec fn histogram(pixels: Seq<Rgb>) -> Seq<ColorCount> {
    let d = distinct_colors(pixels);
    Seq::new(d.len(), |i: int| ColorCount { color: d[i], count: occurrences(pixels, d[i]) as u64 })
}

/// The number of pixels that the entries stand for.
pub open spec fn total_count(entries: Seq<ColorCount>) -> nat
    decreases entries.len(),
{
    if entries.len() == 0 {
        0
    } else {
        total_count(entries.drop_last()) + entries.last().count as nat
    }
}

/// A colour has no more pixels than there are.
pub proof fn lemma_occurrences_bound(pixels: Seq<Rgb>, c: Rgb)
    ensures
        occurrences(pixels, c) <= pixels.len(),
    decreases pixels.len(),
{
    if pixels.len() > 0 {
        lemma_occurrences_bound(pixels.drop_last(), c);
    }
}

/// A colour is among the distinct colours exactly when some pixel has it.
pub proof fn lemma_distinct_contains(pixels: Seq<Rgb>, c: Rgb)
    ensures
        distinct_colors(pixels).contains(c) <==> occurrences(pixels, c) > 0,
        distinct_colors(pixels).contains(c) <==> pixels.contains(c),
    decreases pixels.len(),
{
    if pixels.len() > 0 {
        let rest = pixels.drop_last();
        let before = distinct_colors(rest);
        lemma_distinct_contains(rest, c);
        lemma_distinct_contains(rest, pixels.last());
        if pixels.contains(c) {
            let i = choose|i: int| 0 <= i < pixels.len() && pixels[i] == c;
            if i < pixels.len() - 1 {
                assert(rest[i] == c);
            }
        }
        if rest.contains(c) {
            let i = choose|i: int| 0 <= i < rest.len() && rest[i] == c;
            assert(pixels[i] == c);
        }
        if pixels.last() == c {
            assert(pixels[pixels.len() - 1] == c);
        }
        if before.contains(pixels.last()) {
        } else {
            let after = before.push(pixels.last());
            assert(after[before.len() as int] == pixels.last());
            if before.contains(c) {
                let i = choose|i: int| 0 <= i < before.len() && before[i] == c;
                assert(after[i] == c);
            }
            if after.contains(c) {
                let i = choose|i: int| 0 <= i < after.len() && after[i] == c;
                if i < before.len() {
                    assert(before[i] == c);
                }
            }
        }
    }
}

/// No colour stands twice among the distinct colours.
pub proof fn lemma_distinct_no_duplicates(pixels: Seq<Rgb>)
    ensures
        distinct_colors(pixels).no_duplicates(),
    decreases pixels.len(),
{
    if pixels.len() > 0 {
        lemma_distinct_no_duplicates(pixels.drop_last());
    }
}

/// There are no more distinct colours than pixels.
pub proof fn lemma_distinct_len(pixels: Seq<Rgb>)
    ensures
        distinct_colors(pixels).len() <= pixels.len(),
        pixels.len() > 0 ==> distinct_colors(pixels).len() > 0,
    decreases pixels.len(),
{
    if pixels.len() > 0 {
        lemma_distinct_len(pixels.drop_last());
    }
}

/// Changing one entry changes the total by the change of its count.
pub proof fn lemma_total_count_update(entries: Seq<ColorCount>, k: int, e: ColorCount)
    requires
        0 <= k < entries.len(),
    ensures
        total_count(entries.update(k, e)) == total_count(entries) - entries[k].count + e.count,
    decreases entries.len(),
{
    let after = entries.update(k, e);
    if k == entries.len() - 1 {
        assert(after.drop_last() =~= entries.drop_last());
    } else {
        assert(after.drop_last() =~= entries.drop_last().update(k, e));
        lemma_total_count_update(entries.drop_last(), k, e);
    }
}

/// The key under which a colour is looked up.
pub open spec fn color_key(c: Rgb) -> u32 {
    (c.r as u32 * 65536 + c.g as u32 * 256 + c.b as u32) as u32
}

fn key_of(c: Rgb) -> (k: u32)
    ensures
        k == color_key(c),
{
    (c.r as u32) * 65536 + (c.g as u32) * 256 + (c.b as u32)
}

proof fn lemma_color_key_injective(a: Rgb, b: Rgb)
    requires
        color_key(a) == color_key(b),
    ensures
        a == b,
{
}

/// Counts the pixels of each colour.
pub fn count_colors(pixels: &Vec<Rgb>) -> (hist: Vec<ColorCount>)
    ensures
        hist@ == histogram(pixels@),
        total_count(hist@) == pixels@.len(),
        forall|k: int| 0 <= k < hist@.len() ==> (#[trigger] hist@[k]).count >= 1,
{
    let n = pixels.len();
    let mut entries: Vec<ColorCount> = Vec::new();
    let mut places: HashMap<u32, usize> = HashMap::new();
    let mut j: usize = 0;
    assert(pixels@.take(0) =~= Seq::<Rgb>::empty());
    while j < n
        invariant
            n == pixels@.len(),
            j <= n,
            entries@.len() == distinct_colors(pixels@.take(j as int)).len(),
            forall|k: int|
                0 <= k < entries@.len() ==> (#[trigger] entries@[k]).color == distinct_colors(
                    pixels@.take(j as int),
                )[k] && entries@[k].count == occurrences(
                    pixels@.take(j as int),
                    distinct_colors(pixels@.take(j as int))[k],
                ) && entries@[k].count >= 1,
            forall|k: int|
                0 <= k < entries@.len() ==> places@.contains_key(
                    #[trigger] color_key(distinct_colors(pixels@.take(j as int))[k]),
                ) && places@[color_key(distinct_colors(pixels@.take(j as int))[k])] == k,
            forall|x: u32| #[trigger]
                places@.contains_key(x) ==> places@[x] < entries@.len() && color_key(
                    distinct_colors(pixels@.take(j as int))[places@[x] as int],
                ) == x,
            total_count(entries@) == j,
        decreases n - j,
    {
        let x = pixels[j];
        let ghost p = pixels@.take(j as int);
        let ghost q = pixels@.take(j + 1);
        let ghost d = distinct_colors(p);
        let ghost old_entries = entries@;
        proof {
            assert(q.drop_last() =~= p);
            assert(q.last() == x);
            lemma_distinct_no_duplicates(p);
            lemma_distinct_contains(p, x);
        }
        let key = key_of(x);
        let found = places.get(&key);
        match found {
            Some(place) => {
                let k = *place;
                proof {
                    lemma_color_key_injective(d[k as int], x);
                    assert(d.contains(x));
                    assert(distinct_colors(q) == d);
                    lemma_occurrences_bound(p, x);
                }
                let e = entries[k];
                entries.set(k, ColorCount { color: e.color, count: e.count + 1 });
                proof {
                    lemma_total_count_update(
                        old_entries,
                        k as int,
                        ColorCount { color: e.color, count: (e.count + 1) as u64 },
                    );
                    assert forall|m: int| 0 <= m < entries@.len() implies (
                    #[trigger] entries@[m]).color == d[m] && entries@[m].count == occurrences(
                        q,
                        d[m],
                    ) && entries@[m].count >= 1 by {
                        assert(old_entries[m].color == d[m]);
                        if m != k {
                            assert(d[m] != d[k as int]);
                        }
                    }
                }
            },
            None => {
                proof {
                    if d.contains(x) {
                        let m = choose|m: int| 0 <= m < d.len() && d[m] == x;
                        assert(places@.contains_key(color_key(d[m])));
                    }
                    assert(distinct_colors(q) == d.push(x));
                    assert(occurrences(p, x) == 0);
                }
                entries.push(ColorCount { color: x, count: 1 });
                places.insert(key, entries.len() - 1);
                proof {
                    assert(entries@.drop_last() =~= old_entries);
                    let dq = distinct_colors(q);
                    assert forall|m: int| 0 <= m < entries@.len() implies (
                    #[trigger] entries@[m]).color == dq[m] && entries@[m].count == occurrences(
                        q,
                        dq[m],
                    ) && entries@[m].count >= 1 by {
                        if m < d.len() {
                            assert(old_entries[m].color == d[m]);
                            assert(d[m] != x);
                        }
                    }
                    assert forall|m: int| 0 <= m < entries@.len() implies places@.contains_key(
                        #[trigger] color_key(dq[m]),
                    ) && places@[color_key(dq[m])] == m by {
                        if m < d.len() {
                            assert(d[m] != x);
                            if color_key(d[m]) == key {
                                lemma_color_key_injective(d[m], x);
                            }
                        }
                    }
                }
            },
        }
        j += 1;
    }
    proof {
        assert(pixels@.take(n as int) =~= pixels@);
        let d = distinct_colors(pixels@);
        assert forall|k: int| 0 <= k < entries@.len() implies entries@[k] == histogram(
            pixels@,
        )[k] by {
            lemma_occurrences_bound(pixels@, d[k]);
        }
        assert(entries@ =~= histogram(pixels@));
    }
    entries
}

} // verus!
