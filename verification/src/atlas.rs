//! The glyph atlas cache: a fixed-size single-channel pixel buffer into
//! which glyph bitmaps are packed shelf by shelf (rows stacked top to
//! bottom, glyphs placed left to right within a row). Each resident glyph
//! carries a recency mark; when the atlas runs out of room, whole shelves
//! are evicted least-recently-used first.

use vstd::prelude::*;

verus! {

/// Identity of a cached rasterization: font, glyph index, pixel scale
/// (quantized), and quantized sub-pixel offset.
#[derive(Clone, Copy, Debug, PartialEq, Eq, Structural)]
pub struct GlyphKey {
    pub font_id: u32,
    pub glyph: u16,
    pub scale: u32,
    pub offset_x: u8,
    pub offset_y: u8,
}

/// A rectangle inside the atlas bitmap, in pixels.
#[derive(Clone, Copy, Debug, PartialEq, Eq, Structural)]
pub struct RectPx {
    pub x: usize,
    pub y: usize,
    pub width: usize,
    pub height: usize,
}

/// One packing row: it spans the full atlas width at vertical offset `y`,
/// is `height` pixels tall, and has been filled left to right up to
/// `cursor`.
#[derive(Clone, Copy, Debug, PartialEq, Eq, Structural)]
pub struct Shelf {
    pub y: usize,
    pub height: usize,
    pub cursor: usize,
}

/// A resident glyph: its key, the shelf it sits on, its rectangle inside
/// the atlas, and the recency mark of its last request.
#[derive(Clone, Copy, Debug, PartialEq, Eq, Structural)]
pub struct AtlasEntry {
    pub key: GlyphKey,
    pub shelf: usize,
    pub rect: RectPx,
    pub last_used: u64,
}

/// Result of a cache lookup: either the packed rectangle of a resident
/// glyph, or a note that the glyph was scheduled for rasterization.
#[derive(Clone, Copy, Debug, PartialEq, Eq, Structural)]
pub enum GlyphLookup {
    Resident(RectPx),
    Pending,
}

/// A rasterized glyph handed to `flush`: `data` holds `width * height`
/// grayscale coverage bytes in row-major order.
pub struct GlyphBitmap {
    pub key: GlyphKey,
    pub width: usize,
    pub height: usize,
    pub data: Vec<u8>,
}

/// Two rectangles intersect in no pixel.
pub open spec fn rects_disjoint(a: RectPx, b: RectPx) -> bool {
    ||| a.x + a.width <= b.x
    ||| b.x + b.width <= a.x
    ||| a.y + a.height <= b.y
    ||| b.y + b.height <= a.y
}

/// Total height of the first `n` shelves.
pub open spec fn sum_heights(shelves: Seq<Shelf>, n: int) -> int
    decreases n,
{
    if n <= 0 {
        0
    } else {
        sum_heights(shelves, n - 1) + shelves[n - 1].height
    }
}

/// `sum_heights` reads only the heights of the first `n` shelves, so two
/// shelf sequences that agree on those heights have the same sum.
proof fn lemma_sum_heights_congruence(s1: Seq<Shelf>, s2: Seq<Shelf>, n: int)
    requires
        n <= s1.len(),
        n <= s2.len(),
        forall|i: int| 0 <= i < n ==> s1[i].height == s2[i].height,
    ensures
        sum_heights(s1, n) == sum_heights(s2, n),
    decreases n,
{
    if n > 0 {
        lemma_sum_heights_congruence(s1, s2, n - 1);
    }
}

/// Prefix sums of shelf heights are monotone.
proof fn lemma_sum_heights_mono(s: Seq<Shelf>, i: int, j: int)
    requires
        0 <= i <= j <= s.len(),
    ensures
        sum_heights(s, i) <= sum_heights(s, j),
    decreases j,
{
    if i < j {
        lemma_sum_heights_mono(s, i, j - 1);
    }
}

/// The subsequence of `es` whose entries do not sit on shelf `s`, in
/// their original order.
pub open spec fn without_shelf(es: Seq<AtlasEntry>, s: usize) -> Seq<AtlasEntry>
    decreases es.len(),
{
    if es.len() == 0 {
        Seq::empty()
    } else if es.last().shelf == s {
        without_shelf(es.drop_last(), s)
    } else {
        without_shelf(es.drop_last(), s).push(es.last())
    }
}

/// Maximum recency mark among the first `n` entries that sit on shelf
/// `s`, or -1 when none of them does.
pub open spec fn recency_upto(es: Seq<AtlasEntry>, s: usize, n: int) -> int
    decreases n,
{
    if n <= 0 {
        -1
    } else if es[n - 1].shelf == s {
        if es[n - 1].last_used as int >= recency_upto(es, s, n - 1) {
            es[n - 1].last_used as int
        } else {
            recency_upto(es, s, n - 1)
        }
    } else {
        recency_upto(es, s, n - 1)
    }
}

/// What removing a shelf's entries keeps: exactly the entries of the
/// other shelves, fewer of them when the shelf was occupied.
proof fn lemma_without_shelf(es: Seq<AtlasEntry>, s: usize)
    ensures
        without_shelf(es, s).len() <= es.len(),
        forall|i: int| 0 <= i < without_shelf(es, s).len()
            ==> (#[trigger] without_shelf(es, s)[i]).shelf != s
                && es.contains(without_shelf(es, s)[i]),
        forall|k: int| 0 <= k < es.len() && (#[trigger] es[k]).shelf != s
            ==> without_shelf(es, s).contains(es[k]),
        (exists|k: int| 0 <= k < es.len() && es[k].shelf == s)
            ==> without_shelf(es, s).len() < es.len(),
    decreases es.len(),
{
    if es.len() > 0 {
        let d = es.drop_last();
        let w = without_shelf(es, s);
        let wd = without_shelf(d, s);
        lemma_without_shelf(d, s);
        assert forall|i: int| 0 <= i < w.len()
            implies (#[trigger] w[i]).shelf != s && es.contains(w[i]) by {
            if i < wd.len() {
                assert(wd[i].shelf != s && d.contains(wd[i]));
                let k = choose|k: int| 0 <= k < d.len() && d[k] == wd[i];
                assert(es[k] == w[i]);
            } else {
                assert(w[i] == es.last());
                assert(es[es.len() - 1] == es.last());
            }
        }
        assert forall|k: int| 0 <= k < es.len() && (#[trigger] es[k]).shelf != s
            implies w.contains(es[k]) by {
            if k < es.len() - 1 {
                assert(d[k] == es[k]);
                assert(wd.contains(es[k]));
                let i = choose|i: int| 0 <= i < wd.len() && wd[i] == es[k];
                assert(w[i] == es[k]);
            } else {
                assert(es.last().shelf != s);
                assert(w.last() == es.last());
                assert(w[w.len() - 1] == es[k]);
            }
        }
        if exists|k: int| 0 <= k < es.len() && es[k].shelf == s {
            let k = choose|k: int| 0 <= k < es.len() && es[k].shelf == s;
            if es.last().shelf == s {
                assert(w.len() <= d.len());
            } else {
                assert(k < es.len() - 1);
                assert(d[k].shelf == s);
                assert(wd.len() < d.len());
            }
        }
    }
}

/// Removing a shelf's entries keeps the remaining keys pairwise
/// distinct.
proof fn lemma_without_shelf_distinct(es: Seq<AtlasEntry>, s: usize)
    requires
        forall|i: int, j: int| 0 <= i < es.len() && 0 <= j < es.len() && i != j
            ==> #[trigger] es[i].key != #[trigger] es[j].key,
    ensures
        forall|i: int, j: int|
            0 <= i < without_shelf(es, s).len() && 0 <= j < without_shelf(es, s).len() && i != j
                ==> (#[trigger] without_shelf(es, s)[i]).key
                    != (#[trigger] without_shelf(es, s)[j]).key,
    decreases es.len(),
{
    if es.len() > 0 {
        let d = es.drop_last();
        let w = without_shelf(es, s);
        let wd = without_shelf(d, s);
        lemma_without_shelf_distinct(d, s);
        lemma_without_shelf(d, s);
        if es.last().shelf != s {
            assert forall|i: int, j: int|
                0 <= i < w.len() && 0 <= j < w.len() && i != j
                implies (#[trigger] w[i]).key != (#[trigger] w[j]).key by {
                if i < wd.len() && j < wd.len() {
                    assert(wd[i].key != wd[j].key);
                } else if i < wd.len() {
                    assert(d.contains(wd[i]));
                    let k = choose|k: int| 0 <= k < d.len() && d[k] == wd[i];
                    assert(es[k] == w[i]);
                    assert(es[k].key != es[es.len() - 1].key);
                    assert(w[j] == es.last());
                } else {
                    assert(d.contains(wd[j]));
                    let k = choose|k: int| 0 <= k < d.len() && d[k] == wd[j];
                    assert(es[k] == w[j]);
                    assert(es[k].key != es[es.len() - 1].key);
                    assert(w[i] == es.last());
                }
            }
        }
    }
}

/// The byte of a row-major pixel buffer at column `x`, row `y`.
pub open spec fn pixel_at(pixels: Seq<u8>, stride: int, x: int, y: int) -> u8 {
    pixels[y * stride + x]
}

/// Buffer position `p` falls inside `rect` when rows are `stride` wide.
pub open spec fn covered(rect: RectPx, stride: int, p: int) -> bool {
    &&& rect.y <= p / stride < rect.y + rect.height
    &&& rect.x <= p % stride < rect.x + rect.width
}

/// The window of `pixels` under `rect` holds exactly the `data` bitmap.
pub open spec fn region_matches(pixels: Seq<u8>, stride: int, rect: RectPx, data: Seq<u8>) -> bool {
    forall|dy: int, dx: int|
        0 <= dy < rect.height && 0 <= dx < rect.width
            ==> pixel_at(pixels, stride, rect.x + dx, rect.y + dy)
                == #[trigger] pixel_at(data, rect.width as int, dx, dy)
}

/// Every element of a sequence is contained in it.
proof fn lemma_seq_contains_self(es: Seq<AtlasEntry>)
    ensures
        forall|i: int| 0 <= i < es.len() ==> es.contains(#[trigger] es[i]),
{
}

/// A buffer position written as `y * stride + x` with `x` inside the row
/// decomposes back into that row and column.
proof fn lemma_index_decompose(stride: int, x: int, y: int)
    requires
        0 < stride,
        0 <= x < stride,
        0 <= y,
    ensures
        (y * stride + x) / stride == y,
        (y * stride + x) % stride == x,
{
    vstd::arithmetic::div_mod::lemma_fundamental_div_mod_converse_div(
        y * stride + x, stride, y, x,
    );
    vstd::arithmetic::div_mod::lemma_fundamental_div_mod_converse_mod(
        y * stride + x, stride, y, x,
    );
}

/// Copies a `rect.width` by `rect.height` bitmap into the pixel buffer at
/// `rect`'s offset, row by row, touching nothing outside the rectangle.
pub fn blit(pixels: &mut Vec<u8>, stride: usize, rect: RectPx, data: &Vec<u8>)
    requires
        1 <= stride,
        rect.x + rect.width <= stride,
        (rect.y + rect.height) * stride <= old(pixels)@.len(),
        data@.len() == rect.width * rect.height,
    ensures
        final(pixels)@.len() == old(pixels)@.len(),
        region_matches(final(pixels)@, stride as int, rect, data@),
        forall|p: int|
            0 <= p < old(pixels)@.len() && !covered(rect, stride as int, p)
                ==> final(pixels)@[p] == old(pixels)@[p],
{
    proof {
        vstd::arithmetic::mul::lemma_mul_nonnegative(
            (rect.y + rect.height) as int, stride as int,
        );
    }
    let total: usize = pixels.len();
    let dlen: usize = data.len();
    proof {
        assert(rect.y + rect.height <= (rect.y + rect.height) * (stride as int))
            by (nonlinear_arith)
            requires
                1 <= stride,
                0 <= rect.y + rect.height,
        ;
    }
    let mut dy: usize = 0;
    while dy < rect.height
        invariant
            1 <= stride,
            rect.x + rect.width <= stride,
            (rect.y + rect.height) * stride <= old(pixels)@.len(),
            data@.len() == rect.width * rect.height,
            pixels@.len() == old(pixels)@.len(),
            total == old(pixels)@.len(),
            dlen == data@.len(),
            rect.y + rect.height <= total,
            dy <= rect.height,
            forall|yy: int, xx: int|
                0 <= yy < dy && 0 <= xx < rect.width
                    ==> pixel_at(pixels@, stride as int, rect.x + xx, rect.y + yy)
                        == #[trigger] pixel_at(data@, rect.width as int, xx, yy),
            forall|p: int|
                0 <= p < old(pixels)@.len() && !covered(rect, stride as int, p)
                    ==> pixels@[p] == old(pixels)@[p],
        decreases rect.height - dy,
    {
        proof {
            assert((rect.y + dy + 1) * (stride as int) <= (rect.y + rect.height) * (stride as int))
                by (nonlinear_arith)
                requires
                    rect.y + dy + 1 <= rect.y + rect.height,
                    1 <= stride,
            ;
            assert((rect.y + dy + 1) * (stride as int)
                == (rect.y + dy) * (stride as int) + stride) by (nonlinear_arith);
            vstd::arithmetic::mul::lemma_mul_nonnegative((rect.y + dy) as int, stride as int);
            assert((dy + 1) * (rect.width as int)
                <= (rect.height as int) * (rect.width as int)) by (nonlinear_arith)
                requires
                    dy + 1 <= rect.height,
                    0 <= rect.width,
            ;
            assert((dy + 1) * (rect.width as int)
                == dy * (rect.width as int) + rect.width) by (nonlinear_arith);
            vstd::arithmetic::mul::lemma_mul_nonnegative(dy as int, rect.width as int);
            assert((rect.height as int) * (rect.width as int)
                == rect.width * rect.height) by (nonlinear_arith);
        }
        let row_base: usize = (rect.y + dy) * stride + rect.x;
        let src_base: usize = dy * rect.width;
        let mut dx: usize = 0;
        while dx < rect.width
            invariant
                1 <= stride,
                rect.x + rect.width <= stride,
                (rect.y + rect.height) * stride <= old(pixels)@.len(),
                data@.len() == rect.width * rect.height,
                pixels@.len() == old(pixels)@.len(),
                total == old(pixels)@.len(),
                dlen == data@.len(),
                dy < rect.height,
                dx <= rect.width,
                row_base == (rect.y + dy) * stride + rect.x,
                src_base == dy * rect.width,
                row_base + rect.width <= (rect.y + dy + 1) * stride,
                (rect.y + dy + 1) * stride <= old(pixels)@.len(),
                src_base + rect.width <= data@.len(),
                forall|yy: int, xx: int|
                    0 <= yy < dy && 0 <= xx < rect.width
                        ==> pixel_at(pixels@, stride as int, rect.x + xx, rect.y + yy)
                            == #[trigger] pixel_at(data@, rect.width as int, xx, yy),
                forall|xx: int|
                    0 <= xx < dx
                        ==> pixel_at(pixels@, stride as int, rect.x + xx, rect.y + dy as int)
                            == #[trigger] pixel_at(data@, rect.width as int, xx, dy as int),
                forall|p: int|
                    0 <= p < old(pixels)@.len() && !covered(rect, stride as int, p)
                        ==> pixels@[p] == old(pixels)@[p],
            decreases rect.width - dx,
        {
            let idx: usize = row_base + dx;
            let b: u8 = data[src_base + dx];
            let ghost prev_pixels = pixels@;
            pixels[idx] = b;
            proof {
                lemma_index_decompose(stride as int, (rect.x + dx) as int, (rect.y + dy) as int);
                assert(covered(rect, stride as int, idx as int));
                assert(pixel_at(pixels@, stride as int, rect.x + dx as int, rect.y + dy as int)
                    == pixel_at(data@, rect.width as int, dx as int, dy as int));
                assert forall|yy: int, xx: int|
                    0 <= yy < dy && 0 <= xx < rect.width
                    implies pixel_at(pixels@, stride as int, rect.x + xx, rect.y + yy)
                        == #[trigger] pixel_at(data@, rect.width as int, xx, yy) by {
                    lemma_index_decompose(stride as int, rect.x + xx, rect.y + yy);
                    assert((rect.y + yy) * (stride as int) + rect.x + xx
                        < (rect.y + dy) * (stride as int) + rect.x + dx) by (nonlinear_arith)
                        requires
                            0 <= yy < dy,
                            0 <= xx < rect.width,
                            0 <= dx,
                            rect.x + rect.width <= stride,
                            0 <= rect.x,
                            0 <= rect.y,
                    ;
                    assert(pixel_at(prev_pixels, stride as int, rect.x + xx, rect.y + yy)
                        == pixel_at(pixels@, stride as int, rect.x + xx, rect.y + yy));
                }
                assert forall|xx: int|
                    0 <= xx < dx + 1
                    implies pixel_at(pixels@, stride as int, rect.x + xx, rect.y + dy as int)
                        == #[trigger] pixel_at(data@, rect.width as int, xx, dy as int) by {
                    if xx < dx {
                        assert(pixel_at(prev_pixels, stride as int, rect.x + xx, rect.y + dy as int)
                            == pixel_at(data@, rect.width as int, xx, dy as int));
                    }
                }
            }
            dx = dx + 1;
        }
        dy = dy + 1;
    }
}

/// A bitmap already in place under `rect` stays in place when the buffer
/// changes only inside a rectangle disjoint from it.
proof fn lemma_region_preserved(
    old_px: Seq<u8>,
    new_px: Seq<u8>,
    stride: int,
    rect: RectPx,
    other: RectPx,
    data: Seq<u8>,
)
    requires
        region_matches(old_px, stride, rect, data),
        new_px.len() == old_px.len(),
        1 <= stride,
        forall|p: int|
            0 <= p < old_px.len() && !covered(other, stride, p) ==> new_px[p] == old_px[p],
        rects_disjoint(rect, other),
        rect.x + rect.width <= stride,
        (rect.y + rect.height) * stride <= old_px.len(),
    ensures
        region_matches(new_px, stride, rect, data),
{
    assert forall|dy: int, dx: int|
        0 <= dy < rect.height && 0 <= dx < rect.width
        implies pixel_at(new_px, stride, rect.x + dx, rect.y + dy)
            == #[trigger] pixel_at(data, rect.width as int, dx, dy) by {
        let p = (rect.y + dy) * stride + rect.x + dx;
        lemma_index_decompose(stride, rect.x + dx, rect.y + dy);
        vstd::arithmetic::mul::lemma_mul_nonnegative(rect.y + dy, stride);
        assert((rect.y + dy) * stride + rect.x + dx < (rect.y + rect.height) * stride)
            by (nonlinear_arith)
            requires
                0 <= dy < rect.height,
                0 <= dx < rect.width,
                rect.x + rect.width <= stride,
                0 <= rect.y,
        ;
        assert(!covered(other, stride, p));
        assert(new_px[p] == old_px[p]);
        assert(pixel_at(old_px, stride, rect.x + dx, rect.y + dy)
            == pixel_at(data, rect.width as int, dx, dy));
    }
}

/// The glyph atlas cache.
pub struct Atlas {
    pub width: usize,
    pub height: usize,
    pub shelves: Vec<Shelf>,
    pub entries: Vec<AtlasEntry>,
    pub used_height: usize,
    pub tick: u64,
    pub pixels: Vec<u8>,
    pub queued: Vec<GlyphKey>,
}

impl Atlas {
    /// Shelf `i` starts right below the shelves above it and fits the
    /// atlas horizontally.
    pub open spec fn shelf_wf(self, i: int) -> bool {
        &&& self.shelves@[i].y == sum_heights(self.shelves@, i)
        &&& 1 <= self.shelves@[i].height
        &&& self.shelves@[i].cursor <= self.width
    }

    /// Entry `i` sits on its shelf, within the filled part of the row.
    pub open spec fn entry_wf(self, i: int) -> bool {
        let e = self.entries@[i];
        &&& e.shelf < self.shelves@.len()
        &&& e.rect.y == self.shelves@[e.shelf as int].y
        &&& 1 <= e.rect.height
        &&& e.rect.height <= self.shelves@[e.shelf as int].height
        &&& 1 <= e.rect.width
        &&& e.rect.x + e.rect.width <= self.shelves@[e.shelf as int].cursor
        &&& e.last_used < self.tick
    }

    /// The atlas invariant: shelves tile a prefix of the atlas height,
    /// entries sit disjointly on their shelves, no key is resident twice,
    /// and the rasterization queue holds distinct, non-resident keys.
    pub open spec fn wf(self) -> bool {
        &&& 1 <= self.width <= 0xFFFF_FFFF
        &&& 1 <= self.height <= 0xFFFF_FFFF
        &&& self.pixels@.len() == self.width * self.height
        &&& self.used_height == sum_heights(self.shelves@, self.shelves@.len() as int)
        &&& self.used_height <= self.height
        &&& forall|i: int| 0 <= i < self.shelves@.len() ==> #[trigger] self.shelf_wf(i)
        &&& forall|i: int| 0 <= i < self.entries@.len() ==> #[trigger] self.entry_wf(i)
        &&& forall|i: int, j: int|
            0 <= i < self.entries@.len() && 0 <= j < self.entries@.len() && i != j
                ==> #[trigger] self.entries@[i].key != #[trigger] self.entries@[j].key
        &&& forall|i: int, j: int|
            0 <= i < self.entries@.len() && 0 <= j < self.entries@.len() && i != j
                && #[trigger] self.entries@[i].shelf == #[trigger] self.entries@[j].shelf
                ==> self.entries@[i].rect.x + self.entries@[i].rect.width <= self.entries@[j].rect.x
                    || self.entries@[j].rect.x + self.entries@[j].rect.width <= self.entries@[i].rect.x
        &&& forall|i: int, j: int|
            0 <= i < self.queued@.len() && 0 <= j < self.queued@.len() && i != j
                ==> #[trigger] self.queued@[i] != #[trigger] self.queued@[j]
        &&& forall|i: int, j: int|
            0 <= i < self.queued@.len() && 0 <= j < self.entries@.len()
                ==> #[trigger] self.queued@[i] != #[trigger] self.entries@[j].key
    }

    /// The key has a live atlas entry.
    pub open spec fn resident(self, key: GlyphKey) -> bool {
        exists|i: int| 0 <= i < self.entries@.len() && self.entries@[i].key == key
    }

    /// Index of the (unique) live entry for a resident key.
    pub open spec fn index_of(self, key: GlyphKey) -> int {
        choose|i: int| 0 <= i < self.entries@.len() && self.entries@[i].key == key
    }

    /// The packed rectangle of a resident key.
    pub open spec fn rect_of(self, key: GlyphKey) -> RectPx {
        self.entries@[self.index_of(key)].rect
    }

    /// Shelf `s` holds at least one entry.
    pub open spec fn shelf_occupied(self, s: usize) -> bool {
        exists|k: int| 0 <= k < self.entries@.len() && self.entries@[k].shelf == s
    }

    /// Shelf `s` holds at least one entry and none of them was requested
    /// at or after mark `t0`: clearing it loses only stale glyphs.
    pub open spec fn shelf_evictable(self, s: usize, t0: u64) -> bool {
        &&& self.shelf_occupied(s)
        &&& forall|k: int| 0 <= k < self.entries@.len() && (#[trigger] self.entries@[k]).shelf == s
            ==> self.entries@[k].last_used < t0
    }

    /// The recency of shelf `s`: the mark of the most recent request
    /// among its entries, or -1 when it is empty.
    pub open spec fn shelf_recency(self, s: usize) -> int {
        recency_upto(self.entries@, s, self.entries@.len() as int)
    }

    /// Scans shelf `s`: whether it holds entries, its recency, and
    /// whether every entry on it is older than `t0`.
    fn shelf_stats(&self, s: usize, t0: u64) -> (r: (bool, u64, bool))
        ensures
            r.0 == self.shelf_occupied(s),
            r.0 ==> r.1 as int == self.shelf_recency(s),
            r.2 == self.shelf_evictable(s, t0),
    {
        let n: usize = self.entries.len();
        let mut occupied: bool = false;
        let mut recency: u64 = 0;
        let mut stale: bool = true;
        let mut i: usize = 0;
        while i < n
            invariant
                n == self.entries@.len(),
                i <= n,
                occupied == exists|k: int| 0 <= k < i && self.entries@[k].shelf == s,
                occupied ==> recency as int == recency_upto(self.entries@, s, i as int),
                !occupied ==> recency_upto(self.entries@, s, i as int) == -1,
                stale == forall|k: int|
                    0 <= k < i && (#[trigger] self.entries@[k]).shelf == s
                        ==> self.entries@[k].last_used < t0,
            decreases n - i,
        {
            let e: AtlasEntry = self.entries[i];
            if e.shelf == s {
                if !occupied || e.last_used > recency {
                    recency = e.last_used;
                }
                if e.last_used >= t0 {
                    stale = false;
                }
                occupied = true;
                proof {
                    assert(self.entries@[i as int].shelf == s);
                }
            }
            i = i + 1;
        }
        (occupied, recency, occupied && stale)
    }

    /// Chooses the eviction victim: among the shelves whose entries are
    /// all older than `t0`, one with the least recency — the
    /// least-recently-requested row. Returns nothing when no shelf can be
    /// evicted.
    pub fn choose_victim(&self, t0: u64) -> (r: Option<usize>)
        requires
            self.wf(),
        ensures
            match r {
                Some(s) => {
                    &&& (s as int) < self.shelves@.len()
                    &&& self.shelf_evictable(s, t0)
                    &&& forall|c: usize| (c as int) < self.shelves@.len()
                        && #[trigger] self.shelf_evictable(c, t0)
                            ==> self.shelf_recency(s) <= self.shelf_recency(c)
                },
                None => forall|c: usize| (c as int) < self.shelves@.len()
                    ==> !#[trigger] self.shelf_evictable(c, t0),
            },
    {
        let n: usize = self.shelves.len();
        let mut best: usize = 0;
        let mut best_recency: u64 = 0;
        let mut have: bool = false;
        let mut s: usize = 0;
        while s < n
            invariant
                self.wf(),
                n == self.shelves@.len(),
                s <= n,
                have ==> (best as int) < n && self.shelf_evictable(best, t0)
                    && best_recency as int == self.shelf_recency(best),
                have ==> forall|c: usize| (c as int) < s && #[trigger] self.shelf_evictable(c, t0)
                    ==> self.shelf_recency(best) <= self.shelf_recency(c),
                !have ==> forall|c: usize| (c as int) < s
                    ==> !#[trigger] self.shelf_evictable(c, t0),
            decreases n - s,
        {
            let (occupied, recency, evictable) = self.shelf_stats(s, t0);
            if evictable {
                if !have || recency < best_recency {
                    best = s;
                    best_recency = recency;
                    have = true;
                } else {
                    proof {
                        assert(self.shelf_recency(best) <= self.shelf_recency(s));
                    }
                }
            }
            s = s + 1;
        }
        if have {
            Some(best)
        } else {
            None
        }
    }

    /// Clears shelf `s`: drops every entry on it and resets its fill
    /// cursor, so the row can be repacked. The shelf itself (its offset
    /// and height) stays.
    fn evict_shelf(&mut self, s: usize)
        requires
            old(self).wf(),
            (s as int) < old(self).shelves@.len(),
        ensures
            final(self).wf(),
            final(self).width == old(self).width,
            final(self).height == old(self).height,
            final(self).pixels@ == old(self).pixels@,
            final(self).queued@ == old(self).queued@,
            final(self).used_height == old(self).used_height,
            final(self).tick == old(self).tick,
            final(self).shelves@.len() == old(self).shelves@.len(),
            forall|k: int| 0 <= k < old(self).shelves@.len() && k != s as int
                ==> final(self).shelves@[k] == old(self).shelves@[k],
            final(self).shelves@[s as int].y == old(self).shelves@[s as int].y,
            final(self).shelves@[s as int].height == old(self).shelves@[s as int].height,
            final(self).shelves@[s as int].cursor == 0,
            final(self).entries@ == without_shelf(old(self).entries@, s),
            final(self).entries@.len() <= old(self).entries@.len(),
            old(self).shelf_occupied(s)
                ==> final(self).entries@.len() < old(self).entries@.len(),
            forall|i: int| 0 <= i < final(self).entries@.len()
                ==> old(self).entries@.contains(#[trigger] final(self).entries@[i]),
            forall|i: int| 0 <= i < old(self).entries@.len()
                && (#[trigger] old(self).entries@[i]).shelf != s
                ==> final(self).entries@.contains(old(self).entries@[i]),
            forall|k: GlyphKey| #[trigger] final(self).resident(k)
                <==> old(self).resident(k)
                    && old(self).entries@[old(self).index_of(k)].shelf != s,
            forall|k: GlyphKey| #[trigger] final(self).resident(k)
                ==> final(self).rect_of(k) == old(self).rect_of(k),
    {
        let n: usize = self.entries.len();
        let mut kept: Vec<AtlasEntry> = Vec::new();
        let mut i: usize = 0;
        while i < n
            invariant
                n == self.entries@.len(),
                i <= n,
                *self == *old(self),
                kept@ == without_shelf(self.entries@.subrange(0, i as int), s),
            decreases n - i,
        {
            let e: AtlasEntry = self.entries[i];
            proof {
                let pre = self.entries@.subrange(0, i as int);
                let cur = self.entries@.subrange(0, i as int + 1);
                assert(cur.drop_last() =~= pre);
                assert(cur.last() == e);
            }
            if e.shelf != s {
                kept.push(e);
            }
            i = i + 1;
        }
        proof {
            assert(self.entries@.subrange(0, n as int) =~= self.entries@);
        }
        self.entries = kept;
        let sh: Shelf = self.shelves[s];
        self.shelves[s] = Shelf { cursor: 0, ..sh };
        proof {
            self.lemma_after_evict(*old(self), s);
        }
    }

    /// After removing a shelf's entries and resetting its cursor, the
    /// invariant holds and exactly the other shelves' glyphs remain.
    proof fn lemma_after_evict(self, prev: Atlas, s: usize)
        requires
            prev.wf(),
            (s as int) < prev.shelves@.len(),
            self.width == prev.width,
            self.height == prev.height,
            self.pixels@ == prev.pixels@,
            self.queued@ == prev.queued@,
            self.used_height == prev.used_height,
            self.tick == prev.tick,
            self.shelves@.len() == prev.shelves@.len(),
            forall|k: int| 0 <= k < prev.shelves@.len() && k != s as int
                ==> self.shelves@[k] == prev.shelves@[k],
            self.shelves@[s as int].y == prev.shelves@[s as int].y,
            self.shelves@[s as int].height == prev.shelves@[s as int].height,
            self.shelves@[s as int].cursor == 0,
            self.entries@ == without_shelf(prev.entries@, s),
        ensures
            self.wf(),
            self.entries@.len() <= prev.entries@.len(),
            prev.shelf_occupied(s) ==> self.entries@.len() < prev.entries@.len(),
            forall|i: int| 0 <= i < self.entries@.len()
                ==> prev.entries@.contains(#[trigger] self.entries@[i]),
            forall|i: int| 0 <= i < prev.entries@.len()
                && (#[trigger] prev.entries@[i]).shelf != s
                ==> self.entries@.contains(prev.entries@[i]),
            forall|k: GlyphKey| #[trigger] self.resident(k)
                <==> prev.resident(k) && prev.entries@[prev.index_of(k)].shelf != s,
            forall|k: GlyphKey| #[trigger] self.resident(k)
                ==> self.rect_of(k) == prev.rect_of(k),
    {
        lemma_without_shelf(prev.entries@, s);
        lemma_without_shelf_distinct(prev.entries@, s);
        let es = prev.entries@;
        let w = self.entries@;
        assert forall|i: int| 0 <= i < self.shelves@.len() implies #[trigger] self.shelf_wf(i) by {
            assert(prev.shelf_wf(i));
            lemma_sum_heights_congruence(self.shelves@, prev.shelves@, i);
        }
        lemma_sum_heights_congruence(self.shelves@, prev.shelves@, self.shelves@.len() as int);
        assert forall|i: int| 0 <= i < w.len() implies #[trigger] self.entry_wf(i) by {
            let k = choose|k: int| 0 <= k < es.len() && es[k] == w[i];
            assert(prev.entry_wf(k));
            assert(w[i].shelf != s);
            assert(self.shelves@[w[i].shelf as int] == prev.shelves@[w[i].shelf as int]);
        }
        assert forall|i: int, j: int|
            0 <= i < w.len() && 0 <= j < w.len() && i != j
                && #[trigger] w[i].shelf == #[trigger] w[j].shelf
            implies w[i].rect.x + w[i].rect.width <= w[j].rect.x
                || w[j].rect.x + w[j].rect.width <= w[i].rect.x by {
            assert(w[i].key != w[j].key);
            let k = choose|k: int| 0 <= k < es.len() && es[k] == w[i];
            let l = choose|l: int| 0 <= l < es.len() && es[l] == w[j];
            assert(k != l);
            assert(es[k].shelf == es[l].shelf);
        }
        assert forall|i: int, j: int|
            0 <= i < self.queued@.len() && 0 <= j < w.len()
            implies #[trigger] self.queued@[i] != #[trigger] w[j].key by {
            let k = choose|k: int| 0 <= k < es.len() && es[k] == w[j];
            assert(prev.queued@[i] != es[k].key);
        }
        assert forall|k: GlyphKey| #[trigger] self.resident(k)
            implies prev.resident(k) && prev.entries@[prev.index_of(k)].shelf != s
                && self.rect_of(k) == prev.rect_of(k) by {
            let i = self.index_of(k);
            assert(w[i].key == k);
            let j = choose|j: int| 0 <= j < es.len() && es[j] == w[i];
            assert(es[j].key == k);
            assert(prev.resident(k));
            let j2 = prev.index_of(k);
            assert(es[j2].key == k);
            assert(j2 == j);
            assert(es[j].shelf != s);
        }
        assert forall|k: GlyphKey|
            prev.resident(k) && prev.entries@[prev.index_of(k)].shelf != s
            implies #[trigger] self.resident(k) by {
            let j = prev.index_of(k);
            assert(es[j].key == k);
            assert(es[j].shelf != s);
            assert(w.contains(es[j]));
            let i = choose|i: int| 0 <= i < w.len() && w[i] == es[j];
            assert(w[i].key == k);
        }
    }

    /// The invariant does not read the pixel bytes or the queue order: an
    /// atlas with the same layout, a pixel buffer of the same length and
    /// a queue of distinct non-resident keys is well-formed too.
    proof fn lemma_wf_layout(self, prev: Atlas)
        requires
            prev.wf(),
            self.width == prev.width,
            self.height == prev.height,
            self.shelves@ == prev.shelves@,
            self.entries@ == prev.entries@,
            self.tick == prev.tick,
            self.used_height == prev.used_height,
            self.pixels@.len() == prev.pixels@.len(),
            forall|i: int, j: int|
                0 <= i < self.queued@.len() && 0 <= j < self.queued@.len() && i != j
                    ==> #[trigger] self.queued@[i] != #[trigger] self.queued@[j],
            forall|i: int, j: int|
                0 <= i < self.queued@.len() && 0 <= j < self.entries@.len()
                    ==> #[trigger] self.queued@[i] != #[trigger] self.entries@[j].key,
        ensures
            self.wf(),
    {
        assert forall|i: int| 0 <= i < self.shelves@.len()
            implies #[trigger] self.shelf_wf(i) by {
            assert(prev.shelf_wf(i));
        }
        assert forall|i: int| 0 <= i < self.entries@.len()
            implies #[trigger] self.entry_wf(i) by {
            assert(prev.entry_wf(i));
        }
    }

    /// A value held in the entry list is the one live entry for its key.
    proof fn lemma_contains_to_resident(self, v: AtlasEntry)
        requires
            self.wf(),
            self.entries@.contains(v),
        ensures
            self.resident(v.key),
            self.rect_of(v.key) == v.rect,
            self.entries@[self.index_of(v.key)] == v,
    {
        let i = choose|i: int| 0 <= i < self.entries@.len() && self.entries@[i] == v;
        assert(self.entries@[i].key == v.key);
        assert(self.resident(v.key));
        let j = self.index_of(v.key);
        assert(self.entries@[j].key == v.key);
        assert(j == i);
    }

    /// Bookkeeping after a placement: the entry list grew by exactly the
    /// new key's entry, everything requested at or after `t0` is still
    /// listed, and the new key's entry is the last one.
    proof fn lemma_pack_bookkeeping(self, mid: Atlas, orig: Atlas, key: GlyphKey, t0: u64)
        requires
            self.wf(),
            forall|e: int| 0 <= e < mid.entries@.len()
                ==> orig.entries@.contains(#[trigger] mid.entries@[e]),
            forall|i: int| 0 <= i < orig.entries@.len()
                && (#[trigger] orig.entries@[i]).last_used >= t0
                ==> mid.entries@.contains(orig.entries@[i]),
            self.entries@.len() == mid.entries@.len() + 1,
            forall|k: int| 0 <= k < mid.entries@.len()
                ==> self.entries@[k] == mid.entries@[k],
            self.entries@.last().key == key,
            self.entries@.last().last_used == orig.tick,
        ensures
            forall|e: int| 0 <= e < self.entries@.len()
                ==> orig.entries@.contains(#[trigger] self.entries@[e])
                    || self.entries@[e].key == key,
            forall|i: int| 0 <= i < orig.entries@.len()
                && (#[trigger] orig.entries@[i]).last_used >= t0
                ==> self.entries@.contains(orig.entries@[i]),
            self.index_of(key) == self.entries@.len() - 1,
            self.entries@[self.index_of(key)].last_used == orig.tick,
    {
        let m = mid.entries@.len() as int;
        assert forall|e: int| 0 <= e < self.entries@.len()
            implies orig.entries@.contains(#[trigger] self.entries@[e])
                || self.entries@[e].key == key by {
            if e < m {
                assert(orig.entries@.contains(mid.entries@[e]));
            }
        }
        assert forall|i: int| 0 <= i < orig.entries@.len()
            && (#[trigger] orig.entries@[i]).last_used >= t0
            implies self.entries@.contains(orig.entries@[i]) by {
            let v = orig.entries@[i];
            assert(mid.entries@.contains(v));
            let j = choose|j: int| 0 <= j < mid.entries@.len() && mid.entries@[j] == v;
            assert(self.entries@[j] == v);
        }
        assert(self.entries@[m].key == key);
        let j = self.index_of(key);
        assert(self.entries@[j].key == key);
        assert(j == m);
    }

    /// Drops all (necessarily empty) shelves so the full atlas height can
    /// be repacked from the top.
    fn reset_shelves(&mut self)
        requires
            old(self).wf(),
            old(self).entries@.len() == 0,
        ensures
            final(self).wf(),
            final(self).width == old(self).width,
            final(self).height == old(self).height,
            final(self).pixels@ == old(self).pixels@,
            final(self).queued@ == old(self).queued@,
            final(self).tick == old(self).tick,
            final(self).entries@.len() == 0,
            final(self).shelves@.len() == 0,
            final(self).used_height == 0,
    {
        self.shelves = Vec::new();
        self.used_height = 0;
    }

    /// Packs a `w` by `h` glyph, evicting least-recently-requested rows
    /// as needed. Entries requested at or after mark `t0` are never
    /// evicted. Fails (returning nothing, never panicking) only when the
    /// glyph is larger than the atlas or the space is held by entries
    /// packed at or after `t0`.
    pub fn pack(&mut self, key: GlyphKey, w: usize, h: usize, t0: u64) -> (r: Option<RectPx>)
        requires
            old(self).wf(),
            1 <= w,
            1 <= h,
            !old(self).resident(key),
            !old(self).queued@.contains(key),
            old(self).tick < u64::MAX,
        ensures
            final(self).wf(),
            final(self).width == old(self).width,
            final(self).height == old(self).height,
            final(self).pixels@ == old(self).pixels@,
            final(self).queued@ == old(self).queued@,
            old(self).tick <= final(self).tick <= old(self).tick + 1,
            match r {
                Some(rect) => {
                    &&& final(self).resident(key)
                    &&& final(self).rect_of(key) == rect
                    &&& rect.width == w
                    &&& rect.height == h
                    &&& rect.x + w <= old(self).width
                    &&& rect.y + h <= old(self).height
                    &&& final(self).tick == old(self).tick + 1
                },
                None => {
                    &&& !final(self).resident(key)
                    &&& (w > old(self).width || h > old(self).height
                        || exists|i: int| 0 <= i < old(self).entries@.len()
                            && (#[trigger] old(self).entries@[i]).last_used >= t0)
                    &&& final(self).tick == old(self).tick
                },
            },
            forall|i: int| 0 <= i < old(self).entries@.len()
                && (#[trigger] old(self).entries@[i]).last_used >= t0
                ==> final(self).resident(old(self).entries@[i].key)
                    && final(self).rect_of(old(self).entries@[i].key)
                        == old(self).entries@[i].rect,
            forall|i: int| 0 <= i < old(self).entries@.len()
                && (#[trigger] old(self).entries@[i]).last_used >= t0
                ==> final(self).entries@.contains(old(self).entries@[i]),
            forall|e: int| 0 <= e < final(self).entries@.len()
                ==> old(self).entries@.contains(#[trigger] final(self).entries@[e])
                    || final(self).entries@[e].key == key,
            r is Some ==> final(self).entries@[final(self).index_of(key)].last_used
                == old(self).tick,
            forall|k: GlyphKey| #[trigger] final(self).resident(k)
                ==> old(self).resident(k) || k == key,
    {
        proof {
            lemma_seq_contains_self(old(self).entries@);
        }
        if w > self.width || h > self.height {
            return None;
        }
        if let Some(rect) = self.place_in_existing(key, w, h) {
            proof {
                self.lemma_pack_bookkeeping(*old(self), *old(self), key, t0);
            }
            return Some(rect);
        }
        if h <= self.height - self.used_height {
            let rect = self.open_shelf(key, w, h);
            proof {
                self.lemma_pack_bookkeeping(*old(self), *old(self), key, t0);
            }
            return Some(rect);
        }
        loop
            invariant
                self.wf(),
                self.width == old(self).width,
                self.height == old(self).height,
                self.pixels@ == old(self).pixels@,
                self.queued@ == old(self).queued@,
                self.tick == old(self).tick,
                old(self).tick < u64::MAX,
                1 <= w <= self.width,
                1 <= h <= self.height,
                !self.resident(key),
                !self.queued@.contains(key),
                forall|i: int| 0 <= i < self.entries@.len()
                    ==> old(self).entries@.contains(#[trigger] self.entries@[i]),
                forall|i: int| 0 <= i < old(self).entries@.len()
                    && (#[trigger] old(self).entries@[i]).last_used >= t0
                    ==> self.entries@.contains(old(self).entries@[i]),
                forall|k: GlyphKey| #[trigger] self.resident(k) ==> old(self).resident(k),
            decreases self.entries@.len(),
        {
            let victim = self.choose_victim(t0);
            match victim {
                Some(s) => {
                    let ghost mid = *self;
                    proof {
                        assert(mid.shelf_occupied(s));
                    }
                    self.evict_shelf(s);
                    proof {
                        assert forall|i: int| 0 <= i < self.entries@.len()
                            implies old(self).entries@.contains(#[trigger] self.entries@[i]) by {
                            assert(mid.entries@.contains(self.entries@[i]));
                        }
                        assert forall|i: int| 0 <= i < old(self).entries@.len()
                            && (#[trigger] old(self).entries@[i]).last_used >= t0
                            implies self.entries@.contains(old(self).entries@[i]) by {
                            let v = old(self).entries@[i];
                            assert(mid.entries@.contains(v));
                            let j = choose|j: int| 0 <= j < mid.entries@.len()
                                && mid.entries@[j] == v;
                            assert(mid.entries@[j].shelf != s);
                        }
                        assert forall|k: GlyphKey| #[trigger] self.resident(k)
                            implies old(self).resident(k) by {
                            assert(mid.resident(k));
                        }
                    }
                    let ghost before_place = *self;
                    if let Some(rect) = self.place_in_existing(key, w, h) {
                        proof {
                            assert forall|i: int| 0 <= i < old(self).entries@.len()
                                && (#[trigger] old(self).entries@[i]).last_used >= t0
                                implies self.resident(old(self).entries@[i].key)
                                    && self.rect_of(old(self).entries@[i].key)
                                        == old(self).entries@[i].rect by {
                                let v = old(self).entries@[i];
                                before_place.lemma_contains_to_resident(v);
                            }
                            self.lemma_pack_bookkeeping(before_place, *old(self), key, t0);
                        }
                        return Some(rect);
                    }
                    if self.entries.len() == 0 {
                        proof {
                            assert forall|i: int| 0 <= i < old(self).entries@.len()
                                implies (#[trigger] old(self).entries@[i]).last_used < t0 by {
                                if old(self).entries@[i].last_used >= t0 {
                                    assert(self.entries@.contains(old(self).entries@[i]));
                                }
                            }
                        }
                        self.reset_shelves();
                        let ghost after_reset = *self;
                        let rect = self.open_shelf(key, w, h);
                        proof {
                            self.lemma_pack_bookkeeping(after_reset, *old(self), key, t0);
                        }
                        return Some(rect);
                    }
                },
                None => {
                    if self.entries.len() == 0 {
                        proof {
                            assert forall|i: int| 0 <= i < old(self).entries@.len()
                                implies (#[trigger] old(self).entries@[i]).last_used < t0 by {
                                if old(self).entries@[i].last_used >= t0 {
                                    assert(self.entries@.contains(old(self).entries@[i]));
                                }
                            }
                        }
                        self.reset_shelves();
                        let ghost after_reset = *self;
                        let rect = self.open_shelf(key, w, h);
                        proof {
                            self.lemma_pack_bookkeeping(after_reset, *old(self), key, t0);
                        }
                        return Some(rect);
                    }
                    proof {
                        let e0 = self.entries@[0];
                        assert(self.entry_wf(0));
                        assert(self.shelf_occupied(e0.shelf));
                        assert(!self.shelf_evictable(e0.shelf, t0));
                        let k = choose|k: int| 0 <= k < self.entries@.len()
                            && (#[trigger] self.entries@[k]).shelf == e0.shelf
                            && self.entries@[k].last_used >= t0;
                        assert(old(self).entries@.contains(self.entries@[k]));
                        let i = choose|i: int| 0 <= i < old(self).entries@.len()
                            && old(self).entries@[i] == self.entries@[k];
                        assert(old(self).entries@[i].last_used >= t0);
                    }
                    return None;
                },
            }
        }
    }

    /// Packed rectangles never overlap: any two distinct live atlas
    /// entries have rectangles with empty intersection.
    pub proof fn lemma_entries_disjoint(self, i: int, j: int)
        requires
            self.wf(),
            0 <= i < self.entries@.len(),
            0 <= j < self.entries@.len(),
            i != j,
        ensures
            rects_disjoint(self.entries@[i].rect, self.entries@[j].rect),
    {
        let e1 = self.entries@[i];
        let e2 = self.entries@[j];
        assert(self.entry_wf(i));
        assert(self.entry_wf(j));
        if e1.shelf == e2.shelf {
        } else {
            assert(self.shelf_wf(e1.shelf as int));
            assert(self.shelf_wf(e2.shelf as int));
            if e1.shelf < e2.shelf {
                assert(sum_heights(self.shelves@, e1.shelf as int + 1)
                    == sum_heights(self.shelves@, e1.shelf as int)
                        + self.shelves@[e1.shelf as int].height);
                lemma_sum_heights_mono(self.shelves@, e1.shelf as int + 1, e2.shelf as int);
            } else {
                assert(sum_heights(self.shelves@, e2.shelf as int + 1)
                    == sum_heights(self.shelves@, e2.shelf as int)
                        + self.shelves@[e2.shelf as int].height);
                lemma_sum_heights_mono(self.shelves@, e2.shelf as int + 1, e1.shelf as int);
            }
        }
    }

    /// No key is resident twice: two distinct live atlas entries always
    /// carry different keys.
    pub proof fn lemma_resident_unique(self, i: int, j: int)
        requires
            self.wf(),
            0 <= i < self.entries@.len(),
            0 <= j < self.entries@.len(),
            i != j,
        ensures
            self.entries@[i].key != self.entries@[j].key,
    {
    }

    /// `r` is the packed rectangle of one of the first `i` bitmaps.
    pub open spec fn names_packed_rect(self, bs: Seq<GlyphBitmap>, i: int, r: RectPx) -> bool {
        exists|j: int| 0 <= j < i && self.resident((#[trigger] bs[j]).key)
            && r == self.rect_of(bs[j].key)
    }

    /// The state the flush loop maintains after handling the first `i`
    /// bitmaps: later bitmaps' keys are still missing; every entry is an
    /// untouched original or an earlier bitmap's; every packed bitmap is
    /// resident in a rectangle of its own size whose atlas window holds
    /// its bytes; a bitmap was dropped only for being oversized or
    /// crowded out by an earlier one; originals that survive keep their
    /// rectangles; and the dirty list names exactly the packed bitmaps'
    /// rectangles, covering every changed pixel.
    pub open spec fn flush_inv(
        self,
        orig: Atlas,
        bs: Seq<GlyphBitmap>,
        dirty: Seq<RectPx>,
        i: int,
        t0: u64,
    ) -> bool {
        &&& self.wf()
        &&& self.width == orig.width
        &&& self.height == orig.height
        &&& self.queued@.len() == 0
        &&& t0 == orig.tick
        &&& orig.tick <= self.tick <= orig.tick + i
        &&& self.pixels@.len() == orig.pixels@.len()
        &&& forall|j: int| i <= j < bs.len() ==> !self.resident((#[trigger] bs[j]).key)
        &&& forall|e: int| 0 <= e < self.entries@.len()
            ==> orig.entries@.contains(#[trigger] self.entries@[e])
                || exists|j: int| 0 <= j < i && bs[j].key == self.entries@[e].key
        &&& forall|j: int| 0 <= j < i && self.resident((#[trigger] bs[j]).key) ==> {
            &&& self.entries@[self.index_of(bs[j].key)].last_used >= t0
            &&& self.rect_of(bs[j].key).width == bs[j].width
            &&& self.rect_of(bs[j].key).height == bs[j].height
            &&& region_matches(self.pixels@, orig.width as int,
                self.rect_of(bs[j].key), bs[j].data@)
        }
        &&& forall|j: int| 0 <= j < i ==> {
            ||| self.resident((#[trigger] bs[j]).key)
            ||| bs[j].width > orig.width
            ||| bs[j].height > orig.height
            ||| exists|k: int| 0 <= k < j && self.resident(bs[k].key)
        }
        &&& forall|k: GlyphKey| #[trigger] self.resident(k)
            ==> orig.resident(k) || exists|j: int| 0 <= j < i && bs[j].key == k
        &&& forall|k: GlyphKey| orig.resident(k) && #[trigger] self.resident(k)
            ==> self.rect_of(k) == orig.rect_of(k)
        &&& forall|d: int| 0 <= d < dirty.len()
            ==> self.names_packed_rect(bs, i, #[trigger] dirty[d])
        &&& forall|j: int| 0 <= j < i && self.resident((#[trigger] bs[j]).key)
            ==> dirty.contains(self.rect_of(bs[j].key))
        &&& forall|p: int|
            0 <= p < orig.pixels@.len() && self.pixels@[p] != orig.pixels@[p]
                ==> exists|d: int| 0 <= d < dirty.len()
                    && covered(#[trigger] dirty[d], orig.width as int, p)
    }

    /// The bitmaps handed to one flush: pairwise distinct keys, none
    /// resident, each sized consistently with its coverage bytes.
    pub open spec fn flush_bitmaps_ok(orig: Atlas, bs: Seq<GlyphBitmap>) -> bool {
        &&& forall|a: int, b: int| 0 <= a < bs.len() && 0 <= b < bs.len() && a != b
            ==> (#[trigger] bs[a]).key != (#[trigger] bs[b]).key
        &&& forall|j: int| 0 <= j < bs.len() ==> {
            &&& 1 <= (#[trigger] bs[j]).width
            &&& 1 <= bs[j].height
            &&& bs[j].data@.len() == bs[j].width * bs[j].height
            &&& !orig.resident(bs[j].key)
        }
    }

    /// One step of the flush loop: packs bitmap `i` (evicting
    /// least-recently-used rows, never a glyph of this flush), copies its
    /// bytes into place, and records the dirty rectangle; a bitmap that
    /// cannot be packed is dropped.
    #[verifier::rlimit(100)]
    fn flush_one(
        &mut self,
        bitmaps: &Vec<GlyphBitmap>,
        i: usize,
        t0: u64,
        dirty: &mut Vec<RectPx>,
        Ghost(orig): Ghost<Atlas>,
    )
        requires
            orig.wf(),
            (i as int) < bitmaps@.len(),
            Atlas::flush_bitmaps_ok(orig, bitmaps@),
            orig.tick + bitmaps@.len() <= u64::MAX,
            old(self).flush_inv(orig, bitmaps@, old(dirty)@, i as int, t0),
        ensures
            final(self).flush_inv(orig, bitmaps@, final(dirty)@, i as int + 1, t0),
    {
        let b = &bitmaps[i];
        let ghost pre = *self;
        let ghost bs = bitmaps@;
        let ghost ii = i as int;
        let stride: usize = self.width;
        let r = self.pack(b.key, b.width, b.height, t0);
        proof {
            self.lemma_flush_pack_step(pre, orig, bs, dirty@, ii, t0);
        }
        match r {
            Some(rect) => {
                proof {
                    assert(self.pixels@.len() == self.width * self.height);
                    assert((rect.y + rect.height) * (stride as int)
                        <= (self.height as int) * (stride as int)) by (nonlinear_arith)
                        requires
                            rect.y + rect.height <= self.height,
                            0 <= stride,
                    ;
                    assert((self.height as int) * (stride as int)
                        == (stride as int) * (self.height as int)) by (nonlinear_arith);
                }
                let ghost before_blit = *self;
                let ghost old_dirty = dirty@;
                blit(&mut self.pixels, stride, rect, &b.data);
                dirty.push(rect);
                proof {
                    self.lemma_wf_layout(before_blit);
                    let nd = dirty@.len() - 1;
                    assert(dirty@[nd] == rect);
                    assert(self.entries@ == before_blit.entries@);
                    assert(self.rect_of(bs[ii].key) == rect);
                    let ei = self.index_of(bs[ii].key);
                    // the new bitmap's bytes are in place, and every
                    // earlier bitmap's window is untouched because live
                    // rectangles are disjoint
                    assert forall|j: int|
                        0 <= j <= ii && self.resident((#[trigger] bs[j]).key)
                        implies {
                            &&& self.entries@[self.index_of(bs[j].key)].last_used >= t0
                            &&& self.rect_of(bs[j].key).width == bs[j].width
                            &&& self.rect_of(bs[j].key).height == bs[j].height
                            &&& region_matches(self.pixels@, stride as int,
                                self.rect_of(bs[j].key), bs[j].data@)
                        } by {
                        if j < ii {
                            assert(before_blit.resident(bs[j].key));
                            assert(region_matches(before_blit.pixels@, stride as int,
                                before_blit.rect_of(bs[j].key), bs[j].data@));
                            let ej = self.index_of(bs[j].key);
                            assert(bs[j].key != bs[ii].key);
                            assert(self.entries@[ej].key != self.entries@[ei].key);
                            assert(ej != ei);
                            self.lemma_entries_disjoint(ej, ei);
                            let rj = self.entries@[ej].rect;
                            assert(self.entry_wf(ej));
                            assert(self.shelf_wf(self.entries@[ej].shelf as int));
                            assert(sum_heights(self.shelves@,
                                self.entries@[ej].shelf as int + 1)
                                == sum_heights(self.shelves@,
                                    self.entries@[ej].shelf as int)
                                    + self.shelves@[self.entries@[ej].shelf as int].height);
                            lemma_sum_heights_mono(self.shelves@,
                                self.entries@[ej].shelf as int + 1,
                                self.shelves@.len() as int);
                            assert(rj.y + rj.height <= self.height);
                            assert((rj.y + rj.height) * (stride as int)
                                <= (self.height as int) * (stride as int))
                                by (nonlinear_arith)
                                requires
                                    rj.y + rj.height <= self.height,
                                    0 <= stride,
                            ;
                            assert((self.height as int) * (stride as int)
                                == (stride as int) * (self.height as int))
                                by (nonlinear_arith);
                            lemma_region_preserved(before_blit.pixels@, self.pixels@,
                                stride as int, rj, rect, bs[j].data@);
                        } else {
                            assert(self.entries@[ei].last_used >= t0);
                        }
                    }
                    // dirty rectangles name exactly the packed bitmaps'
                    assert forall|d: int| 0 <= d < dirty@.len()
                        implies self.names_packed_rect(bs, ii + 1, #[trigger] dirty@[d]) by {
                        if d < nd {
                            assert(dirty@[d] == old_dirty[d]);
                            assert(before_blit.names_packed_rect(bs, ii, old_dirty[d]));
                            let j = choose|j: int|
                                0 <= j < ii && before_blit.resident((#[trigger] bs[j]).key)
                                    && old_dirty[d] == before_blit.rect_of(bs[j].key);
                            assert(self.resident(bs[j].key)
                                && dirty@[d] == self.rect_of(bs[j].key));
                        } else {
                            assert(self.resident(bs[ii].key)
                                && dirty@[nd] == self.rect_of(bs[ii].key));
                        }
                    }
                    assert forall|j: int|
                        0 <= j <= ii && self.resident((#[trigger] bs[j]).key)
                        implies dirty@.contains(self.rect_of(bs[j].key)) by {
                        if j < ii {
                            assert(before_blit.resident(bs[j].key));
                            assert(old_dirty.contains(before_blit.rect_of(bs[j].key)));
                            assert(self.rect_of(bs[j].key)
                                == before_blit.rect_of(bs[j].key));
                            let d = choose|d: int|
                                0 <= d < old_dirty.len()
                                    && old_dirty[d] == self.rect_of(bs[j].key);
                            assert(dirty@[d] == self.rect_of(bs[j].key));
                        } else {
                            assert(dirty@[nd] == self.rect_of(bs[ii].key));
                        }
                    }
                    // any changed pixel lies under a dirty rectangle
                    assert forall|p: int|
                        0 <= p < orig.pixels@.len()
                            && self.pixels@[p] != orig.pixels@[p]
                        implies exists|d: int|
                            0 <= d < dirty@.len()
                                && covered(#[trigger] dirty@[d], stride as int, p) by {
                        if covered(rect, stride as int, p) {
                            assert(covered(dirty@[nd], stride as int, p));
                        } else {
                            assert(self.pixels@[p] == before_blit.pixels@[p]);
                            let d = choose|d: int|
                                0 <= d < old_dirty.len()
                                    && covered(old_dirty[d], stride as int, p);
                            assert(covered(dirty@[d], stride as int, p));
                        }
                    }
                }
            },
            None => {
                proof {
                    if !(b.width > orig.width || b.height > orig.height) {
                        let pe = choose|pe: int|
                            0 <= pe < pre.entries@.len()
                                && (#[trigger] pre.entries@[pe]).last_used >= t0;
                        let v = pre.entries@[pe];
                        if orig.entries@.contains(v) {
                            let oe = choose|oe: int|
                                0 <= oe < orig.entries@.len() && orig.entries@[oe] == v;
                            assert(orig.entry_wf(oe));
                            assert(false);
                        }
                        let j = choose|j: int| 0 <= j < ii && bs[j].key == v.key;
                        assert(self.entries@.contains(v));
                        self.lemma_contains_to_resident(v);
                        assert(self.resident(bs[j].key));
                    }
                }
            },
        }
    }

    /// Packs a bitmap's entry, leaving the pixels and dirty list alone:
    /// every part of the loop state that does not mention bitmap `i`
    /// itself is restored.
    proof fn lemma_flush_pack_step(
        self,
        pre: Atlas,
        orig: Atlas,
        bs: Seq<GlyphBitmap>,
        dirty: Seq<RectPx>,
        ii: int,
        t0: u64,
    )
        requires
            orig.wf(),
            self.wf(),
            0 <= ii < bs.len(),
            Atlas::flush_bitmaps_ok(orig, bs),
            pre.flush_inv(orig, bs, dirty, ii, t0),
            // what pack guarantees, relating `self` to `pre`:
            self.width == pre.width,
            self.height == pre.height,
            self.pixels@ == pre.pixels@,
            self.queued@ == pre.queued@,
            pre.tick <= self.tick <= pre.tick + 1,
            forall|i: int| 0 <= i < pre.entries@.len()
                && (#[trigger] pre.entries@[i]).last_used >= t0
                ==> self.entries@.contains(pre.entries@[i]),
            forall|e: int| 0 <= e < self.entries@.len()
                ==> pre.entries@.contains(#[trigger] self.entries@[e])
                    || self.entries@[e].key == bs[ii].key,
            forall|k: GlyphKey| #[trigger] self.resident(k)
                ==> pre.resident(k) || k == bs[ii].key,
        ensures
            forall|j: int| ii + 1 <= j < bs.len()
                ==> !self.resident((#[trigger] bs[j]).key),
            forall|e: int| 0 <= e < self.entries@.len()
                ==> orig.entries@.contains(#[trigger] self.entries@[e])
                    || exists|j: int| 0 <= j <= ii && bs[j].key == self.entries@[e].key,
            forall|j: int| 0 <= j < ii && self.resident((#[trigger] bs[j]).key) ==> {
                &&& self.entries@[self.index_of(bs[j].key)].last_used >= t0
                &&& self.rect_of(bs[j].key).width == bs[j].width
                &&& self.rect_of(bs[j].key).height == bs[j].height
                &&& region_matches(self.pixels@, orig.width as int,
                    self.rect_of(bs[j].key), bs[j].data@)
            },
            forall|j: int| 0 <= j < ii ==> {
                ||| self.resident((#[trigger] bs[j]).key)
                ||| bs[j].width > orig.width
                ||| bs[j].height > orig.height
                ||| exists|k: int| 0 <= k < j && self.resident(bs[k].key)
            },
            forall|k: GlyphKey| #[trigger] self.resident(k)
                ==> orig.resident(k) || exists|j: int| 0 <= j <= ii && bs[j].key == k,
            forall|k: GlyphKey| orig.resident(k) && #[trigger] self.resident(k)
                ==> self.rect_of(k) == orig.rect_of(k),
            forall|d: int| 0 <= d < dirty.len()
                ==> self.names_packed_rect(bs, ii, #[trigger] dirty[d]),
            forall|j: int| 0 <= j < ii && self.resident((#[trigger] bs[j]).key)
                ==> dirty.contains(self.rect_of(bs[j].key)),
    {
        assert forall|j: int| ii + 1 <= j < bs.len()
            implies !self.resident((#[trigger] bs[j]).key) by {
            if self.resident(bs[j].key) {
                assert(pre.resident(bs[j].key) || bs[j].key == bs[ii].key);
            }
        }
        assert forall|e: int| 0 <= e < self.entries@.len()
            implies orig.entries@.contains(#[trigger] self.entries@[e])
                || exists|j: int| 0 <= j <= ii && bs[j].key == self.entries@[e].key by {
            let v = self.entries@[e];
            if v.key != bs[ii].key {
                assert(pre.entries@.contains(v));
                let pe = choose|pe: int|
                    0 <= pe < pre.entries@.len() && pre.entries@[pe] == v;
                assert(orig.entries@.contains(pre.entries@[pe])
                    || exists|j: int| 0 <= j < ii && bs[j].key == pre.entries@[pe].key);
            }
        }
        assert forall|j: int|
            0 <= j < ii && self.resident((#[trigger] bs[j]).key)
            implies {
                &&& self.entries@[self.index_of(bs[j].key)].last_used >= t0
                &&& self.rect_of(bs[j].key).width == bs[j].width
                &&& self.rect_of(bs[j].key).height == bs[j].height
                &&& region_matches(self.pixels@, orig.width as int,
                    self.rect_of(bs[j].key), bs[j].data@)
            } by {
            assert(pre.resident(bs[j].key) || bs[j].key == bs[ii].key);
            assert(pre.resident(bs[j].key));
            let v = pre.entries@[pre.index_of(bs[j].key)];
            assert(v.last_used >= t0);
            assert(self.entries@.contains(v));
            self.lemma_contains_to_resident(v);
        }
        assert forall|j: int| 0 <= j < ii implies {
            ||| self.resident((#[trigger] bs[j]).key)
            ||| bs[j].width > orig.width
            ||| bs[j].height > orig.height
            ||| exists|k: int| 0 <= k < j && self.resident(bs[k].key)
        } by {
            if pre.resident(bs[j].key) {
                let v = pre.entries@[pre.index_of(bs[j].key)];
                assert(v.last_used >= t0);
                assert(self.entries@.contains(v));
                self.lemma_contains_to_resident(v);
                assert(self.resident(bs[j].key));
            } else if exists|k: int| 0 <= k < j && pre.resident(bs[k].key) {
                let k = choose|k: int| 0 <= k < j && pre.resident(bs[k].key);
                let v = pre.entries@[pre.index_of(bs[k].key)];
                assert(v.last_used >= t0);
                assert(self.entries@.contains(v));
                self.lemma_contains_to_resident(v);
                assert(self.resident(bs[k].key));
            }
        }
        assert forall|k: GlyphKey| #[trigger] self.resident(k)
            implies orig.resident(k)
                || exists|j: int| 0 <= j <= ii && bs[j].key == k by {
            if k != bs[ii].key {
                assert(pre.resident(k));
            }
        }
        assert forall|k: GlyphKey| orig.resident(k) && #[trigger] self.resident(k)
            implies self.rect_of(k) == orig.rect_of(k) by {
            let e = self.index_of(k);
            let v = self.entries@[e];
            assert(v.key == k);
            if exists|j: int| 0 <= j <= ii && bs[j].key == v.key {
                let j = choose|j: int| 0 <= j <= ii && bs[j].key == v.key;
                assert(!orig.resident(bs[j].key));
            } else {
                assert(orig.entries@.contains(v));
                orig.lemma_contains_to_resident(v);
            }
        }
        assert forall|d: int| 0 <= d < dirty.len()
            implies self.names_packed_rect(bs, ii, #[trigger] dirty[d]) by {
            assert(pre.names_packed_rect(bs, ii, dirty[d]));
            let j = choose|j: int|
                0 <= j < ii && pre.resident((#[trigger] bs[j]).key)
                    && dirty[d] == pre.rect_of(bs[j].key);
            let v = pre.entries@[pre.index_of(bs[j].key)];
            assert(v.last_used >= t0);
            assert(self.entries@.contains(v));
            self.lemma_contains_to_resident(v);
            assert(self.resident(bs[j].key) && dirty[d] == self.rect_of(bs[j].key));
        }
        assert forall|j: int|
            0 <= j < ii && self.resident((#[trigger] bs[j]).key)
            implies dirty.contains(self.rect_of(bs[j].key)) by {
            assert(pre.resident(bs[j].key));
            let v = pre.entries@[pre.index_of(bs[j].key)];
            assert(v.last_used >= t0);
            assert(self.entries@.contains(v));
            self.lemma_contains_to_resident(v);
            assert(dirty.contains(pre.rect_of(bs[j].key)));
        }
    }

    /// Flushes the rasterization queue: packs each rasterized bitmap
    /// (evicting least-recently-used rows as needed), copies its coverage
    /// bytes into the atlas at the packed offset, and returns the dirty
    /// rectangles to upload. Glyphs packed within one flush never evict
    /// one another. A bitmap that cannot be packed is dropped, never an
    /// error.
    pub fn flush(&mut self, bitmaps: &Vec<GlyphBitmap>) -> (dirty: Vec<RectPx>)
        requires
            old(self).wf(),
            forall|i: int, j: int|
                0 <= i < bitmaps@.len() && 0 <= j < bitmaps@.len() && i != j
                    ==> (#[trigger] bitmaps@[i]).key != (#[trigger] bitmaps@[j]).key,
            forall|i: int| 0 <= i < bitmaps@.len() ==> {
                &&& old(self).queued@.contains((#[trigger] bitmaps@[i]).key)
                &&& 1 <= bitmaps@[i].width
                &&& 1 <= bitmaps@[i].height
                &&& bitmaps@[i].data@.len() == bitmaps@[i].width * bitmaps@[i].height
            },
            old(self).tick + bitmaps@.len() <= u64::MAX,
        ensures
            final(self).wf(),
            final(self).queued@.len() == 0,
            final(self).width == old(self).width,
            final(self).height == old(self).height,
            final(self).pixels@.len() == old(self).pixels@.len(),
            final(self).flush_inv(
                *old(self), bitmaps@, dirty@, bitmaps@.len() as int, old(self).tick,
            ),
    {
        let t0: u64 = self.tick;
        self.queued = Vec::new();
        let n: usize = bitmaps.len();
        let mut dirty: Vec<RectPx> = Vec::new();
        let mut i: usize = 0;
        proof {
            assert forall|j: int| 0 <= j < n
                implies !old(self).resident((#[trigger] bitmaps@[j]).key) by {
                if old(self).resident(bitmaps@[j].key) {
                    let e = old(self).index_of(bitmaps@[j].key);
                    let q = choose|q: int|
                        0 <= q < old(self).queued@.len()
                            && old(self).queued@[q] == bitmaps@[j].key;
                    assert(old(self).queued@[q] != old(self).entries@[e].key);
                }
            }
            assert forall|j: int| 0 <= j < n
                implies !self.resident((#[trigger] bitmaps@[j]).key) by {
                if self.resident(bitmaps@[j].key) {
                    let e = self.index_of(bitmaps@[j].key);
                    assert(old(self).entries@[e].key == bitmaps@[j].key);
                    assert(old(self).resident(bitmaps@[j].key));
                }
            }
            lemma_seq_contains_self(old(self).entries@);
            self.lemma_wf_layout(*old(self));
        }
        while i < n
            invariant
                old(self).wf(),
                n == bitmaps@.len(),
                i <= n,
                t0 == old(self).tick,
                old(self).tick + n <= u64::MAX,
                Atlas::flush_bitmaps_ok(*old(self), bitmaps@),
                self.flush_inv(*old(self), bitmaps@, dirty@, i as int, t0),
            decreases n - i,
        {
            self.flush_one(bitmaps, i, t0, &mut dirty, Ghost(*old(self)));
            i = i + 1;
        }
        dirty
    }

    /// The rasterization queue never holds a key twice: requesting a
    /// missing glyph many times schedules one rasterization.
    pub proof fn lemma_queue_distinct(self, i: int, j: int)
        requires
            self.wf(),
            0 <= i < self.queued@.len(),
            0 <= j < self.queued@.len(),
            i != j,
        ensures
            self.queued@[i] != self.queued@[j],
    {
    }

    /// A resident glyph's rectangle lies inside the atlas.
    pub proof fn lemma_rect_of_in_bounds(self, key: GlyphKey)
        requires
            self.wf(),
            self.resident(key),
        ensures
            self.rect_of(key).x + self.rect_of(key).width <= self.width,
            self.rect_of(key).y + self.rect_of(key).height <= self.height,
            1 <= self.rect_of(key).width,
            1 <= self.rect_of(key).height,
    {
        let e = self.index_of(key);
        assert(self.entry_wf(e));
        let s = self.entries@[e].shelf as int;
        assert(self.shelf_wf(s));
        assert(sum_heights(self.shelves@, s + 1)
            == sum_heights(self.shelves@, s) + self.shelves@[s].height);
        lemma_sum_heights_mono(self.shelves@, s + 1, self.shelves@.len() as int);
    }

    /// Two atlases whose entry lists agree on keys and rectangles serve
    /// every key alike.
    pub proof fn lemma_layout_preserves_rects(self, other: Atlas)
        requires
            self.wf(),
            other.wf(),
            self.entries@.len() == other.entries@.len(),
            forall|i: int| 0 <= i < self.entries@.len() ==> {
                &&& (#[trigger] self.entries@[i]).key == other.entries@[i].key
                &&& self.entries@[i].rect == other.entries@[i].rect
            },
        ensures
            forall|k: GlyphKey| self.resident(k) == other.resident(k),
            forall|k: GlyphKey| #[trigger] self.resident(k)
                ==> self.rect_of(k) == other.rect_of(k),
    {
        assert forall|k: GlyphKey| self.resident(k) == other.resident(k) by {
            if self.resident(k) {
                let i = self.index_of(k);
                assert(other.entries@[i].key == k);
            }
            if other.resident(k) {
                let i = other.index_of(k);
                assert(self.entries@[i].key == k);
            }
        }
        assert forall|k: GlyphKey| #[trigger] self.resident(k)
            implies self.rect_of(k) == other.rect_of(k) by {
            let i = self.index_of(k);
            let j = other.index_of(k);
            assert(self.entries@[i].key == k);
            assert(other.entries@[j].key == k);
            assert(self.entries@[j].key == k);
            assert(i == j);
        }
    }

    /// Creates an empty atlas of the given pixel dimensions, with every
    /// coverage byte zero.
    pub fn new(width: usize, height: usize) -> (a: Atlas)
        requires
            1 <= width <= 0xFFFF_FFFF,
            1 <= height <= 0xFFFF_FFFF,
            width * height <= usize::MAX,
        ensures
            a.wf(),
            a.width == width,
            a.height == height,
            a.entries@.len() == 0,
            a.queued@.len() == 0,
            a.shelves@.len() == 0,
            a.tick == 0,
            a.pixels@.len() == width * height,
            forall|p: int| 0 <= p < a.pixels@.len() ==> a.pixels@[p] == 0u8,
    {
        let n: usize = width * height;
        let mut pixels: Vec<u8> = Vec::new();
        let mut i: usize = 0;
        while i < n
            invariant
                i <= n,
                pixels@.len() == i,
                forall|p: int| 0 <= p < i ==> pixels@[p] == 0u8,
            decreases n - i,
        {
            pixels.push(0u8);
            i = i + 1;
        }
        Atlas {
            width,
            height,
            shelves: Vec::new(),
            entries: Vec::new(),
            used_height: 0,
            tick: 0,
            pixels,
            queued: Vec::new(),
        }
    }

    /// Finds the live entry for a key, if any.
    fn find_entry(&self, key: GlyphKey) -> (r: Option<usize>)
        requires
            self.wf(),
        ensures
            match r {
                Some(i) => {
                    &&& i < self.entries@.len()
                    &&& self.entries@[i as int].key == key
                    &&& self.resident(key)
                    &&& i == self.index_of(key)
                },
                None => !self.resident(key),
            },
    {
        let n: usize = self.entries.len();
        let mut i: usize = 0;
        while i < n
            invariant
                self.wf(),
                i <= n,
                n == self.entries@.len(),
                forall|k: int| 0 <= k < i ==> #[trigger] self.entries@[k].key != key,
            decreases n - i,
        {
            if self.entries[i].key == key {
                proof {
                    assert(self.resident(key));
                    let j = self.index_of(key);
                    assert(self.entries@[j].key == key);
                    assert(j == i as int);
                }
                return Some(i);
            }
            i = i + 1;
        }
        None
    }

    /// True when the key is already scheduled for rasterization.
    fn queued_contains(&self, key: GlyphKey) -> (r: bool)
        ensures
            r == self.queued@.contains(key),
    {
        let n: usize = self.queued.len();
        let mut i: usize = 0;
        while i < n
            invariant
                i <= n,
                n == self.queued@.len(),
                forall|k: int| 0 <= k < i ==> #[trigger] self.queued@[k] != key,
            decreases n - i,
        {
            if self.queued[i] == key {
                return true;
            }
            i = i + 1;
        }
        false
    }

    /// Looks a glyph up. A resident glyph's recency mark is refreshed and
    /// its packed rectangle returned; a missing glyph is scheduled for
    /// rasterization (once, however often it is requested) and `Pending`
    /// returned.
    pub fn request(&mut self, key: GlyphKey) -> (r: GlyphLookup)
        requires
            old(self).wf(),
            old(self).tick < u64::MAX,
        ensures
            final(self).wf(),
            final(self).width == old(self).width,
            final(self).height == old(self).height,
            final(self).pixels@ == old(self).pixels@,
            final(self).shelves@ == old(self).shelves@,
            final(self).used_height == old(self).used_height,
            old(self).tick <= final(self).tick <= old(self).tick + 1,
            forall|k: GlyphKey| final(self).resident(k) == old(self).resident(k),
            old(self).resident(key) ==> {
                &&& r == GlyphLookup::Resident(old(self).rect_of(key))
                &&& final(self).entries@ == old(self).entries@.update(
                    old(self).index_of(key),
                    AtlasEntry { last_used: old(self).tick, ..old(self).entries@[old(self).index_of(key)] },
                )
                &&& final(self).queued@ == old(self).queued@
                &&& final(self).tick == old(self).tick + 1
            },
            !old(self).resident(key) ==> {
                &&& r == GlyphLookup::Pending
                &&& final(self).entries@ == old(self).entries@
                &&& final(self).tick == old(self).tick
                &&& final(self).queued@.contains(key)
                &&& (old(self).queued@.contains(key) ==> final(self).queued@ == old(self).queued@)
                &&& (!old(self).queued@.contains(key) ==> final(self).queued@
                    == old(self).queued@.push(key))
            },
            forall|k: GlyphKey| old(self).queued@.contains(k) ==> final(self).queued@.contains(k),
            forall|k: GlyphKey| final(self).queued@.contains(k)
                ==> old(self).queued@.contains(k) || k == key,
            forall|i: int| 0 <= i < old(self).entries@.len() ==> {
                &&& final(self).entries@[i].key == old(self).entries@[i].key
                &&& final(self).entries@[i].rect == old(self).entries@[i].rect
                &&& final(self).entries@[i].shelf == old(self).entries@[i].shelf
            },
            final(self).entries@.len() == old(self).entries@.len(),
    {
        let r: GlyphLookup;
        match self.find_entry(key) {
            Some(i) => {
                let t: u64 = self.tick;
                let e: AtlasEntry = self.entries[i];
                self.entries[i] = AtlasEntry { last_used: t, ..e };
                self.tick = t + 1;
                r = GlyphLookup::Resident(e.rect);
            },
            None => {
                if !self.queued_contains(key) {
                    self.queued.push(key);
                    proof {
                        assert(self.queued@.last() == key);
                        assert(self.queued@.contains(key));
                    }
                }
                r = GlyphLookup::Pending;
            },
        }
        proof {
            assert forall|k: int| 0 <= k < self.shelves@.len() implies #[trigger] self.shelf_wf(k) by {
                assert(old(self).shelf_wf(k));
                assert(sum_heights(self.shelves@, k) == sum_heights(old(self).shelves@, k));
            }
            assert forall|k: int| 0 <= k < self.entries@.len() implies #[trigger] self.entry_wf(k) by {
                assert(old(self).entry_wf(k));
            }
            assert forall|k: GlyphKey| self.resident(k) == old(self).resident(k) by {
                if old(self).resident(k) {
                    let j = old(self).index_of(k);
                    assert(self.entries@[j].key == k);
                }
                if self.resident(k) {
                    let j = self.index_of(k);
                    assert(old(self).entries@[j].key == k);
                }
            }
            assert forall|k: GlyphKey| old(self).queued@.contains(k)
                implies self.queued@.contains(k) by {
                let j = choose|j: int| 0 <= j < old(self).queued@.len() && old(self).queued@[j] == k;
                assert(self.queued@[j] == k);
            }
            assert forall|k: GlyphKey| self.queued@.contains(k)
                implies old(self).queued@.contains(k) || k == key by {
                let j = choose|j: int| 0 <= j < self.queued@.len() && self.queued@[j] == k;
                if j < old(self).queued@.len() {
                    assert(old(self).queued@[j] == k);
                }
            }
        }
        r
    }

    /// Looks a glyph up without scheduling or refreshing anything:
    /// returns the packed rectangle exactly when the key is resident.
    pub fn rect_for(&self, key: GlyphKey) -> (r: Option<RectPx>)
        requires
            self.wf(),
        ensures
            r is Some <==> self.resident(key),
            self.resident(key) ==> r == Some(self.rect_of(key)),
    {
        match self.find_entry(key) {
            Some(i) => Some(self.entries[i].rect),
            None => None,
        }
    }

    /// Places a `w` by `h` glyph on the first existing shelf that is tall
    /// enough and has room left, left to right.
    fn place_in_existing(&mut self, key: GlyphKey, w: usize, h: usize) -> (r: Option<RectPx>)
        requires
            old(self).wf(),
            1 <= w,
            1 <= h,
            !old(self).resident(key),
            !old(self).queued@.contains(key),
            old(self).tick < u64::MAX,
        ensures
            final(self).wf(),
            final(self).width == old(self).width,
            final(self).height == old(self).height,
            final(self).pixels@ == old(self).pixels@,
            final(self).queued@ == old(self).queued@,
            final(self).used_height == old(self).used_height,
            final(self).shelves@.len() == old(self).shelves@.len(),
            forall|s: int| 0 <= s < old(self).shelves@.len() ==> {
                &&& final(self).shelves@[s].y == old(self).shelves@[s].y
                &&& final(self).shelves@[s].height == old(self).shelves@[s].height
            },
            forall|k: int| 0 <= k < old(self).entries@.len()
                ==> final(self).entries@[k] == old(self).entries@[k],
            forall|k: GlyphKey| old(self).resident(k)
                ==> final(self).resident(k) && final(self).rect_of(k) == old(self).rect_of(k),
            forall|k: GlyphKey| final(self).resident(k) ==> old(self).resident(k) || k == key,
            match r {
                Some(rect) => {
                    &&& final(self).entries@.len() == old(self).entries@.len() + 1
                    &&& final(self).entries@.last().key == key
                    &&& final(self).entries@.last().rect == rect
                    &&& final(self).entries@.last().last_used == old(self).tick
                    &&& rect.width == w
                    &&& rect.height == h
                    &&& rect.x + w <= old(self).width
                    &&& rect.y + h <= old(self).height
                    &&& final(self).resident(key)
                    &&& final(self).rect_of(key) == rect
                    &&& final(self).tick == old(self).tick + 1
                },
                None => {
                    &&& *final(self) == *old(self)
                    &&& forall|s: int| 0 <= s < old(self).shelves@.len()
                        ==> (#[trigger] old(self).shelves@[s]).height < h
                            || old(self).shelves@[s].cursor + w > old(self).width
                },
            },
    {
        let n: usize = self.shelves.len();
        let mut s: usize = 0;
        while s < n
            invariant
                old(self).wf(),
                *self == *old(self),
                !old(self).resident(key),
                !old(self).queued@.contains(key),
                old(self).tick < u64::MAX,
                1 <= w,
                1 <= h,
                n == self.shelves@.len(),
                s <= n,
                forall|k: int| 0 <= k < s ==> (#[trigger] self.shelves@[k]).height < h
                    || self.shelves@[k].cursor + w > self.width,
            decreases n - s,
        {
            proof {
                assert(old(self).shelf_wf(s as int));
            }
            let sh: Shelf = self.shelves[s];
            if sh.height >= h && w <= self.width - sh.cursor {
                let rect = RectPx { x: sh.cursor, y: sh.y, width: w, height: h };
                let t: u64 = self.tick;
                self.shelves[s] = Shelf { cursor: sh.cursor + w, ..sh };
                self.entries.push(AtlasEntry { key, shelf: s, rect, last_used: t });
                self.tick = t + 1;
                proof {
                    self.lemma_after_place(*old(self), key, rect, s);
                    assert(self.shelf_wf(s as int));
                    assert(sum_heights(self.shelves@, s as int + 1)
                        == sum_heights(self.shelves@, s as int)
                            + self.shelves@[s as int].height);
                    lemma_sum_heights_mono(self.shelves@, s as int + 1, self.shelves@.len() as int);
                }
                return Some(rect);
            }
            s = s + 1;
        }
        None
    }

    /// After pushing one entry for a fresh `key` onto shelf `s` (whose
    /// cursor alone may have moved right), the invariant still holds and
    /// residency changes by exactly that key.
    proof fn lemma_after_place(self, prev: Atlas, key: GlyphKey, rect: RectPx, s: usize)
        requires
            prev.wf(),
            !prev.resident(key),
            !prev.queued@.contains(key),
            prev.tick < u64::MAX,
            self.width == prev.width,
            self.height == prev.height,
            self.pixels@ == prev.pixels@,
            self.queued@ == prev.queued@,
            self.used_height == prev.used_height,
            self.tick == prev.tick + 1,
            (s as int) < prev.shelves@.len(),
            self.shelves@.len() == prev.shelves@.len(),
            forall|k: int| 0 <= k < prev.shelves@.len() && k != s as int
                ==> self.shelves@[k] == prev.shelves@[k],
            self.shelves@[s as int].y == prev.shelves@[s as int].y,
            self.shelves@[s as int].height == prev.shelves@[s as int].height,
            self.shelves@[s as int].cursor == prev.shelves@[s as int].cursor + rect.width,
            self.shelves@[s as int].cursor <= self.width,
            self.entries@ == prev.entries@.push(
                AtlasEntry { key, shelf: s, rect, last_used: prev.tick },
            ),
            rect.x == prev.shelves@[s as int].cursor,
            rect.y == prev.shelves@[s as int].y,
            1 <= rect.width,
            1 <= rect.height,
            rect.height <= prev.shelves@[s as int].height,
        ensures
            self.wf(),
            self.resident(key),
            self.rect_of(key) == rect,
            forall|k: GlyphKey| prev.resident(k)
                ==> self.resident(k) && self.rect_of(k) == prev.rect_of(k),
            forall|k: GlyphKey| self.resident(k) ==> prev.resident(k) || k == key,
    {
        let m = prev.entries@.len() as int;
        assert forall|i: int| 0 <= i < self.shelves@.len() implies #[trigger] self.shelf_wf(i) by {
            assert(prev.shelf_wf(i));
            lemma_sum_heights_congruence(self.shelves@, prev.shelves@, i);
        }
        lemma_sum_heights_congruence(self.shelves@, prev.shelves@, self.shelves@.len() as int);
        assert forall|i: int| 0 <= i < self.entries@.len() implies #[trigger] self.entry_wf(i) by {
            if i < m {
                assert(prev.entry_wf(i));
                assert(self.entries@[i] == prev.entries@[i]);
            } else {
                assert(prev.shelf_wf(s as int));
                let e = self.entries@[i];
                assert(e == AtlasEntry { key, shelf: s, rect, last_used: prev.tick });
                assert(e.shelf < self.shelves@.len());
                assert(e.rect.y == self.shelves@[e.shelf as int].y);
                assert(e.rect.height <= self.shelves@[e.shelf as int].height);
                assert(e.rect.x + e.rect.width <= self.shelves@[e.shelf as int].cursor);
                assert(e.last_used < self.tick);
            }
        }
        assert forall|i: int, j: int|
            0 <= i < self.entries@.len() && 0 <= j < self.entries@.len() && i != j
            implies #[trigger] self.entries@[i].key != #[trigger] self.entries@[j].key by {
            if i < m && j < m {
                assert(prev.entries@[i].key != prev.entries@[j].key);
            } else if i == m {
                assert(!prev.resident(key));
                assert(prev.entries@[j].key != key);
            } else {
                assert(!prev.resident(key));
                assert(prev.entries@[i].key != key);
            }
        }
        assert forall|i: int, j: int|
            0 <= i < self.entries@.len() && 0 <= j < self.entries@.len() && i != j
                && #[trigger] self.entries@[i].shelf == #[trigger] self.entries@[j].shelf
            implies self.entries@[i].rect.x + self.entries@[i].rect.width
                <= self.entries@[j].rect.x
                || self.entries@[j].rect.x + self.entries@[j].rect.width
                    <= self.entries@[i].rect.x by {
            if i < m && j < m {
                assert(prev.entries@[i] == self.entries@[i]);
                assert(prev.entries@[j] == self.entries@[j]);
            } else if i == m {
                assert(prev.entry_wf(j));
            } else {
                assert(prev.entry_wf(i));
            }
        }
        assert(self.entries@[m].key == key);
        assert(self.resident(key));
        assert forall|k: GlyphKey| self.resident(k)
            implies prev.resident(k) || k == key by {
            let j = self.index_of(k);
            if j < m {
                assert(prev.entries@[j].key == k);
            }
        }
        assert forall|k: GlyphKey| prev.resident(k)
            implies self.resident(k) && self.rect_of(k) == prev.rect_of(k) by {
            let j = prev.index_of(k);
            assert(self.entries@[j].key == k);
            assert(self.resident(k));
            let j2 = self.index_of(k);
            if j2 < m {
                assert(prev.entries@[j2].key == k);
                assert(j2 == j);
            } else {
                assert(prev.entries@[j].key != key);
            }
        }
        let j2 = self.index_of(key);
        if j2 < m {
            assert(prev.entries@[j2].key == key);
            assert(prev.resident(key));
        }
        assert(self.rect_of(key) == rect);
    }

    /// Opens a new shelf of the glyph's exact height at the bottom of the
    /// used area and places the glyph at its left edge.
    fn open_shelf(&mut self, key: GlyphKey, w: usize, h: usize) -> (rect: RectPx)
        requires
            old(self).wf(),
            1 <= w <= old(self).width,
            1 <= h,
            old(self).used_height + h <= old(self).height,
            !old(self).resident(key),
            !old(self).queued@.contains(key),
            old(self).tick < u64::MAX,
        ensures
            final(self).wf(),
            final(self).width == old(self).width,
            final(self).height == old(self).height,
            final(self).pixels@ == old(self).pixels@,
            final(self).queued@ == old(self).queued@,
            final(self).used_height == old(self).used_height + h,
            final(self).tick == old(self).tick + 1,
            final(self).shelves@ == old(self).shelves@.push(
                Shelf { y: old(self).used_height, height: h, cursor: w },
            ),
            forall|k: int| 0 <= k < old(self).entries@.len()
                ==> final(self).entries@[k] == old(self).entries@[k],
            final(self).entries@.len() == old(self).entries@.len() + 1,
            final(self).entries@.last().key == key,
            final(self).entries@.last().last_used == old(self).tick,
            forall|k: GlyphKey| old(self).resident(k)
                ==> final(self).resident(k) && final(self).rect_of(k) == old(self).rect_of(k),
            forall|k: GlyphKey| final(self).resident(k) ==> old(self).resident(k) || k == key,
            rect == (RectPx { x: 0, y: old(self).used_height, width: w, height: h }),
            final(self).resident(key),
            final(self).rect_of(key) == rect,
            rect.x + w <= old(self).width,
            rect.y + h <= old(self).height,
    {
        let y: usize = self.used_height;
        let t: u64 = self.tick;
        let s: usize = self.shelves.len();
        self.shelves.push(Shelf { y, height: h, cursor: w });
        let rect = RectPx { x: 0, y, width: w, height: h };
        self.entries.push(AtlasEntry { key, shelf: s, rect, last_used: t });
        self.used_height = y + h;
        self.tick = t + 1;
        proof {
            self.lemma_after_open(*old(self), key, rect, s);
        }
        rect
    }

    /// After pushing a fresh shelf holding exactly one entry for a fresh
    /// `key`, the invariant still holds and residency changes by exactly
    /// that key.
    proof fn lemma_after_open(self, prev: Atlas, key: GlyphKey, rect: RectPx, s: usize)
        requires
            prev.wf(),
            !prev.resident(key),
            !prev.queued@.contains(key),
            prev.tick < u64::MAX,
            prev.used_height + rect.height <= prev.height,
            self.width == prev.width,
            self.height == prev.height,
            self.pixels@ == prev.pixels@,
            self.queued@ == prev.queued@,
            self.used_height == prev.used_height + rect.height,
            self.tick == prev.tick + 1,
            s == prev.shelves@.len(),
            self.shelves@ == prev.shelves@.push(
                Shelf { y: prev.used_height, height: rect.height, cursor: rect.width },
            ),
            self.entries@ == prev.entries@.push(
                AtlasEntry { key, shelf: s, rect, last_used: prev.tick },
            ),
            rect.x == 0,
            rect.y == prev.used_height,
            1 <= rect.width <= prev.width,
            1 <= rect.height,
        ensures
            self.wf(),
            self.resident(key),
            self.rect_of(key) == rect,
            forall|k: GlyphKey| prev.resident(k)
                ==> self.resident(k) && self.rect_of(k) == prev.rect_of(k),
            forall|k: GlyphKey| self.resident(k) ==> prev.resident(k) || k == key,
    {
        let m = prev.entries@.len() as int;
        let ns = s as int;
        assert forall|i: int| 0 <= i < self.shelves@.len() implies #[trigger] self.shelf_wf(i) by {
            lemma_sum_heights_congruence(self.shelves@, prev.shelves@, i);
            if i < ns {
                assert(prev.shelf_wf(i));
            } else {
                assert(self.shelves@[i] == Shelf {
                    y: prev.used_height,
                    height: rect.height,
                    cursor: rect.width,
                });
            }
        }
        assert(sum_heights(self.shelves@, ns + 1)
            == sum_heights(self.shelves@, ns) + self.shelves@[ns].height);
        lemma_sum_heights_congruence(self.shelves@, prev.shelves@, ns);
        assert(self.used_height == sum_heights(self.shelves@, self.shelves@.len() as int));
        assert forall|i: int| 0 <= i < self.entries@.len() implies #[trigger] self.entry_wf(i) by {
            if i < m {
                assert(prev.entry_wf(i));
                assert(self.entries@[i] == prev.entries@[i]);
                assert(self.shelves@[prev.entries@[i].shelf as int]
                    == prev.shelves@[prev.entries@[i].shelf as int]);
            } else {
                let e = self.entries@[i];
                assert(e == AtlasEntry { key, shelf: s, rect, last_used: prev.tick });
                assert(self.shelves@[ns] == Shelf {
                    y: prev.used_height,
                    height: rect.height,
                    cursor: rect.width,
                });
            }
        }
        assert forall|i: int, j: int|
            0 <= i < self.entries@.len() && 0 <= j < self.entries@.len() && i != j
            implies #[trigger] self.entries@[i].key != #[trigger] self.entries@[j].key by {
            if i < m && j < m {
                assert(prev.entries@[i].key != prev.entries@[j].key);
            } else if i == m {
                assert(prev.entries@[j].key != key);
            } else {
                assert(prev.entries@[i].key != key);
            }
        }
        assert forall|i: int, j: int|
            0 <= i < self.entries@.len() && 0 <= j < self.entries@.len() && i != j
                && #[trigger] self.entries@[i].shelf == #[trigger] self.entries@[j].shelf
            implies self.entries@[i].rect.x + self.entries@[i].rect.width
                <= self.entries@[j].rect.x
                || self.entries@[j].rect.x + self.entries@[j].rect.width
                    <= self.entries@[i].rect.x by {
            if i < m && j < m {
                assert(prev.entries@[i] == self.entries@[i]);
                assert(prev.entries@[j] == self.entries@[j]);
            } else if i == m {
                assert(prev.entry_wf(j));
                assert(prev.entries@[j].shelf < s);
            } else {
                assert(prev.entry_wf(i));
                assert(prev.entries@[i].shelf < s);
            }
        }
        assert(self.entries@[m].key == key);
        assert(self.resident(key));
        assert forall|k: GlyphKey| self.resident(k)
            implies prev.resident(k) || k == key by {
            let j = self.index_of(k);
            if j < m {
                assert(prev.entries@[j].key == k);
            }
        }
        assert forall|k: GlyphKey| prev.resident(k)
            implies self.resident(k) && self.rect_of(k) == prev.rect_of(k) by {
            let j = prev.index_of(k);
            assert(self.entries@[j].key == k);
            assert(self.resident(k));
            let j2 = self.index_of(k);
            if j2 < m {
                assert(prev.entries@[j2].key == k);
                assert(j2 == j);
            } else {
                assert(prev.entries@[j].key != key);
            }
        }
        let j2 = self.index_of(key);
        if j2 < m {
            assert(prev.entries@[j2].key == key);
            assert(prev.resident(key));
        }
        assert(self.rect_of(key) == rect);
    }
}

} // verus!
