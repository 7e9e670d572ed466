//! The per-frame text queue: accumulates colored, positioned glyph runs,
//! requests their atlas entries, and drains into exact clip-space quad
//! geometry once per frame.

use vstd::prelude::*;

use crate::atlas::{Atlas, GlyphKey};
use crate::geometry::{push_glyph_quad, quad_vertices, Rgba, Vertex};

verus! {

/// Default atlas width, in pixels.
pub const CACHE_WIDTH: usize = 1000;

/// Default atlas height, in pixels.
pub const CACHE_HEIGHT: usize = 1000;

/// One shaped glyph of a queued string: its cache key and its screen
/// pixel rectangle `(left, top)`-`(left + width, top + height)`.
#[derive(Clone, Copy, Debug, PartialEq, Eq, Structural)]
pub struct PositionedGlyph {
    pub key: GlyphKey,
    pub left: i32,
    pub top: i32,
    pub width: u32,
    pub height: u32,
}

/// One queued draw request: a run of positioned glyphs and its color.
/// It lives for one frame: queued by `queue_text`, consumed by
/// `drain_for_draw`.
pub struct TextData {
    pub glyphs: Vec<PositionedGlyph>,
    pub color: Rgba,
}

/// The text renderer state: the glyph atlas cache and the draw requests
/// queued since the last drain. Single-threaded: one frame loop drives
/// it in strict sequence.
pub struct DrawText {
    pub atlas: Atlas,
    pub texts: Vec<TextData>,
}

/// The quad a single glyph contributes: six vertices when its key is
/// resident in the atlas, nothing otherwise (a miss is skipped, never an
/// error).
pub open spec fn glyph_quad_spec(
    atlas: Atlas,
    g: PositionedGlyph,
    sw: u32,
    sh: u32,
    color: Rgba,
) -> Seq<Vertex> {
    if atlas.resident(g.key) {
        quad_vertices(
            g.left as int,
            g.top as int,
            g.left + g.width,
            g.top + g.height,
            atlas.rect_of(g.key).x as int,
            atlas.rect_of(g.key).y as int,
            atlas.rect_of(g.key).x + atlas.rect_of(g.key).width,
            atlas.rect_of(g.key).y + atlas.rect_of(g.key).height,
            sw as int,
            sh as int,
            atlas.width as int,
            atlas.height as int,
            color,
        )
    } else {
        Seq::empty()
    }
}

/// The vertices of one queued run, glyph by glyph.
pub open spec fn text_vertices(
    atlas: Atlas,
    glyphs: Seq<PositionedGlyph>,
    color: Rgba,
    sw: u32,
    sh: u32,
) -> Seq<Vertex>
    decreases glyphs.len(),
{
    if glyphs.len() == 0 {
        Seq::empty()
    } else {
        text_vertices(atlas, glyphs.drop_last(), color, sw, sh)
            + glyph_quad_spec(atlas, glyphs.last(), sw, sh, color)
    }
}

/// The vertices of a whole drain: every queued run in order.
pub open spec fn drain_vertices(
    atlas: Atlas,
    texts: Seq<TextData>,
    sw: u32,
    sh: u32,
) -> Seq<Vertex>
    decreases texts.len(),
{
    if texts.len() == 0 {
        Seq::empty()
    } else {
        drain_vertices(atlas, texts.drop_last(), sw, sh)
            + text_vertices(atlas, texts.last().glyphs@, texts.last().color, sw, sh)
    }
}

/// Draining an empty queue emits no vertices; since a drain leaves the
/// queue empty, draining twice in a row yields an empty list the second
/// time.
pub proof fn lemma_drain_of_empty(atlas: Atlas, sw: u32, sh: u32)
    ensures
        drain_vertices(atlas, Seq::<TextData>::empty(), sw, sh) == Seq::<Vertex>::empty(),
{
}

impl DrawText {
    /// Creates a renderer with an empty queue and an empty atlas of the
    /// given pixel dimensions.
    pub fn new(atlas_width: usize, atlas_height: usize) -> (t: DrawText)
        requires
            1 <= atlas_width <= 0xFFFF_FFFF,
            1 <= atlas_height <= 0xFFFF_FFFF,
            atlas_width * atlas_height <= usize::MAX,
        ensures
            t.atlas.wf(),
            t.atlas.width == atlas_width,
            t.atlas.height == atlas_height,
            t.atlas.entries@.len() == 0,
            t.atlas.queued@.len() == 0,
            t.texts@.len() == 0,
            forall|p: int| 0 <= p < t.atlas.pixels@.len() ==> t.atlas.pixels@[p] == 0u8,
    {
        DrawText { atlas: Atlas::new(atlas_width, atlas_height), texts: Vec::new() }
    }

    /// Queues one shaped run for this frame's draw: every glyph with a
    /// visible bitmap is requested from the atlas (refreshing it if
    /// resident, scheduling one rasterization if not), and the run is
    /// stored with its color. Residency and rectangles do not change.
    pub fn queue_text(&mut self, color: Rgba, glyphs: Vec<PositionedGlyph>)
        requires
            old(self).atlas.wf(),
            old(self).atlas.tick + glyphs@.len() <= u64::MAX,
        ensures
            final(self).atlas.wf(),
            final(self).texts@ == old(self).texts@.push(TextData { glyphs, color }),
            final(self).atlas.width == old(self).atlas.width,
            final(self).atlas.height == old(self).atlas.height,
            final(self).atlas.pixels@ == old(self).atlas.pixels@,
            forall|k: GlyphKey| final(self).atlas.resident(k) == old(self).atlas.resident(k),
            forall|k: GlyphKey| #[trigger] old(self).atlas.resident(k)
                ==> final(self).atlas.rect_of(k) == old(self).atlas.rect_of(k),
            forall|g: PositionedGlyph| glyphs@.contains(g) && g.width >= 1 && g.height >= 1
                ==> old(self).atlas.resident(g.key)
                    || final(self).atlas.queued@.contains(g.key),
            forall|k: GlyphKey| old(self).atlas.queued@.contains(k)
                ==> final(self).atlas.queued@.contains(k),
            forall|k: GlyphKey| final(self).atlas.queued@.contains(k)
                ==> old(self).atlas.queued@.contains(k)
                    || exists|g: PositionedGlyph| glyphs@.contains(g) && g.key == k,
            old(self).atlas.tick <= final(self).atlas.tick
                <= old(self).atlas.tick + glyphs@.len(),
    {
        let n: usize = glyphs.len();
        let mut j: usize = 0;
        while j < n
            invariant
                self.atlas.wf(),
                n == glyphs@.len(),
                j <= n,
                self.texts@ == old(self).texts@,
                self.atlas.width == old(self).atlas.width,
                self.atlas.height == old(self).atlas.height,
                self.atlas.pixels@ == old(self).atlas.pixels@,
                old(self).atlas.tick + n <= u64::MAX,
                old(self).atlas.tick <= self.atlas.tick <= old(self).atlas.tick + j,
                self.atlas.entries@.len() == old(self).atlas.entries@.len(),
                forall|e: int| 0 <= e < old(self).atlas.entries@.len() ==> {
                    &&& (#[trigger] self.atlas.entries@[e]).key
                        == old(self).atlas.entries@[e].key
                    &&& self.atlas.entries@[e].rect == old(self).atlas.entries@[e].rect
                },
                forall|jj: int| 0 <= jj < j
                    && (#[trigger] glyphs@[jj]).width >= 1 && glyphs@[jj].height >= 1
                    ==> old(self).atlas.resident(glyphs@[jj].key)
                        || self.atlas.queued@.contains(glyphs@[jj].key),
                forall|k: GlyphKey| old(self).atlas.queued@.contains(k)
                    ==> self.atlas.queued@.contains(k),
                forall|k: GlyphKey| self.atlas.queued@.contains(k)
                    ==> old(self).atlas.queued@.contains(k)
                        || exists|jj: int| 0 <= jj < j && (#[trigger] glyphs@[jj]).key == k,
            decreases n - j,
        {
            let g: PositionedGlyph = glyphs[j];
            if g.width >= 1 && g.height >= 1 {
                let ghost pre = self.atlas;
                self.atlas.request(g.key);
                proof {
                    pre.lemma_layout_preserves_rects(self.atlas);
                    if !pre.resident(g.key) && !pre.queued@.contains(g.key) {
                        assert(self.atlas.queued@.last() == g.key);
                        assert(self.atlas.queued@.contains(g.key));
                    }
                }
            }
            j = j + 1;
        }
        proof {
            let pre = self.atlas;
            pre.lemma_layout_preserves_rects(old(self).atlas);
            assert forall|k: GlyphKey| self.atlas.queued@.contains(k)
                implies old(self).atlas.queued@.contains(k)
                    || exists|g: PositionedGlyph| glyphs@.contains(g) && g.key == k by {
                if !old(self).atlas.queued@.contains(k) {
                    let jj = choose|jj: int|
                        0 <= jj < glyphs@.len() && (#[trigger] glyphs@[jj]).key == k;
                    assert(glyphs@.contains(glyphs@[jj]));
                }
            }
        }
        self.texts.push(TextData { glyphs, color });
    }

    /// Copies the keys awaiting rasterization, for the caller to
    /// rasterize and hand to `Atlas::flush`.
    pub fn pending_glyphs(&self) -> (keys: Vec<GlyphKey>)
        ensures
            keys@ == self.atlas.queued@,
    {
        let n: usize = self.atlas.queued.len();
        let mut keys: Vec<GlyphKey> = Vec::new();
        let mut i: usize = 0;
        while i < n
            invariant
                n == self.atlas.queued@.len(),
                i <= n,
                keys@ == self.atlas.queued@.subrange(0, i as int),
            decreases n - i,
        {
            keys.push(self.atlas.queued[i]);
            proof {
                assert(keys@ =~= self.atlas.queued@.subrange(0, i as int + 1));
            }
            i = i + 1;
        }
        proof {
            assert(self.atlas.queued@.subrange(0, n as int) =~= self.atlas.queued@);
        }
        keys
    }

    /// Emits the quad list for everything queued this frame — two
    /// triangles per glyph whose key is resident, in queue order,
    /// converting screen pixels to clip space and atlas pixels to texture
    /// space exactly — and empties the queue: a second drain with no
    /// intervening `queue_text` yields an empty list.
    pub fn drain_for_draw(&mut self, screen_width: u32, screen_height: u32)
        -> (out: Vec<Vertex>)
        requires
            old(self).atlas.wf(),
            1 <= screen_width,
            1 <= screen_height,
        ensures
            final(self).atlas == old(self).atlas,
            final(self).texts@.len() == 0,
            out@ == drain_vertices(
                old(self).atlas, old(self).texts@, screen_width, screen_height,
            ),
    {
        let mut out: Vec<Vertex> = Vec::new();
        let tn: usize = self.texts.len();
        let mut i: usize = 0;
        while i < tn
            invariant
                self.atlas.wf(),
                *self == *old(self),
                1 <= screen_width,
                1 <= screen_height,
                tn == self.texts@.len(),
                i <= tn,
                out@ == drain_vertices(
                    self.atlas,
                    self.texts@.subrange(0, i as int),
                    screen_width,
                    screen_height,
                ),
            decreases tn - i,
        {
            let color: Rgba = self.texts[i].color;
            let gn: usize = self.texts[i].glyphs.len();
            let mut j: usize = 0;
            while j < gn
                invariant
                    self.atlas.wf(),
                    *self == *old(self),
                    1 <= screen_width,
                    1 <= screen_height,
                    tn == self.texts@.len(),
                    i < tn,
                    gn == self.texts@[i as int].glyphs@.len(),
                    color == self.texts@[i as int].color,
                    j <= gn,
                    out@ == drain_vertices(
                        self.atlas,
                        self.texts@.subrange(0, i as int),
                        screen_width,
                        screen_height,
                    ) + text_vertices(
                        self.atlas,
                        self.texts@[i as int].glyphs@.subrange(0, j as int),
                        color,
                        screen_width,
                        screen_height,
                    ),
                decreases gn - j,
            {
                let g: PositionedGlyph = self.texts[i].glyphs[j];
                match self.atlas.rect_for(g.key) {
                    Some(rect) => {
                        proof {
                            self.atlas.lemma_rect_of_in_bounds(g.key);
                        }
                        push_glyph_quad(
                            &mut out,
                            g.left as i64,
                            g.top as i64,
                            g.left as i64 + g.width as i64,
                            g.top as i64 + g.height as i64,
                            rect,
                            self.atlas.width,
                            self.atlas.height,
                            screen_width,
                            screen_height,
                            color,
                        );
                    },
                    None => {},
                }
                proof {
                    let gs = self.texts@[i as int].glyphs@;
                    assert(gs.subrange(0, j as int + 1).drop_last()
                        =~= gs.subrange(0, j as int));
                    assert(gs.subrange(0, j as int + 1).last() == gs[j as int]);
                }
                j = j + 1;
            }
            proof {
                let gs = self.texts@[i as int].glyphs@;
                assert(gs.subrange(0, gn as int) =~= gs);
                assert(self.texts@.subrange(0, i as int + 1).drop_last()
                    =~= self.texts@.subrange(0, i as int));
                assert(self.texts@.subrange(0, i as int + 1).last()
                    == self.texts@[i as int]);
            }
            i = i + 1;
        }
        proof {
            assert(self.texts@.subrange(0, tn as int) =~= self.texts@);
        }
        self.texts = Vec::new();
        out
    }
}

} // verus!
