use text_atlas::atlas::{GlyphBitmap, GlyphKey};
use text_atlas::geometry::{clip_frac, uv_frac, Frac, Rgba};
use text_atlas::text::{DrawText, PositionedGlyph, CACHE_HEIGHT, CACHE_WIDTH};

fn key(glyph: u16) -> GlyphKey {
    GlyphKey { font_id: 0, glyph, scale: 120, offset_x: 0, offset_y: 0 }
}

fn white() -> Rgba {
    Rgba { r: 255, g: 255, b: 255, a: 255 }
}

fn glyph_at(g: u16, left: i32, top: i32, width: u32, height: u32) -> PositionedGlyph {
    PositionedGlyph { key: key(g), left, top, width, height }
}

fn rasterize_pending(dt: &mut DrawText) {
    let pending = dt.pending_glyphs();
    let mut bitmaps: Vec<GlyphBitmap> = Vec::new();
    for (i, k) in pending.iter().enumerate() {
        // sizes here are the test glyphs' own; a real caller rasterizes
        bitmaps.push(GlyphBitmap {
            key: *k,
            width: 20,
            height: 40,
            data: vec![1 + i as u8; 20 * 40],
        });
    }
    dt.atlas.flush(&bitmaps);
}

#[test]
fn default_cache_dimensions() {
    assert_eq!(CACHE_WIDTH, 1000);
    assert_eq!(CACHE_HEIGHT, 1000);
    let dt = DrawText::new(CACHE_WIDTH, CACHE_HEIGHT);
    assert_eq!(dt.atlas.pixels.len(), 1000 * 1000);
}

#[test]
fn clip_frac_is_exact() {
    assert_eq!(clip_frac(100, 800), Frac { num: -600, den: 800 });
    assert_eq!(clip_frac(120, 800), Frac { num: -560, den: 800 });
    assert_eq!(clip_frac(0, 800), Frac { num: -800, den: 800 });
    assert_eq!(clip_frac(800, 800), Frac { num: 800, den: 800 });
    assert_eq!(clip_frac(400, 800), Frac { num: 0, den: 800 });
}

#[test]
fn uv_frac_is_exact() {
    assert_eq!(uv_frac(0, 1000), Frac { num: 0, den: 1000 });
    assert_eq!(uv_frac(250, 1000), Frac { num: 250, den: 1000 });
    assert_eq!(uv_frac(1000, 1000), Frac { num: 1000, den: 1000 });
}

#[test]
fn drained_quad_normalizes_screen_rect_exactly() {
    // a glyph occupying pixels (100,100)-(120,140) on an 800x600 screen
    // maps to clip X range [100/800*2-1, 120/800*2-1] and Y analogous
    let mut dt = DrawText::new(100, 100);
    dt.queue_text(white(), vec![glyph_at(1, 100, 100, 20, 40)]);
    rasterize_pending(&mut dt);
    let verts = dt.drain_for_draw(800, 600);
    assert_eq!(verts.len(), 6);
    let xmin = Frac { num: 2 * 100 - 800, den: 800 };
    let xmax = Frac { num: 2 * 120 - 800, den: 800 };
    let ymin = Frac { num: 2 * 100 - 600, den: 600 };
    let ymax = Frac { num: 2 * 140 - 600, den: 600 };
    assert_eq!(xmin, Frac { num: -600, den: 800 });
    assert_eq!(xmax, Frac { num: -560, den: 800 });
    // two triangles: (xmin,ymax) (xmin,ymin) (xmax,ymin),
    //                (xmax,ymin) (xmax,ymax) (xmin,ymax)
    assert_eq!((verts[0].pos_x, verts[0].pos_y), (xmin, ymax));
    assert_eq!((verts[1].pos_x, verts[1].pos_y), (xmin, ymin));
    assert_eq!((verts[2].pos_x, verts[2].pos_y), (xmax, ymin));
    assert_eq!((verts[3].pos_x, verts[3].pos_y), (xmax, ymin));
    assert_eq!((verts[4].pos_x, verts[4].pos_y), (xmax, ymax));
    assert_eq!((verts[5].pos_x, verts[5].pos_y), (xmin, ymax));
    for v in &verts {
        assert_eq!(v.color, white());
    }
}

#[test]
fn drained_quad_texture_coordinates_match_atlas_rect() {
    let mut dt = DrawText::new(100, 100);
    dt.queue_text(white(), vec![glyph_at(1, 0, 0, 20, 40)]);
    rasterize_pending(&mut dt);
    let rect = dt.atlas.rect_for(key(1)).unwrap();
    let verts = dt.drain_for_draw(800, 600);
    let umin = Frac { num: rect.x as i64, den: 100 };
    let umax = Frac { num: (rect.x + rect.width) as i64, den: 100 };
    let vmin = Frac { num: rect.y as i64, den: 100 };
    let vmax = Frac { num: (rect.y + rect.height) as i64, den: 100 };
    assert_eq!((verts[0].tex_u, verts[0].tex_v), (umin, vmax));
    assert_eq!((verts[1].tex_u, verts[1].tex_v), (umin, vmin));
    assert_eq!((verts[2].tex_u, verts[2].tex_v), (umax, vmin));
    assert_eq!((verts[3].tex_u, verts[3].tex_v), (umax, vmin));
    assert_eq!((verts[4].tex_u, verts[4].tex_v), (umax, vmax));
    assert_eq!((verts[5].tex_u, verts[5].tex_v), (umin, vmax));
}

#[test]
fn drain_consumes_the_queue() {
    let mut dt = DrawText::new(100, 100);
    dt.queue_text(white(), vec![glyph_at(1, 10, 10, 20, 40)]);
    rasterize_pending(&mut dt);
    let first = dt.drain_for_draw(800, 600);
    assert_eq!(first.len(), 6);
    // no queue_text in between: the second drain is empty
    let second = dt.drain_for_draw(800, 600);
    assert_eq!(second.len(), 0);
}

#[test]
fn glyph_queued_twice_in_one_frame_is_scheduled_once() {
    let mut dt = DrawText::new(100, 100);
    dt.queue_text(white(), vec![glyph_at(1, 0, 0, 20, 40)]);
    dt.queue_text(white(), vec![glyph_at(1, 30, 0, 20, 40)]);
    assert_eq!(dt.pending_glyphs(), vec![key(1)]);
    rasterize_pending(&mut dt);
    // resident exactly once
    assert_eq!(dt.atlas.entries.len(), 1);
    // both queued runs draw the one resident glyph
    let verts = dt.drain_for_draw(800, 600);
    assert_eq!(verts.len(), 12);
}

#[test]
fn missing_glyph_is_skipped_in_draw_list() {
    let mut dt = DrawText::new(100, 100);
    dt.queue_text(white(), vec![glyph_at(1, 0, 0, 20, 40)]);
    // never rasterized: the drain skips it silently
    let verts = dt.drain_for_draw(800, 600);
    assert_eq!(verts.len(), 0);
    assert_eq!(dt.atlas.entries.len(), 0);
}

#[test]
fn zero_size_glyphs_and_empty_runs_are_no_ops() {
    let mut dt = DrawText::new(100, 100);
    dt.queue_text(white(), vec![]);
    dt.queue_text(white(), vec![glyph_at(2, 5, 5, 0, 0)]);
    assert_eq!(dt.pending_glyphs().len(), 0);
    let verts = dt.drain_for_draw(800, 600);
    assert_eq!(verts.len(), 0);
}

#[test]
fn colors_follow_their_runs() {
    let red = Rgba { r: 255, g: 0, b: 0, a: 255 };
    let blue = Rgba { r: 0, g: 0, b: 255, a: 128 };
    let mut dt = DrawText::new(100, 100);
    dt.queue_text(red, vec![glyph_at(1, 0, 0, 20, 40)]);
    dt.queue_text(blue, vec![glyph_at(1, 30, 0, 20, 40)]);
    rasterize_pending(&mut dt);
    let verts = dt.drain_for_draw(800, 600);
    assert_eq!(verts.len(), 12);
    assert!(verts[..6].iter().all(|v| v.color == red));
    assert!(verts[6..].iter().all(|v| v.color == blue));
}
