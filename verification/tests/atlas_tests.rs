use text_atlas::atlas::{Atlas, GlyphBitmap, GlyphKey, GlyphLookup, RectPx};

fn key(glyph: u16) -> GlyphKey {
    GlyphKey { font_id: 0, glyph, scale: 120, offset_x: 0, offset_y: 0 }
}

fn bitmap(k: GlyphKey, width: usize, height: usize, fill: u8) -> GlyphBitmap {
    GlyphBitmap { key: k, width, height, data: vec![fill; width * height] }
}

fn disjoint(a: RectPx, b: RectPx) -> bool {
    a.x + a.width <= b.x || b.x + b.width <= a.x || a.y + a.height <= b.y
        || b.y + b.height <= a.y
}

#[test]
fn new_atlas_is_empty_and_zeroed() {
    let a = Atlas::new(16, 8);
    assert_eq!(a.width, 16);
    assert_eq!(a.height, 8);
    assert_eq!(a.entries.len(), 0);
    assert_eq!(a.queued.len(), 0);
    assert_eq!(a.pixels.len(), 16 * 8);
    assert!(a.pixels.iter().all(|&b| b == 0));
}

#[test]
fn request_schedules_rasterization_once() {
    // a glyph queued many times in one frame is scheduled exactly once
    let mut a = Atlas::new(64, 64);
    assert!(matches!(a.request(key(1)), GlyphLookup::Pending));
    assert!(matches!(a.request(key(1)), GlyphLookup::Pending));
    assert!(matches!(a.request(key(1)), GlyphLookup::Pending));
    assert_eq!(a.queued.len(), 1);
    assert_eq!(a.queued[0], key(1));
}

#[test]
fn flush_makes_requested_glyph_resident_exactly_once() {
    let mut a = Atlas::new(64, 64);
    a.request(key(1));
    a.request(key(1));
    let dirty = a.flush(&vec![bitmap(key(1), 4, 4, 9)]);
    assert_eq!(a.entries.len(), 1);
    assert_eq!(a.queued.len(), 0);
    let rect = a.rect_for(key(1)).unwrap();
    assert_eq!(rect.width, 4);
    assert_eq!(rect.height, 4);
    assert_eq!(dirty.len(), 1);
    assert_eq!(dirty[0], rect);
}

#[test]
fn resident_glyph_request_returns_its_rectangle() {
    let mut a = Atlas::new(64, 64);
    a.request(key(1));
    a.flush(&vec![bitmap(key(1), 3, 5, 1)]);
    let rect = a.rect_for(key(1)).unwrap();
    match a.request(key(1)) {
        GlyphLookup::Resident(r) => assert_eq!(r, rect),
        GlyphLookup::Pending => panic!("resident glyph reported pending"),
    }
    assert_eq!(a.queued.len(), 0);
}

#[test]
fn packed_rectangles_never_overlap() {
    let mut a = Atlas::new(20, 20);
    let mut bitmaps = Vec::new();
    for g in 0..6u16 {
        a.request(key(g));
        bitmaps.push(bitmap(key(g), 5 + (g as usize % 3), 4, 7));
    }
    a.flush(&bitmaps);
    let mut rects = Vec::new();
    for g in 0..6u16 {
        if let Some(r) = a.rect_for(key(g)) {
            rects.push(r);
        }
    }
    assert!(rects.len() >= 2);
    for i in 0..rects.len() {
        for j in 0..rects.len() {
            if i != j {
                assert!(disjoint(rects[i], rects[j]));
            }
        }
    }
}

#[test]
fn flush_copies_coverage_bytes_to_packed_offset() {
    let mut a = Atlas::new(8, 8);
    a.request(key(1));
    let bm = GlyphBitmap { key: key(1), width: 2, height: 2, data: vec![10, 20, 30, 40] };
    let dirty = a.flush(&vec![bm]);
    let r = a.rect_for(key(1)).unwrap();
    assert_eq!((r.width, r.height), (2, 2));
    assert_eq!(a.pixels[r.y * 8 + r.x], 10);
    assert_eq!(a.pixels[r.y * 8 + r.x + 1], 20);
    assert_eq!(a.pixels[(r.y + 1) * 8 + r.x], 30);
    assert_eq!(a.pixels[(r.y + 1) * 8 + r.x + 1], 40);
    // everything outside the dirty rectangle is untouched
    assert_eq!(dirty, vec![r]);
    for y in 0..8 {
        for x in 0..8 {
            let inside = x >= r.x && x < r.x + r.width && y >= r.y && y < r.y + r.height;
            if !inside {
                assert_eq!(a.pixels[y * 8 + x], 0);
            }
        }
    }
}

#[test]
fn eviction_takes_least_recently_requested_row_first() {
    // room for exactly three 10x10 glyphs, one per row
    let mut a = Atlas::new(10, 30);
    for g in 1..=3u16 {
        a.request(key(g));
        a.flush(&vec![bitmap(key(g), 10, 10, g as u8)]);
    }
    assert!(a.rect_for(key(1)).is_some());
    assert!(a.rect_for(key(2)).is_some());
    assert!(a.rect_for(key(3)).is_some());
    // a fourth distinct glyph forces an eviction: the first-requested
    // glyph goes, the fresher ones stay
    a.request(key(4));
    a.flush(&vec![bitmap(key(4), 10, 10, 4)]);
    assert!(a.rect_for(key(1)).is_none());
    assert!(a.rect_for(key(2)).is_some());
    assert!(a.rect_for(key(3)).is_some());
    assert!(a.rect_for(key(4)).is_some());
}

#[test]
fn refreshed_glyph_survives_eviction() {
    let mut a = Atlas::new(10, 30);
    for g in 1..=3u16 {
        a.request(key(g));
        a.flush(&vec![bitmap(key(g), 10, 10, g as u8)]);
    }
    // touching the oldest glyph makes the second-requested the victim
    a.request(key(1));
    a.request(key(4));
    a.flush(&vec![bitmap(key(4), 10, 10, 4)]);
    assert!(a.rect_for(key(1)).is_some());
    assert!(a.rect_for(key(2)).is_none());
    assert!(a.rect_for(key(3)).is_some());
    assert!(a.rect_for(key(4)).is_some());
}

#[test]
fn evicted_glyph_is_rerasterized_not_served_stale() {
    let mut a = Atlas::new(10, 30);
    for g in 1..=4u16 {
        a.request(key(g));
        a.flush(&vec![bitmap(key(g), 10, 10, g as u8)]);
    }
    // glyph 1 was evicted: no stale rectangle is ever served
    assert!(a.rect_for(key(1)).is_none());
    // requesting it again schedules a fresh rasterization
    assert!(matches!(a.request(key(1)), GlyphLookup::Pending));
    assert_eq!(a.queued, vec![key(1)]);
    a.flush(&vec![bitmap(key(1), 10, 10, 11)]);
    let r = a.rect_for(key(1)).unwrap();
    assert_eq!((r.width, r.height), (10, 10));
    assert_eq!(a.pixels[r.y * 10 + r.x], 11);
}

#[test]
fn oversized_glyph_is_dropped_without_error() {
    let mut a = Atlas::new(10, 10);
    a.request(key(1));
    let dirty = a.flush(&vec![bitmap(key(1), 20, 20, 1)]);
    assert!(a.rect_for(key(1)).is_none());
    assert_eq!(dirty.len(), 0);
    assert_eq!(a.queued.len(), 0);
}

#[test]
fn full_eviction_reclaims_whole_atlas_for_tall_glyph() {
    // three short rows fill the height; a taller glyph still fits once
    // every stale row is evicted and the space repacked
    let mut a = Atlas::new(12, 12);
    for g in 1..=3u16 {
        a.request(key(g));
        a.flush(&vec![bitmap(key(g), 12, 4, g as u8)]);
    }
    a.request(key(9));
    a.flush(&vec![bitmap(key(9), 12, 12, 9)]);
    let r = a.rect_for(key(9)).unwrap();
    assert_eq!((r.x, r.y, r.width, r.height), (0, 0, 12, 12));
    assert!(a.rect_for(key(1)).is_none());
    assert!(a.rect_for(key(2)).is_none());
    assert!(a.rect_for(key(3)).is_none());
}

#[test]
fn glyphs_of_one_flush_do_not_evict_each_other() {
    // the first two bitmaps exactly fill the atlas; the third could only
    // be packed by evicting a glyph of this same flush, so it is dropped
    let mut a = Atlas::new(10, 10);
    a.request(key(1));
    a.request(key(2));
    a.request(key(3));
    let dirty = a.flush(&vec![
        bitmap(key(1), 10, 5, 1),
        bitmap(key(2), 10, 5, 2),
        bitmap(key(3), 10, 10, 3),
    ]);
    assert!(a.rect_for(key(1)).is_some());
    assert!(a.rect_for(key(2)).is_some());
    assert!(a.rect_for(key(3)).is_none());
    assert_eq!(dirty.len(), 2);
}
