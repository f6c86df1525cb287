use game_engine_rs::text::{
    grown_capacity, GlyphAtlas, GlyphCache, Placement, ATLAS_HEIGHT, ATLAS_WIDTH,
};

#[test]
fn glyphs_fill_rows_left_to_right() {
    let mut atlas = GlyphAtlas::new();
    assert_eq!(atlas.place(10, 20), Placement::At { x: 0, y: 0 });
    assert_eq!(atlas.place(30, 12), Placement::At { x: 11, y: 0 });
    assert_eq!(atlas.place(0, 12), Placement::Empty);
    assert_eq!(atlas.place(5, 0), Placement::Empty);
    assert_eq!(atlas.place(1000, 5), Placement::At { x: 0, y: 21 });
    assert_eq!(atlas.place(7, 7), Placement::At { x: 1001, y: 21 });
    assert_eq!(atlas.place(30, 8), Placement::At { x: 0, y: 29 });
}

#[test]
fn atlas_reports_full_below_the_last_row() {
    let mut atlas = GlyphAtlas::new();
    assert_eq!(atlas.place(600, 1000), Placement::At { x: 0, y: 0 });
    assert_eq!(atlas.place(600, 30), Placement::Full);
    assert_eq!(atlas.place(100, 22), Placement::Full);
    assert_eq!(atlas.place(100, 21), Placement::At { x: 0, y: 1001 });
    assert_eq!(atlas.place(100, 22), Placement::Full);
    assert_eq!(atlas.place(10, 21), Placement::At { x: 101, y: 1001 });
    assert!(ATLAS_WIDTH == 1024 && ATLAS_HEIGHT == 1024);
}

#[test]
fn placement_range_check() {
    let atlas = GlyphAtlas::new();
    assert!(atlas.in_range(10, 10));
    assert!(atlas.in_range(0, u32::MAX));
    assert!(!atlas.in_range(u32::MAX, 1));
    assert!(!atlas.in_range(1, u32::MAX));
}

#[test]
fn capacity_doubles_until_it_fits() {
    assert_eq!(grown_capacity(1536, 100), 1536);
    assert_eq!(grown_capacity(1536, 1536), 1536);
    assert_eq!(grown_capacity(1536, 1537), 3072);
    assert_eq!(grown_capacity(1536, 7000), 12288);
    assert_eq!(grown_capacity(0, 5), 8);
    assert_eq!(grown_capacity(0, 0), 0);
    assert_eq!(grown_capacity(3, 3), 3);
    assert_eq!(grown_capacity(3, 4), 6);
}

#[test]
fn cached_glyphs_keep_their_place() {
    let mut cache = GlyphCache::new();
    assert_eq!(cache.get((7, 20)), None);
    assert_eq!(cache.make_room((7, 20), 10, 12), Placement::At { x: 0, y: 0 });
    assert_eq!(cache.make_room((8, 20), 5, 5), Placement::At { x: 11, y: 0 });
    assert_eq!(cache.make_room((7, 20), 10, 12), Placement::At { x: 0, y: 0 });
    assert_eq!(cache.get((7, 20)), Some(Placement::At { x: 0, y: 0 }));
    assert_eq!(cache.get((7, 21)), None);
    assert_eq!(cache.make_room((9, 20), 0, 0), Placement::Empty);
    assert_eq!(cache.get((9, 20)), Some(Placement::Empty));
    assert_eq!(cache.make_room((10, 20), 5, 5), Placement::At { x: 17, y: 0 });
}

#[test]
fn glyphs_that_find_no_room_are_not_cached() {
    let mut cache = GlyphCache::new();
    assert_eq!(cache.make_room((1, 90), 600, 1000), Placement::At { x: 0, y: 0 });
    assert_eq!(cache.make_room((2, 90), 600, 30), Placement::Full);
    assert_eq!(cache.get((2, 90)), None);
    assert!(cache.in_range(10, 10));
}

#[test]
fn new_places_keep_a_pixel_from_earlier_ones() {
    let mut cache = GlyphCache::new();
    assert_eq!(cache.make_room((1, 12), 30, 40), Placement::At { x: 0, y: 0 });
    assert_eq!(cache.make_room((2, 12), 1000, 10), Placement::At { x: 0, y: 41 });
    assert_eq!(cache.make_room((3, 12), 30, 20), Placement::At { x: 0, y: 52 });
}
