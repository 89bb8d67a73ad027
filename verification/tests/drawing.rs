use cull::layout::{index_at, place, row_count};
use cull::render::{add_quad, shadow_alpha, tiles, Align, Draw, Tile};

#[test]
fn small_images_are_one_tile() {
    assert_eq!(tiles(100, 50, 8192), [Tile { x: 0, y: 0, w: 100, h: 50, offset: 0 }]);
    assert_eq!(tiles(0, 50, 8192), []);
}

#[test]
fn large_images_are_cut() {
    assert_eq!(
        tiles(5, 3, 2),
        [
            Tile { x: 0, y: 0, w: 2, h: 2, offset: 0 },
            Tile { x: 2, y: 0, w: 2, h: 2, offset: 8 },
            Tile { x: 4, y: 0, w: 1, h: 2, offset: 16 },
            Tile { x: 0, y: 2, w: 2, h: 1, offset: 40 },
            Tile { x: 2, y: 2, w: 2, h: 1, offset: 48 },
            Tile { x: 4, y: 2, w: 1, h: 1, offset: 56 },
        ]
    );
    // Every pixel is in exactly one tile.
    let t = tiles(37, 23, 10);
    for y in 0..23 {
        for x in 0..37 {
            assert_eq!(t.iter().filter(|t| x >= t.x && x < t.x + t.w && y >= t.y && y < t.y + t.h).count(), 1);
        }
    }
    assert_eq!(tiles(u32::MAX, 1, u32::MAX).len(), 1);
    assert_eq!(tiles(u32::MAX, 1, 1 << 31).len(), 2);
}

#[test]
fn quads_with_one_texture_are_drawn_at_once() {
    let mut d = Vec::new();
    for (k, t) in [3usize, 3, 5, 5, 5, 3].into_iter().enumerate() {
        add_quad(&mut d, t, 6 * k as u32);
    }
    assert_eq!(
        d,
        [
            Draw { texture: 3, start: 0, end: 12 },
            Draw { texture: 5, start: 12, end: 30 },
            Draw { texture: 3, start: 30, end: 36 },
        ]
    );
}

#[test]
fn cells_in_rows_and_columns() {
    assert_eq!(place(5, 4), (1, 1));
    assert_eq!((row_count(0, 4), row_count(4, 4), row_count(5, 4), row_count(12, 4)), (0, 1, 2, 3));
    for i in 0..10 {
        let (row, col) = place(i, 3);
        assert_eq!(index_at(row, col, 3, 10), Some(i));
    }
    assert_eq!(index_at(3, 1, 3, 10), None);
    assert_eq!(index_at(0, 3, 3, 10), None);
    assert_eq!(index_at(usize::MAX, 2, 3, 10), None);
}

#[test]
fn shadows_are_fainter() {
    assert_eq!((shadow_alpha(255), shadow_alpha(1), shadow_alpha(0)), (191, 0, 0));
    assert_ne!(Align::Left, Align::Right);
}
