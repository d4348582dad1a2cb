use rustlight::tiles::{generate_tiles, pixel_index, Tile};

fn coverage(w: u32, h: u32, ts: u32) -> Vec<u32> {
    let mut count = vec![0u32; (w * h) as usize];
    for t in generate_tiles(w, h, ts) {
        assert!(t.width >= 1 && t.width <= ts);
        assert!(t.height >= 1 && t.height <= ts);
        for y in t.y..t.y + t.height {
            for x in t.x..t.x + t.width {
                count[(y * w + x) as usize] += 1;
            }
        }
    }
    count
}

#[test]
fn tiles_of_exact_multiple() {
    let t = generate_tiles(32, 16, 16);
    assert_eq!(
        t,
        vec![
            Tile { x: 0, y: 0, width: 16, height: 16 },
            Tile { x: 16, y: 0, width: 16, height: 16 }
        ]
    );
}

#[test]
fn last_row_and_column_are_smaller() {
    let t = generate_tiles(40, 20, 16);
    assert_eq!(t.len(), 6);
    assert_eq!(t[2], Tile { x: 32, y: 0, width: 8, height: 16 });
    assert_eq!(t[3], Tile { x: 0, y: 16, width: 16, height: 4 });
    assert_eq!(t[5], Tile { x: 32, y: 16, width: 8, height: 4 });
}

#[test]
fn empty_frame_has_no_tiles() {
    assert!(generate_tiles(0, 10, 16).is_empty());
    assert!(generate_tiles(10, 0, 16).is_empty());
}

#[test]
fn tile_size_16_and_32_cover_each_pixel_once() {
    for &(w, h) in &[(50u32, 37u32), (64, 64), (1, 1), (33, 17)] {
        assert!(coverage(w, h, 16).iter().all(|&c| c == 1));
        assert!(coverage(w, h, 32).iter().all(|&c| c == 1));
    }
}

#[test]
fn pixel_index_in_and_out() {
    assert_eq!(pixel_index(4, 3, 1, 2), Some(9));
    assert_eq!(pixel_index(4, 3, 0, 0), Some(0));
    assert_eq!(pixel_index(4, 3, 4, 0), None);
    assert_eq!(pixel_index(4, 3, -1, 0), None);
    assert_eq!(pixel_index(4, 3, 0, 3), None);
}
