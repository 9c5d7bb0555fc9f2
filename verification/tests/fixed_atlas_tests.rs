use meteo_animation::{read_tile_corners, FixedAtlas};

#[test]
fn test_fixed_atlas_new() {
    let atlas = FixedAtlas::new(512, 512);
    assert_eq!(atlas.get_width(), 512);
    assert_eq!(atlas.get_height(), 512);
    assert_eq!(atlas.get_data_len(), 512 * 512 * 4);
    assert!(atlas.is_dirty());
}

#[test]
fn test_fixed_atlas_update_bounds_no_resize() {
    let mut atlas = FixedAtlas::new(512, 512);
    let len_before = atlas.get_data_len();
    atlas.update_view(true, 5);
    assert_eq!(atlas.get_data_len(), len_before);
    assert_eq!(atlas.get_tile_zoom(), 5);
}

#[test]
fn test_dirty_flag() {
    let mut atlas = FixedAtlas::new(256, 256);
    assert!(atlas.is_dirty());
    atlas.clear_dirty();
    assert!(!atlas.is_dirty());
    atlas.update_view(true, 5);
    assert!(atlas.is_dirty());
}

#[test]
fn unchanged_bounds_keep_atlas_clean() {
    let mut atlas = FixedAtlas::new(4, 4);
    atlas.clear_dirty();
    atlas.update_view(false, 7);
    assert!(!atlas.is_dirty());
    assert_eq!(atlas.get_tile_zoom(), 7);
}

#[test]
fn fixed_atlas_test_clear() {
    let mut atlas = FixedAtlas::new(256, 256);
    atlas.write_pixel(0, 0, [255, 255, 7, 9]);
    assert_eq!(atlas.data()[0], 255);
    assert_eq!(atlas.data()[1], 255);
    atlas.clear_dirty();
    atlas.clear();
    assert_eq!(atlas.data()[0], 0);
    assert_eq!(atlas.data()[1], 0);
    assert!(atlas.is_dirty());
}

#[test]
fn write_pixel_touches_one_pixel() {
    let mut atlas = FixedAtlas::new(3, 2);
    atlas.write_pixel(2, 1, [1, 2, 3, 4]);
    let data = atlas.get_data_copy();
    let idx = (1 * 3 + 2) * 4;
    assert_eq!(&data[idx..idx + 4], &[1, 2, 3, 4]);
    assert_eq!(data.iter().filter(|&&b| b != 0).count(), 4);
}

#[test]
fn tile_corners_of_uniform_tile() {
    let tile_data: Vec<u8> = (0..256 * 256).flat_map(|_| vec![128u8, 128, 0, 255]).collect();
    let corners = read_tile_corners(&tile_data, 127, 127).expect("all corners valid");
    assert_eq!(corners.0, [128, 128, 0, 255]);
    assert_eq!(corners.3, [128, 128, 0, 255]);
}

#[test]
fn tile_corners_follow_a_gradient() {
    let mut tile_data = vec![0u8; 256 * 256 * 4];
    for y in 0..256usize {
        for x in 0..256usize {
            let idx = (y * 256 + x) * 4;
            tile_data[idx] = x as u8;
            tile_data[idx + 3] = 255;
        }
    }
    let (p00, p10, p01, p11) = read_tile_corners(&tile_data, 100, 0).expect("valid");
    assert_eq!(p00[0], 100);
    assert_eq!(p10[0], 101);
    assert_eq!(p01[0], 100);
    assert_eq!(p11[0], 101);
}

#[test]
fn tile_corners_need_all_four_valid() {
    let mut tile_data = vec![0u8; 256 * 256 * 4];
    for y in 0..256usize {
        for x in 0..256usize {
            let idx = (y * 256 + x) * 4;
            tile_data[idx] = 128;
            tile_data[idx + 1] = 128;
            tile_data[idx + 3] = if x == 0 && y == 0 { 0 } else { 255 };
        }
    }
    assert!(read_tile_corners(&tile_data, 0, 0).is_none());
    assert!(read_tile_corners(&tile_data, 1, 1).is_some());
}

#[test]
fn tile_corners_hold_at_last_pixel() {
    let tile_data: Vec<u8> = (0..256 * 256).flat_map(|i| vec![(i % 256) as u8, 0, 0, 255]).collect();
    let (p00, p10, p01, p11) = read_tile_corners(&tile_data, 255, 255).expect("valid");
    assert_eq!(p00, p10);
    assert_eq!(p01, p11);
    assert_eq!(p00[0], 255);
}

#[test]
fn short_tile_reads_invalid() {
    assert!(read_tile_corners(&[1, 2, 3, 255], 0, 0).is_none());
}

#[test]
fn fixed_atlas_corners() {
    let mut atlas = FixedAtlas::new(2, 1);
    assert_eq!(atlas.sample_corners(0, 0), None);
    atlas.write_pixel(0, 0, [1, 2, 0, 200]);
    atlas.write_pixel(1, 0, [3, 4, 0, 200]);
    assert_eq!(atlas.sample_corners(0, 0), Some(((1, 2), (3, 4), (1, 2), (3, 4))));
}

#[test]
fn fill_rect_clips_and_skips() {
    let mut atlas = FixedAtlas::new(3, 3);
    atlas.clear_dirty();
    atlas.fill_rect_with(1, 10, 0, 2, |px: u32, py: u32| {
        if px == 2 && py == 1 {
            None
        } else {
            Some([px as u8 + 1, py as u8 + 1, 0, 255])
        }
    });
    assert!(atlas.is_dirty());
    let d = atlas.get_data_copy();
    let at = |x: usize, y: usize| [d[(y * 3 + x) * 4], d[(y * 3 + x) * 4 + 1], d[(y * 3 + x) * 4 + 2], d[(y * 3 + x) * 4 + 3]];
    assert_eq!(at(0, 0), [0, 0, 0, 0]);
    assert_eq!(at(1, 0), [2, 1, 0, 255]);
    assert_eq!(at(2, 0), [3, 1, 0, 255]);
    assert_eq!(at(1, 1), [2, 2, 0, 255]);
    assert_eq!(at(2, 1), [0, 0, 0, 0]);
    assert_eq!(at(1, 2), [0, 0, 0, 0]);
}

#[test]
fn fill_rect_empty_range_only_dirties() {
    let mut atlas = FixedAtlas::new(2, 2);
    atlas.clear_dirty();
    atlas.fill_rect_with(2, 1, 0, 2, |_px: u32, _py: u32| Some([9, 9, 9, 9]));
    assert!(atlas.is_dirty());
    assert!(atlas.get_data_copy().iter().all(|&b| b == 0));
}

#[test]
fn accepts_only_full_tiles_of_its_zoom() {
    let mut atlas = FixedAtlas::new(4, 4);
    atlas.update_view(true, 5);
    assert!(atlas.accepts_tile(5, 256 * 256 * 4));
    assert!(!atlas.accepts_tile(4, 256 * 256 * 4));
    assert!(!atlas.accepts_tile(5, 256 * 256 * 4 - 1));
    assert!(!atlas.is_empty());
    assert!(FixedAtlas::new(0, 4).is_empty());
}
