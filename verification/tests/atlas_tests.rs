use meteo_animation::{tile_extent, tiles_in_range, DynamicAtlas, TileCoord, WindSampler};

#[test]
fn test_tile_coord_new() {
    let coord = TileCoord::new(5, 26, 15);
    assert_eq!(coord.z, 5);
    assert_eq!(coord.x, 26);
    assert_eq!(coord.y, 15);
}

#[test]
fn test_dynamic_atlas_new() {
    let atlas = DynamicAtlas::new();
    assert_eq!(atlas.get_width(), 0);
    assert_eq!(atlas.get_height(), 0);
    assert_eq!(atlas.get_data_len(), 0);
}

#[test]
fn tiles_in_range_row_major_and_clipped() {
    let tiles = tiles_in_range(2, -1, 1, 2, 9);
    let got: Vec<(u32, u32, u32)> = tiles.iter().map(|t| (t.z, t.x, t.y)).collect();
    assert_eq!(got, vec![(2, 0, 2), (2, 1, 2), (2, 0, 3), (2, 1, 3)]);
}

#[test]
fn tiles_in_range_empty_when_reversed() {
    assert!(tiles_in_range(3, 5, 4, 0, 7).is_empty());
    assert!(tiles_in_range(3, 0, 7, -3, -1).is_empty());
}

#[test]
fn tiles_in_range_zoom_zero_has_one_tile() {
    let tiles = tiles_in_range(0, -10, 10, -10, 10);
    assert_eq!(tiles, vec![TileCoord::new(0, 0, 0)]);
}

#[test]
fn test_get_tiles_all_same_zoom() {
    let tiles = tiles_in_range(4, 12, 14, 7, 8);
    assert_eq!(tiles.len(), 6);
    for tile in &tiles {
        assert_eq!(tile.z, 4, "All tiles should be zoom 4");
    }
}

#[test]
fn update_grid_sizes_atlas_to_tiles() {
    let mut atlas = DynamicAtlas::new();
    let tiles = tiles_in_range(5, 26, 27, 15, 15);
    let flat = atlas.update_grid(&tiles, 5);
    assert_eq!(flat, vec![5, 26, 15, 5, 27, 15]);
    assert_eq!(atlas.get_width(), 512);
    assert_eq!(atlas.get_height(), 256);
    assert_eq!(atlas.get_width() % 256, 0);
    assert_eq!(atlas.get_data_len(), 512 * 256 * 4);
    assert_eq!(atlas.get_tile_zoom(), 5);
}

#[test]
fn update_grid_with_no_tiles_changes_nothing() {
    let mut atlas = DynamicAtlas::new();
    let flat = atlas.update_grid(&Vec::new(), 5);
    assert!(flat.is_empty());
    assert_eq!(atlas.get_width(), 0);
    assert_eq!(atlas.get_tile_zoom(), 0);
}

#[test]
fn set_tile_copies_into_its_cell() {
    let mut atlas = DynamicAtlas::new();
    let tiles = tiles_in_range(3, 6, 7, 3, 3);
    atlas.update_grid(&tiles, 3);
    let tile_data: Vec<u8> = (0..256 * 256).flat_map(|_| vec![170u8, 102, 0, 255]).collect();
    atlas.set_tile(3, 7, 3, &tile_data);
    let data = atlas.data();
    let w = atlas.get_width() as usize;
    // first pixel of the second tile column
    let idx = (0 * w + 256) * 4;
    assert_eq!(&data[idx..idx + 4], &[170, 102, 0, 255]);
    // the first tile column stays empty
    assert_eq!(&data[0..4], &[0, 0, 0, 0]);
    assert!(data.iter().any(|&b| b != 0), "Atlas should have data");
}

#[test]
fn set_tile_ignores_wrong_zoom_size_or_place() {
    let mut atlas = DynamicAtlas::new();
    atlas.update_grid(&tiles_in_range(3, 6, 6, 3, 3), 3);
    let good: Vec<u8> = vec![9; 256 * 256 * 4];
    atlas.set_tile(4, 6, 3, &good);
    atlas.set_tile(3, 6, 3, &good[..100]);
    atlas.set_tile(3, 5, 3, &good);
    atlas.set_tile(3, 7, 3, &good);
    assert!(atlas.data().iter().all(|&b| b == 0));
}

#[test]
fn sample_corners_needs_all_four_valid() {
    let mut atlas = DynamicAtlas::new();
    atlas.update_grid(&tiles_in_range(1, 0, 0, 0, 0), 1);
    let mut tile: Vec<u8> = (0..256 * 256).flat_map(|_| vec![128u8, 128, 0, 255]).collect();
    atlas.set_tile(1, 0, 0, &tile);
    assert_eq!(atlas.sample_corners(10, 10), Some(((128, 128), (128, 128), (128, 128), (128, 128))));
    tile[(11 * 256 + 11) * 4 + 3] = 0;
    atlas.set_tile(1, 0, 0, &tile);
    assert_eq!(atlas.sample_corners(10, 10), None);
    assert!(atlas.sample_corners(12, 12).is_some());
}

#[test]
fn grid_origin_follows_a_pan() {
    let mut atlas = DynamicAtlas::new();
    atlas.update_grid(&tiles_in_range(3, 2, 2, 2, 2), 3);
    atlas.set_tile(3, 2, 2, &vec![1u8; 256 * 256 * 4]);
    assert_eq!(atlas.get_grid(), (2, 2, 1, 1));
    // same size, same zoom, new place: the grid moves and the pixels are cleared
    atlas.update_grid(&tiles_in_range(3, 4, 4, 4, 4), 3);
    assert_eq!(atlas.get_grid(), (4, 4, 1, 1));
    assert_eq!(atlas.get_width(), 256);
    assert!(atlas.data().iter().all(|&b| b == 0));
    // the tile at the new place lands at the atlas origin
    atlas.set_tile(3, 4, 4, &vec![2u8; 256 * 256 * 4]);
    assert_eq!(atlas.data()[0], 2);
    // the old tile is now outside the grid
    atlas.set_tile(3, 2, 2, &vec![1u8; 256 * 256 * 4]);
    assert_eq!(atlas.data()[0], 2);
}

#[test]
fn same_grid_keeps_pixels() {
    let mut atlas = DynamicAtlas::new();
    atlas.update_grid(&tiles_in_range(3, 2, 3, 2, 2), 3);
    atlas.set_tile(3, 3, 2, &vec![7u8; 256 * 256 * 4]);
    atlas.update_grid(&tiles_in_range(3, 2, 3, 2, 2), 3);
    assert_eq!(atlas.get_grid(), (2, 2, 2, 1));
    assert_eq!(atlas.data()[256 * 4], 7);
    assert_eq!(atlas.data()[0], 0);
}

#[test]
fn tile_extent_spans_the_list() {
    let tiles = tiles_in_range(4, 3, 5, 7, 8);
    assert_eq!(tile_extent(&tiles), (3, 5, 7, 8));
}

#[test]
fn test_from_atlas_copies_dimensions() {
    let mut atlas = DynamicAtlas::new();
    atlas.update_grid(&tiles_in_range(3, 3, 4, 3, 4), 3);
    let sampler = WindSampler::from_atlas(&atlas);
    assert_eq!(sampler.width(), atlas.get_width());
    assert_eq!(sampler.height(), atlas.get_height());
}

#[test]
fn test_from_atlas_copies_data() {
    let mut atlas = DynamicAtlas::new();
    atlas.update_grid(&tiles_in_range(3, 3, 4, 3, 4), 3);
    let sampler = WindSampler::from_atlas(&atlas);
    let expected_len = (atlas.get_width() * atlas.get_height() * 4) as usize;
    assert_eq!(sampler.get_data_len(), expected_len);
}

#[test]
fn test_update_from_atlas() {
    let mut sampler = WindSampler::new(10, 10);
    let mut atlas = DynamicAtlas::new();
    atlas.update_grid(&tiles_in_range(4, 7, 8, 7, 7), 4);
    sampler.update_from_atlas(&atlas);
    assert_eq!(sampler.width(), atlas.get_width());
    assert_eq!(sampler.height(), atlas.get_height());
    assert_eq!(sampler.data(), atlas.data());
}

#[test]
fn new_atlas_is_empty() {
    let mut atlas = DynamicAtlas::new();
    assert!(atlas.is_empty());
    atlas.update_grid(&tiles_in_range(1, 0, 0, 0, 0), 1);
    assert!(!atlas.is_empty());
}

#[test]
fn every_fitted_tile_lands_at_its_offset() {
    let mut atlas = DynamicAtlas::new();
    let tiles = tiles_in_range(4, 3, 4, 7, 8);
    atlas.update_grid(&tiles, 4);
    let width = atlas.get_width() as usize;
    for (k, t) in tiles.iter().enumerate() {
        atlas.set_tile(t.z, t.x, t.y, &vec![k as u8 + 1; 256 * 256 * 4]);
    }
    for (k, t) in tiles.iter().enumerate() {
        let px = (t.x - 3) as usize * 256;
        let py = (t.y - 7) as usize * 256;
        assert_eq!(atlas.data()[(py * width + px) * 4], k as u8 + 1);
        assert_eq!(atlas.data()[((py + 255) * width + px + 255) * 4 + 3], k as u8 + 1);
    }
}
