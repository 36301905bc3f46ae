use gpx_map_movie::map_image::{
    crop_origin, marker_placement, panel_size, panel_tiles, tile_file_name, tile_url, MapBaseImage, PanelTile,
};
use image::DynamicImage;

fn panel(side: u32) -> DynamicImage {
    DynamicImage::new_rgba8(side, side)
}

#[test]
fn new_cache_is_empty() {
    let store = MapBaseImage::new("tiles".to_string());
    assert!(store.get_image(0, 0).is_none());
    assert_eq!(store.tile_dir(), "tiles");
}

#[test]
fn repeated_request_is_served_from_cache() {
    let mut store = MapBaseImage::new("tiles".to_string());
    store.put_image(3, 4, panel(5));
    let first = store.get_image(3, 4).cloned().unwrap();
    let second = store.get_image(3, 4).cloned().unwrap();
    assert_eq!(first, second);
    assert_eq!(first.width(), 5);
    assert!(store.get_image(4, 3).is_none());
}

#[test]
fn storing_a_present_tile_keeps_the_first_panel() {
    let mut store = MapBaseImage::new("tiles".to_string());
    store.put_image(1, 1, panel(2));
    store.put_image(1, 1, panel(7));
    assert_eq!(store.get_image(1, 1).unwrap().width(), 2);
}

#[test]
fn eleventh_tile_evicts_the_oldest() {
    let mut store = MapBaseImage::new("tiles".to_string());
    for i in 0..10 {
        store.put_image(i, 0, panel(i as u32 + 1));
    }
    // a lookup does not protect the oldest entry
    assert!(store.get_image(0, 0).is_some());
    store.put_image(10, 0, panel(11));
    assert!(store.get_image(0, 0).is_none());
    for i in 1..11 {
        assert_eq!(store.get_image(i, 0).unwrap().width(), i as u32 + 1);
    }
    store.put_image(11, 0, panel(12));
    assert!(store.get_image(1, 0).is_none());
    assert!(store.get_image(2, 0).is_some());
}

#[test]
fn tile_width_rounds_up() {
    assert_eq!(MapBaseImage::use_tile_width(400, 256), 2);
    assert_eq!(MapBaseImage::use_tile_width(256, 256), 1);
    assert_eq!(MapBaseImage::use_tile_width(257, 256), 2);
    assert_eq!(MapBaseImage::use_tile_width(1, 256), 1);
}

#[test]
fn panel_tiles_go_column_by_column() {
    let tiles = panel_tiles(10, 20, 1, 256);
    assert_eq!(tiles.len(), 9);
    assert_eq!(tiles[0], PanelTile { tile_x: 9, tile_y: 19, offset_x: 0, offset_y: 0 });
    assert_eq!(tiles[1], PanelTile { tile_x: 9, tile_y: 20, offset_x: 0, offset_y: 256 });
    assert_eq!(tiles[3], PanelTile { tile_x: 10, tile_y: 19, offset_x: 256, offset_y: 0 });
    assert_eq!(tiles[8], PanelTile { tile_x: 11, tile_y: 21, offset_x: 512, offset_y: 512 });
    assert_eq!(panel_tiles(0, 0, 0, 256), vec![PanelTile { tile_x: 0, tile_y: 0, offset_x: 0, offset_y: 0 }]);
}

#[test]
fn panel_size_covers_all_tiles() {
    assert_eq!(panel_size(2, 256), 1280);
    assert_eq!(panel_size(0, 256), 256);
}

#[test]
fn crop_window_is_centred_on_the_pixel() {
    assert_eq!(crop_origin(400, 256, 100), 2 * 256 + 100 - 200);
    assert_eq!(crop_origin(400, 256, 0), 312);
    assert_eq!(crop_origin(400, 256, 256), 568);
    assert!(crop_origin(400, 256, 256) + 400 <= panel_size(2, 256));
}

#[test]
fn marker_is_a_twentieth_and_centred() {
    assert_eq!(marker_placement(400), (20, 190));
    assert_eq!(marker_placement(0), (0, 0));
}

#[test]
fn tile_file_name_joins_zoom_and_coordinates() {
    assert_eq!(tile_file_name(16, 58210, 25806), "16-58210-25806.png");
    assert_eq!(tile_file_name(0, -3, 0), "0--3-0.png");
}

#[test]
fn tile_url_follows_the_server_template() {
    assert_eq!(tile_url(16, 58210, 25806), "https://cyberjapandata.gsi.go.jp/xyz/std/16/58210/25806.png");
}
