use base64::Engine;
use opendeck::wallpaper::{
    decode_data_url, find_run_command, key_plans, slice_wallpaper, tile_rects, wallpaper_instance, validate_profile_name, TileError,
    WallpaperError, KEY_IMAGE_SIZE, KEY_SEPARATOR,
};

const RUN_COMMAND: &str = "com.amansprojects.starterpack.runcommand";

fn installed_actions() -> Vec<String> {
    vec!["com.example.other".to_owned(), RUN_COMMAND.to_owned(), RUN_COMMAND.to_owned()]
}

#[test]
fn slices_a_separated_grid_row_major() {
    let rects = tile_rects(424, 248, 5, 3).unwrap();
    assert_eq!(rects.len(), 15);
    assert_eq!(rects[0], (0, 0, 72, 72));
    assert_eq!(rects[4], (352, 0, 72, 72));
    assert_eq!(rects[5], (0, 88, 72, 72));
    assert_eq!(rects[7], (176, 88, 72, 72));
    assert_eq!(rects[14], (352, 176, 72, 72));
}

#[test]
fn slices_a_seamless_grid() {
    let rects = tile_rects(360, 216, 5, 3).unwrap();
    assert_eq!(rects.len(), 15);
    assert_eq!(rects[0], (0, 0, 72, 72));
    assert_eq!(rects[6], (72, 72, 72, 72));
    assert_eq!(rects[14], (288, 144, 72, 72));
}

#[test]
fn slices_a_seamless_grid_with_oversized_tiles() {
    let rects = tile_rects(500, 300, 5, 3).unwrap();
    assert_eq!(rects.len(), 15);
    assert_eq!(rects[2], (200, 0, 100, 100));
    assert_eq!(rects[8], (300, 100, 100, 100));
}

#[test]
fn rejects_an_unslicable_image() {
    assert!(tile_rects(421, 247, 5, 3).is_err());
    assert!(tile_rects(360, 220, 5, 3).is_err());
}

#[test]
fn unslicable_image_error_carries_the_sizes() {
    assert_eq!(
        tile_rects(421, 247, 5, 3),
        Err(TileError::UnslicableImage {
            width: 421,
            height: 247,
            separated_width: 424,
            separated_height: 248,
            columns: 5,
            rows: 3
        })
    );
}

#[test]
fn a_device_without_keys_has_no_tiles() {
    assert_eq!(tile_rects(424, 248, 0, 3), Err(TileError::NoKeypadButtons));
    assert_eq!(tile_rects(424, 248, 5, 0), Err(TileError::NoKeypadButtons));
}

#[test]
fn separated_layout_wins_over_a_divisible_size() {
    // 160x72 is both a 2x1 separated grid and evenly divisible by 2x1.
    let rects = tile_rects(160, 72, 2, 1).unwrap();
    assert_eq!(rects, vec![(0, 0, 72, 72), (88, 0, 72, 72)]);
    assert_eq!(KEY_IMAGE_SIZE + KEY_SEPARATOR, 88);
}

#[test]
fn tiles_lie_inside_the_image_and_do_not_overlap() {
    for (w, h, c, r) in [(424u32, 248u32, 5u32, 3u32), (360, 216, 5, 3), (500, 300, 5, 3), (72, 72, 1, 1), (8, 4, 8, 4)] {
        let rects = tile_rects(w, h, c, r).unwrap();
        assert_eq!(rects.len() as u32, c * r);
        for (i, a) in rects.iter().enumerate() {
            assert!(a.0 + a.2 <= w && a.1 + a.3 <= h);
            for b in rects.iter().skip(i + 1) {
                assert!(a.0 + a.2 <= b.0 || b.0 + b.2 <= a.0 || a.1 + a.3 <= b.1 || b.1 + b.3 <= a.1);
            }
        }
    }
}

#[test]
fn profile_names_are_trimmed_and_checked() {
    let existing = vec!["Default".to_string(), "Work".to_string()];
    assert_eq!(validate_profile_name("  Gaming \n", &existing).unwrap(), "Gaming");
    assert!(matches!(validate_profile_name("   ", &existing), Err(WallpaperError::EmptyName)));
    assert!(matches!(validate_profile_name("a/b", &existing), Err(WallpaperError::NameContainsSlash)));
    match validate_profile_name(" Work ", &existing) {
        Err(WallpaperError::NameTaken(name)) => assert_eq!(name, "Work"),
        other => panic!("unexpected {other:?}"),
    }
}

#[test]
fn data_urls_are_decoded() {
    assert_eq!(decode_data_url("data:image/png;base64,aGVsbG8=").unwrap(), b"hello".to_vec());
    assert!(matches!(decode_data_url("data:image/png,hello"), Err(WallpaperError::NotBase64DataUrl)));
    match decode_data_url("data:text/plain;base64,aGVsbG8=") {
        Err(WallpaperError::NotImageDataUrl(metadata)) => assert_eq!(metadata, "data:text/plain"),
        other => panic!("unexpected {other:?}"),
    }
    assert!(matches!(decode_data_url("data:image/png;base64,@@@"), Err(WallpaperError::InvalidBase64(_))));
}

fn png_data_url(width: u32, height: u32) -> String {
    let image = image::RgbaImage::from_fn(width, height, |x, _| image::Rgba([(x % 256) as u8, 0, 0, 255]));
    let mut bytes = Vec::new();
    image::DynamicImage::ImageRgba8(image)
        .write_to(&mut std::io::Cursor::new(&mut bytes), image::ImageFormat::Png)
        .unwrap();
    format!("data:image/png;base64,{}", base64::engine::general_purpose::STANDARD.encode(bytes))
}

#[test]
fn wallpapers_are_sliced_into_key_tiles() {
    let url = png_data_url(424, 248);
    let wallpaper = slice_wallpaper(" Wall ", &vec![], &url, 5, 3, &installed_actions()).unwrap();
    assert_eq!(wallpaper.name, "Wall");
    assert_eq!(wallpaper.tiles.len(), 15);
    assert_eq!(wallpaper.rects[1], (88, 0, 72, 72));
    assert_eq!(wallpaper.tiles[1].image.dimensions(), (72, 72));
    assert_eq!(wallpaper.tiles[1].image.get_pixel(0, 0).0, [88, 0, 0, 255]);
    assert_eq!(wallpaper.tiles[7].image.get_pixel(3, 0).0, [179, 0, 0, 255]);
    assert_eq!(wallpaper.run_command, 1);
    assert_eq!(wallpaper.keys.len(), 15);
    assert_eq!(wallpaper.keys[7].directory, "Keypad.7.0");
    assert_eq!(wallpaper.keys[7].position, 7);
    assert_eq!(wallpaper.keys[7].controller, "Keypad");
    assert_eq!(wallpaper.keys[7].index, 0);
}

#[test]
fn a_seamless_wallpaper_is_cropped_cell_by_cell() {
    let url = png_data_url(500, 300);
    let wallpaper = slice_wallpaper("Wide", &vec!["Default".to_owned()], &url, 5, 3, &installed_actions()).unwrap();
    assert_eq!(wallpaper.tiles.len(), 15);
    assert_eq!(wallpaper.tiles[8].image.dimensions(), (100, 100));
    assert_eq!(wallpaper.tiles[8].image.get_pixel(0, 0).0, [(300 % 256) as u8, 0, 0, 255]);
    assert_eq!(wallpaper.keys[14].directory, "Keypad.14.0");
}

#[test]
fn the_run_command_action_must_be_installed() {
    let url = png_data_url(424, 248);
    let others = vec!["com.example.other".to_owned()];
    assert!(matches!(slice_wallpaper("Wall", &vec![], &url, 5, 3, &others), Err(WallpaperError::RunCommandMissing)));
    // The image is checked before the action is looked up.
    let unslicable = png_data_url(421, 247);
    assert!(matches!(
        slice_wallpaper("Wall", &vec![], &unslicable, 5, 3, &others),
        Err(WallpaperError::Tiles(TileError::UnslicableImage { .. }))
    ));
}

#[test]
fn the_first_run_command_action_is_found() {
    assert_eq!(find_run_command(&installed_actions()), Some(1));
    assert_eq!(find_run_command(&vec![]), None);
    assert_eq!(find_run_command(&vec!["com.amansprojects.starterpack".to_owned()]), None);
}

#[test]
fn key_plans_name_each_key_directory() {
    let plans = key_plans(300);
    assert_eq!(plans.len(), 300);
    assert_eq!(plans[0].directory, "Keypad.0.0");
    assert_eq!(plans[42].directory, "Keypad.42.0");
    assert_eq!(plans[42].position, 42);
    assert_eq!(plans[299].directory, "Keypad.299.0");
    assert_eq!(plans[299].position, (299 % 256) as u8);
}

#[test]
fn wallpapers_report_each_failure() {
    let url = png_data_url(421, 247);
    let actions = installed_actions();
    assert!(matches!(slice_wallpaper("", &vec![], &url, 5, 3, &actions), Err(WallpaperError::EmptyName)));
    assert!(matches!(slice_wallpaper("a/b", &vec![], &url, 5, 3, &actions), Err(WallpaperError::NameContainsSlash)));
    assert!(matches!(
        slice_wallpaper(" Wall", &vec!["Wall".to_owned()], &url, 5, 3, &actions),
        Err(WallpaperError::NameTaken(_))
    ));
    assert!(matches!(
        slice_wallpaper("Wall", &vec![], "data:image/png,abc", 5, 3, &actions),
        Err(WallpaperError::NotBase64DataUrl)
    ));
    assert!(matches!(
        slice_wallpaper("Wall", &vec![], "data:text/plain;base64,aGVsbG8=", 5, 3, &actions),
        Err(WallpaperError::NotImageDataUrl(_))
    ));
    assert!(matches!(
        slice_wallpaper("Wall", &vec![], "data:image/png;base64,@@", 5, 3, &actions),
        Err(WallpaperError::InvalidBase64(_))
    ));
    assert!(matches!(
        slice_wallpaper("Wall", &vec![], &url, 5, 3, &actions),
        Err(WallpaperError::Tiles(TileError::UnslicableImage { .. }))
    ));
    assert!(matches!(
        slice_wallpaper("Wall", &vec![], &url, 0, 3, &actions),
        Err(WallpaperError::Tiles(TileError::NoKeypadButtons))
    ));
    assert!(matches!(
        slice_wallpaper("Wall", &vec![], "data:image/png;base64,aGVsbG8=", 5, 3, &actions),
        Err(WallpaperError::UnreadableImage(_))
    ));
}

#[test]
fn names_are_trimmed_of_unicode_whitespace_like_str_trim() {
    let name = "\u{a0}\u{3000} Gaming\u{2009}\u{85}";
    assert_eq!(validate_profile_name(name, &vec![]).unwrap(), name.trim());
    assert!(matches!(validate_profile_name("\u{2028}\u{205f}", &vec![]), Err(WallpaperError::EmptyName)));
}

#[test]
fn huge_keypads_are_refused_without_overflow() {
    assert!(matches!(tile_rects(1, 1, 65536, 65536), Err(TileError::UnslicableImage { columns: 65536, rows: 65536, .. })));
}

#[test]
fn each_key_gets_a_run_command_instance_showing_its_tile() {
    let plans = key_plans(3);
    let instance = wallpaper_instance(4, &plans[2], "sd-1", "Wall", "/config/images/sd-1/Wall/Keypad.2.0/0.png".to_owned());
    assert_eq!(instance.action, 4);
    assert_eq!(instance.context.device, "sd-1");
    assert_eq!(instance.context.profile, "Wall");
    assert_eq!(instance.context.controller, "Keypad");
    assert_eq!(instance.context.position, 2);
    assert_eq!(instance.context.index, 0);
    assert_eq!(instance.state_images, vec!["/config/images/sd-1/Wall/Keypad.2.0/0.png".to_owned()]);
    assert_eq!(instance.current_state, 0);
    assert_eq!(instance.command, "true");
}
