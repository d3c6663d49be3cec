use image::GenericImageView;
use music_player::icon::{app_icon, ICON};

#[test]
fn bundled_app_icon_is_small_square_image() {
    let bytes = ICON;
    let image = image::load_from_memory(&bytes).expect("app icon png should decode");

    assert_eq!(image.dimensions(), (64, 64));
    assert!(bytes.len() < 10_000, "icon should stay lightweight");
}

#[test]
fn app_icon_loader_returns_valid_egui_icon_data() {
    let icon = app_icon().expect("bundled app icon should decode");

    assert_eq!(icon.width, 64);
    assert_eq!(icon.height, 64);
    assert_eq!(icon.rgba.len(), 64 * 64 * 4);
}

#[test]
fn bundled_app_icon_reads_as_music_note_not_play_button() {
    let image = image::load_from_memory(&ICON)
        .expect("app icon png should decode")
        .into_rgba8();

    assert!(is_dark(image.get_pixel(20, 20).0));
    assert!(is_light(image.get_pixel(42, 32).0));
}

#[test]
fn the_icon_shows_the_pixels_of_its_bytes() {
    let icon = app_icon().unwrap();
    let image = image::load_from_memory(&ICON).unwrap().into_rgba8();
    assert_eq!(icon.rgba, image.into_raw());
}

fn is_dark(rgba: [u8; 4]) -> bool {
    rgba[3] > 240 && rgba[0] < 20 && rgba[1] < 20 && rgba[2] < 20
}

fn is_light(rgba: [u8; 4]) -> bool {
    rgba[3] > 240 && rgba[0] > 235 && rgba[1] > 235 && rgba[2] > 235
}
