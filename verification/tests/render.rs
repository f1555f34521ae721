use weer::constants::{GRID_H, GRID_W, NODATA};
use weer::render::{
    pack_data_pixels, pack_wind_pixels, render_values_webp, render_wind_values_webp,
    transparent_webp,
};

#[test]
fn data_pixels_hold_the_raw_value() {
    assert_eq!(pack_data_pixels(&[0x1234, NODATA, 0]), vec![0x12, 0x34, 0, 255, 0, 0, 0, 0, 0, 0, 0, 255]);
}

#[test]
fn wind_pixels_hold_both_components() {
    assert_eq!(
        pack_wind_pixels(&[0x1234, 5, NODATA], &[0xABCD, NODATA, 7]),
        vec![0x12, 0x34, 0xAB, 0xCD, 0, 0, 0, 0, 0, 0, 0, 0]
    );
}

#[test]
fn overlay_images_are_webp() {
    let n = (GRID_W * GRID_H) as usize;
    let values: Vec<u16> = (0..n).map(|i| if i % 7 == 0 { NODATA } else { (i % 5000) as u16 }).collect();
    let webp = render_values_webp(&values);
    assert_eq!(&webp[0..4], b"RIFF");
    assert_eq!(&webp[8..12], b"WEBP");
    let wind = render_wind_values_webp(&values, &values);
    assert_eq!(&wind[0..4], b"RIFF");
    let blank = transparent_webp();
    assert_eq!(&blank[8..12], b"WEBP");
    assert_ne!(webp, blank);
    assert_eq!(transparent_webp(), render_values_webp(&vec![NODATA; n]));
}

// The map-side resampling through a projection table happens outside the
// library; with the identity table (each pixel reading its own cell) the
// overlay is the library's image of the raw values themselves.

fn decode_rgba(bytes: Vec<u8>) -> image::RgbaImage {
    image::ImageReader::new(std::io::Cursor::new(bytes))
        .with_guessed_format()
        .unwrap()
        .decode()
        .unwrap()
        .to_rgba8()
}

fn map_len() -> usize {
    (GRID_W * GRID_H) as usize
}

#[test]
fn test_render_data_webp_bytes() {
    let mut raw_slice = vec![0u16; map_len()];
    raw_slice[0] = 0x1234;
    let bytes = render_values_webp(&raw_slice);
    assert!(!bytes.is_empty());
    let img = decode_rgba(bytes);
    let pixel = img.get_pixel(0, 0);
    assert_eq!(pixel[0], 0x12);
    assert_eq!(pixel[1], 0x34);
    assert_eq!(pixel[2], 0);
    assert_eq!(pixel[3], 255);
}

#[test]
fn test_render_data_webp_nodata() {
    let raw_slice = vec![NODATA; map_len()];
    let bytes = render_values_webp(&raw_slice);
    assert!(!bytes.is_empty());
    let img = decode_rgba(bytes);
    let pixel = img.get_pixel(0, 0);
    assert_eq!(pixel[0], 0);
    assert_eq!(pixel[1], 0);
    assert_eq!(pixel[2], 0);
    assert_eq!(pixel[3], 0);
}

#[test]
fn test_render_temp_webp_bytes() {
    let mut raw_slice = vec![0u16; map_len()];
    raw_slice[0] = 0xABCD;
    let bytes = render_values_webp(&raw_slice);
    assert!(!bytes.is_empty());
    let img = decode_rgba(bytes);
    let pixel = img.get_pixel(0, 0);
    assert_eq!(pixel[0], 0xAB);
    assert_eq!(pixel[1], 0xCD);
    assert_eq!(pixel[2], 0);
    assert_eq!(pixel[3], 255);
}

#[test]
fn test_render_wind_webp_bytes() {
    let mut u_slice = vec![0u16; map_len()];
    let mut v_slice = vec![0u16; map_len()];
    u_slice[0] = 0x1122;
    v_slice[0] = 0x3344;
    let bytes = render_wind_values_webp(&u_slice, &v_slice);
    assert!(!bytes.is_empty());
    let img = decode_rgba(bytes);
    let pixel = img.get_pixel(0, 0);
    assert_eq!(pixel[0], 0x11);
    assert_eq!(pixel[1], 0x22);
    assert_eq!(pixel[2], 0x33);
    assert_eq!(pixel[3], 0x44);
}

#[test]
fn test_render_solar_webp_bytes() {
    let mut raw_slice = vec![0u16; map_len()];
    raw_slice[0] = 0x5566;
    let bytes = render_values_webp(&raw_slice);
    assert!(!bytes.is_empty());
    let img = decode_rgba(bytes);
    let pixel = img.get_pixel(0, 0);
    assert_eq!(pixel[0], 0x55);
    assert_eq!(pixel[1], 0x66);
}
