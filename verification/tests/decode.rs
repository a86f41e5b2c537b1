use crapmap::read_crapmap::{read_crapmap, read_crapmap_transparent, FormatError, Pixel};

/// A complete stream: magic, version 1, 2x2 image, one palette entry
/// (pure red), pixel codes 1,0 / 0,1.
fn two_by_two_stream() -> Vec<u8> {
    vec![
        b'C', b'R', b'A', b'P', // magic
        1,    // version
        2, 2, // width, height
        1,    // palette count
        255, 0, 0, // palette entry 1
        1, 0, 0, 1, // pixel codes, row-major
    ]
}

#[test]
fn decodes_two_by_two_with_palette() {
    let img = read_crapmap_transparent(&two_by_two_stream(), [10, 10, 10, 255]).unwrap();
    let bg: Pixel = (10, 10, 10, 255);
    let red: Pixel = (255, 0, 0, 255);
    assert_eq!(img, vec![vec![red, bg], vec![bg, red]]);
}

#[test]
fn decoded_dimensions_match_header() {
    let data = vec![b'C', b'R', b'A', b'P', 1, 3, 2, 0, 0, 0, 0, 0, 0, 0];
    let img = read_crapmap_transparent(&data, [1, 2, 3, 4]).unwrap();
    assert_eq!(img.len(), 2);
    for row in &img {
        assert_eq!(row.len(), 3);
    }
}

#[test]
fn transparent_code_keeps_background_alpha() {
    let data = vec![b'C', b'R', b'A', b'P', 1, 1, 1, 0, 0];
    let img = read_crapmap_transparent(&data, [7, 8, 9, 42]).unwrap();
    assert_eq!(img, vec![vec![(7, 8, 9, 42)]]);
}

#[test]
fn palette_pixels_are_opaque() {
    let data = vec![b'C', b'R', b'A', b'P', 1, 2, 1, 2, 10, 20, 30, 40, 50, 60, 1, 2];
    let img = read_crapmap_transparent(&data, [0, 0, 0, 0]).unwrap();
    assert_eq!(img, vec![vec![(10, 20, 30, 255), (40, 50, 60, 255)]]);
}

#[test]
fn out_of_range_code_is_opaque_black() {
    let data = vec![b'C', b'R', b'A', b'P', 1, 2, 1, 1, 255, 0, 0, 5, 2];
    let img = read_crapmap_transparent(&data, [10, 10, 10, 255]).unwrap();
    assert_eq!(img, vec![vec![(0, 0, 0, 255), (0, 0, 0, 255)]]);
}

#[test]
fn bad_magic_is_rejected() {
    let data = vec![b'C', b'R', b'A', b'Q', 1, 1, 1, 0, 0];
    assert_eq!(
        read_crapmap_transparent(&data, [0, 0, 0, 0]),
        Err(FormatError::BadMagic)
    );
}

#[test]
fn wrong_version_is_rejected() {
    let data = vec![b'C', b'R', b'A', b'P', 2, 1, 1, 0, 0];
    assert_eq!(
        read_crapmap_transparent(&data, [0, 0, 0, 0]),
        Err(FormatError::UnsupportedVersion)
    );
}

#[test]
fn empty_stream_is_truncated() {
    assert_eq!(
        read_crapmap_transparent(&[], [0, 0, 0, 0]),
        Err(FormatError::Truncated)
    );
}

#[test]
fn short_magic_is_truncated_not_bad_magic() {
    assert_eq!(
        read_crapmap_transparent(&[b'C', b'R'], [0, 0, 0, 0]),
        Err(FormatError::Truncated)
    );
}

#[test]
fn missing_palette_bytes_are_truncated() {
    let data = vec![b'C', b'R', b'A', b'P', 1, 1, 1, 2, 255, 0];
    assert_eq!(
        read_crapmap_transparent(&data, [0, 0, 0, 0]),
        Err(FormatError::Truncated)
    );
}

#[test]
fn missing_pixel_bytes_are_truncated() {
    let data = vec![b'C', b'R', b'A', b'P', 1, 2, 2, 0, 0, 0, 0];
    assert_eq!(
        read_crapmap_transparent(&data, [0, 0, 0, 0]),
        Err(FormatError::Truncated)
    );
}

#[test]
fn zero_height_yields_empty_image() {
    let data = vec![b'C', b'R', b'A', b'P', 1, 5, 0, 0];
    let img = read_crapmap_transparent(&data, [0, 0, 0, 0]).unwrap();
    assert_eq!(img.len(), 0);
}

#[test]
fn zero_width_yields_empty_rows() {
    let data = vec![b'C', b'R', b'A', b'P', 1, 0, 3, 0];
    let img = read_crapmap_transparent(&data, [0, 0, 0, 0]).unwrap();
    assert_eq!(img, vec![Vec::new(), Vec::new(), Vec::new()]);
}

#[test]
fn trailing_bytes_are_ignored() {
    let mut data = two_by_two_stream();
    data.push(99);
    data.push(100);
    let with_trailing = read_crapmap_transparent(&data, [10, 10, 10, 255]).unwrap();
    let without = read_crapmap_transparent(&two_by_two_stream(), [10, 10, 10, 255]).unwrap();
    assert_eq!(with_trailing, without);
}

#[test]
fn default_background_is_used_by_read_crapmap() {
    let data = vec![b'C', b'R', b'A', b'P', 1, 1, 1, 0, 0];
    let img = read_crapmap(&data).unwrap();
    assert_eq!(img, vec![vec![(111, 111, 111, 254)]]);
}
