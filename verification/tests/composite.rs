use crapmap::draw::{draw, draw_scaled, draw_scaled_chatgpt};
use crapmap::read_crapmap::{read_crapmap_transparent, Pixel};

fn chunk(frame: &[u8], k: usize) -> Pixel {
    (frame[4 * k], frame[4 * k + 1], frame[4 * k + 2], frame[4 * k + 3])
}

/// The 2x2 image of the decode tests: red in the corners of one diagonal,
/// the (10, 10, 10, 255) background on the other.
fn two_by_two_image() -> Vec<Vec<Pixel>> {
    let data = vec![
        b'C', b'R', b'A', b'P', 1, 2, 2, 1, 255, 0, 0, 1, 0, 0, 1,
    ];
    read_crapmap_transparent(&data, [10, 10, 10, 255]).unwrap()
}

#[test]
fn composite_doubles_two_by_two_into_four_by_four() {
    let img = two_by_two_image();
    let mut frame = vec![0u8; 4 * 4 * 4];
    draw_scaled_chatgpt(&img, &mut frame, 4, 4, [0, 0, 0, 255]);
    let red: Pixel = (255, 0, 0, 255);
    let bg10: Pixel = (10, 10, 10, 255);
    let expected = [
        red, red, bg10, bg10,
        red, red, bg10, bg10,
        bg10, bg10, red, red,
        bg10, bg10, red, red,
    ];
    for (k, want) in expected.iter().enumerate() {
        assert_eq!(chunk(&frame, k), *want);
    }
}

#[test]
fn composite_on_empty_image_fills_background_only() {
    let empty: Vec<Vec<Pixel>> = Vec::new();
    let mut frame = vec![77u8; 3 * 2 * 4];
    draw_scaled_chatgpt(&empty, &mut frame, 3, 2, [1, 2, 3, 4]);
    for k in 0..6 {
        assert_eq!(chunk(&frame, k), (1, 2, 3, 4));
    }
}

#[test]
fn composite_on_zero_width_image_fills_background_only() {
    let zero_width: Vec<Vec<Pixel>> = vec![Vec::new(), Vec::new()];
    let mut frame = vec![77u8; 2 * 2 * 4];
    draw_scaled_chatgpt(&zero_width, &mut frame, 2, 2, [9, 9, 9, 9]);
    for k in 0..4 {
        assert_eq!(chunk(&frame, k), (9, 9, 9, 9));
    }
}

#[test]
fn composite_with_unit_scale_centers_the_image() {
    let img = two_by_two_image();
    let mut frame = vec![0u8; 4 * 2 * 4];
    draw_scaled_chatgpt(&img, &mut frame, 4, 2, [0, 0, 0, 255]);
    let red: Pixel = (255, 0, 0, 255);
    let bg10: Pixel = (10, 10, 10, 255);
    let black: Pixel = (0, 0, 0, 255);
    let expected = [
        black, red, bg10, black,
        black, bg10, red, black,
    ];
    for (k, want) in expected.iter().enumerate() {
        assert_eq!(chunk(&frame, k), *want);
    }
}

#[test]
fn composite_is_deterministic() {
    let img = two_by_two_image();
    let mut frame_a = vec![5u8; 5 * 3 * 4 + 2];
    let mut frame_b = vec![5u8; 5 * 3 * 4 + 2];
    draw_scaled_chatgpt(&img, &mut frame_a, 5, 3, [20, 30, 40, 50]);
    draw_scaled_chatgpt(&img, &mut frame_b, 5, 3, [20, 30, 40, 50]);
    assert_eq!(frame_a, frame_b);
}

#[test]
fn composite_skips_writes_beyond_the_buffer() {
    let img = two_by_two_image();
    // The declared output is 4x4, but only two chunks are allocated.
    let mut frame = vec![33u8; 8];
    draw_scaled_chatgpt(&img, &mut frame, 4, 4, [0, 0, 0, 255]);
    let red: Pixel = (255, 0, 0, 255);
    assert_eq!(chunk(&frame, 0), red);
    assert_eq!(chunk(&frame, 1), red);
}

#[test]
fn composite_leaves_trailing_bytes_untouched() {
    let img = two_by_two_image();
    let mut frame = vec![33u8; 4 * 4 * 4 + 3];
    draw_scaled_chatgpt(&img, &mut frame, 4, 4, [0, 0, 0, 255]);
    assert_eq!(&frame[64..], &[33, 33, 33]);
}

#[test]
fn draw_copies_into_the_top_left() {
    let img: Vec<Vec<Pixel>> = vec![vec![(1, 2, 3, 4), (5, 6, 7, 8)]];
    let mut frame = vec![9u8; 4 * 1 * 4];
    draw(&img, &mut frame, 4, 1);
    assert_eq!(chunk(&frame, 0), (1, 2, 3, 4));
    assert_eq!(chunk(&frame, 1), (5, 6, 7, 8));
    assert_eq!(chunk(&frame, 2), (9, 9, 9, 9));
    assert_eq!(chunk(&frame, 3), (9, 9, 9, 9));
}

#[test]
fn draw_skips_pixels_beyond_the_buffer() {
    let img: Vec<Vec<Pixel>> = vec![vec![(1, 2, 3, 4), (5, 6, 7, 8)]];
    let mut frame = vec![9u8; 4];
    draw(&img, &mut frame, 4, 1);
    assert_eq!(chunk(&frame, 0), (1, 2, 3, 4));
    assert_eq!(frame.len(), 4);
}

#[test]
fn draw_scaled_magnifies_by_a_whole_factor() {
    let img: Vec<Vec<Pixel>> = vec![vec![(1, 1, 1, 255), (2, 2, 2, 255)]];
    let mut frame = vec![0u8; 4 * 2 * 4];
    draw_scaled(&img, &mut frame, 4, 2, [0, 0, 0, 255]);
    let p0: Pixel = (1, 1, 1, 255);
    let p1: Pixel = (2, 2, 2, 255);
    let expected = [p0, p0, p1, p1, p0, p0, p1, p1];
    for (k, want) in expected.iter().enumerate() {
        assert_eq!(chunk(&frame, k), *want);
    }
}

#[test]
fn draw_scaled_fills_the_letterbox_with_the_background() {
    let img: Vec<Vec<Pixel>> = vec![vec![(200, 100, 50, 255)]];
    let mut frame = vec![0u8; 3 * 2 * 4];
    draw_scaled(&img, &mut frame, 3, 2, [7, 7, 7, 9]);
    let p: Pixel = (200, 100, 50, 255);
    let bg: Pixel = (7, 7, 7, 9);
    let expected = [p, p, bg, p, p, bg];
    for (k, want) in expected.iter().enumerate() {
        assert_eq!(chunk(&frame, k), *want);
    }
}

#[test]
fn draw_scaled_uses_a_fractional_scale_without_truncation() {
    // A 2x2 image in a 3x3 output scales by exactly 3/2, covering the whole
    // output, so output column 2 samples source column floor(2 / 1.5) = 1.
    let img = two_by_two_image();
    let mut frame = vec![0u8; 3 * 3 * 4];
    draw_scaled(&img, &mut frame, 3, 3, [0, 0, 0, 255]);
    let red: Pixel = (255, 0, 0, 255);
    let bg10: Pixel = (10, 10, 10, 255);
    let expected = [
        red, red, bg10,
        red, red, bg10,
        bg10, bg10, red,
    ];
    for (k, want) in expected.iter().enumerate() {
        assert_eq!(chunk(&frame, k), *want);
    }
}

#[test]
fn draw_scaled_on_empty_image_fills_background_only() {
    let empty: Vec<Vec<Pixel>> = Vec::new();
    let mut frame = vec![66u8; 2 * 2 * 4];
    draw_scaled(&empty, &mut frame, 2, 2, [3, 2, 1, 0]);
    for k in 0..4 {
        assert_eq!(chunk(&frame, k), (3, 2, 1, 0));
    }
}
