//! Decoder for the CRAPMAP indexed-bitmap format.
//!
//! A CRAPMAP stream starts with the ASCII magic `CRAP`, a version byte
//! (only `1` is accepted), a width byte, a height byte and a palette-entry
//! count byte.  Then come `paletteCount` RGB triples, then `width * height`
//! single-byte pixel codes in row-major order.  Code `0` stands for the
//! caller-supplied transparent/background color, codes `1..=paletteCount`
//! pick a palette entry (made opaque), and any other code falls back to
//! opaque black.

use vstd::prelude::*;

verus! {

/// One decoded pixel: red, green, blue and alpha channel values.
pub type Pixel = (u8, u8, u8, u8);

/// The background color used when no explicit transparent color is supplied.
pub const BACKGROUND_COLOR: [u8; 4] = [111, 111, 111, 254];

/// How a decode can fail.  Out-of-range pixel codes are not an error: they
/// resolve to opaque black by design.
#[derive(Debug, Clone, Copy, PartialEq, Eq, Structural)]
pub enum FormatError {
    /// The stream does not start with the `CRAP` magic.
    BadMagic,
    /// The version byte is not `1`.
    UnsupportedVersion,
    /// The stream ended before all header, palette or pixel bytes were read.
    Truncated,
}

/// The default background color as an RGBA quadruple: the value of
/// [`BACKGROUND_COLOR`].
pub open spec fn default_background() -> Pixel {
    (111u8, 111u8, 111u8, 254u8)
}

/// The RGBA quadruple held by a four-byte color array.
pub open spec fn pixel_of(c: Seq<u8>) -> Pixel {
    (c[0], c[1], c[2], c[3])
}

/// The first four bytes spell the ASCII magic `CRAP`.
pub open spec fn magic_ok(data: Seq<u8>) -> bool {
    data.len() >= 4 && data[0] == 67u8 && data[1] == 82u8 && data[2] == 65u8 && data[3] == 80u8
}

/// The image width stored in the header.
pub open spec fn spec_width(data: Seq<u8>) -> int {
    data[5] as int
}

/// The image height stored in the header.
pub open spec fn spec_height(data: Seq<u8>) -> int {
    data[6] as int
}

/// The number of palette entries stored in the header.
pub open spec fn spec_palette_count(data: Seq<u8>) -> int {
    data[7] as int
}

/// The offset of the first pixel code: the fixed header plus the palette.
pub open spec fn pixel_base(data: Seq<u8>) -> int {
    8 + 3 * spec_palette_count(data)
}

/// The total number of bytes a complete stream with this header must hold.
pub open spec fn needed_len(data: Seq<u8>) -> int {
    pixel_base(data) + spec_width(data) * spec_height(data)
}

/// The palette encoded in the stream: `paletteCount` RGB triples in file order.
pub open spec fn spec_palette(data: Seq<u8>) -> Seq<(u8, u8, u8)> {
    Seq::new(
        spec_palette_count(data) as nat,
        |i: int| (data[8 + 3 * i], data[8 + 3 * i + 1], data[8 + 3 * i + 2]),
    )
}

/// What a single pixel code resolves to, given the palette and the
/// transparent/background color:
/// code `0` is the background, codes `1..=palette.len()` pick the
/// 1-based palette entry with alpha forced opaque, and every other code
/// falls back to opaque black.
pub open spec fn resolve_code(code: u8, palette: Seq<(u8, u8, u8)>, background: Pixel) -> Pixel {
    if code == 0 {
        background
    } else if 1 <= code as int && code as int <= palette.len() {
        (palette[code as int - 1].0, palette[code as int - 1].1, palette[code as int - 1].2, 255u8)
    } else {
        (0u8, 0u8, 0u8, 255u8)
    }
}

/// The resolved pixel at row `y`, column `x` of the encoded image.
pub open spec fn spec_pixel_at(data: Seq<u8>, background: Pixel, y: int, x: int) -> Pixel {
    resolve_code(
        data[pixel_base(data) + y * spec_width(data) + x],
        spec_palette(data),
        background,
    )
}

/// The full decoded image: `height` rows of `width` resolved pixels.
pub open spec fn spec_image(data: Seq<u8>, background: Pixel) -> Seq<Seq<Pixel>> {
    Seq::new(
        spec_height(data) as nat,
        |y: int| Seq::new(spec_width(data) as nat, |x: int| spec_pixel_at(data, background, y, x)),
    )
}

/// A stream decodes successfully exactly when the magic matches, the version
/// byte is `1`, and the stream holds the whole palette and pixel payload.
pub open spec fn decode_ok(data: Seq<u8>) -> bool {
    &&& magic_ok(data)
    &&& data.len() >= 5
    &&& data[4] == 1u8
    &&& data.len() >= needed_len(data)
}

/// The error a failing decode reports, following the read order of the
/// stream: a short magic read is `Truncated`, a wrong magic `BadMagic`,
/// a missing or wrong version byte `Truncated` or `UnsupportedVersion`,
/// and any later short read `Truncated`.
pub open spec fn spec_error(data: Seq<u8>) -> FormatError {
    if data.len() < 4 {
        FormatError::Truncated
    } else if !magic_ok(data) {
        FormatError::BadMagic
    } else if data.len() < 5 {
        FormatError::Truncated
    } else if data[4] != 1u8 {
        FormatError::UnsupportedVersion
    } else {
        FormatError::Truncated
    }
}

/// A successfully decoded image has exactly `height` rows, and every row
/// holds exactly `width` pixels.
pub proof fn lemma_decoded_dimensions(data: Seq<u8>, background: Pixel)
    requires
        decode_ok(data),
    ensures
        spec_image(data, background).len() == spec_height(data),
        forall|y: int|
            0 <= y < spec_height(data) ==> (#[trigger] spec_image(data, background)[y]).len()
                == spec_width(data),
{
}

/// A pixel code `k` in `1..=palette.len()` resolves to palette entry `k - 1`:
/// the entry's red, green and blue channels carried over unchanged, with the
/// alpha channel forced to fully opaque.
pub proof fn lemma_palette_round_trip(code: u8, palette: Seq<(u8, u8, u8)>, background: Pixel)
    requires
        1 <= code as int <= palette.len(),
    ensures
        resolve_code(code, palette, background).0 == palette[code as int - 1].0,
        resolve_code(code, palette, background).1 == palette[code as int - 1].1,
        resolve_code(code, palette, background).2 == palette[code as int - 1].2,
        resolve_code(code, palette, background).3 == 255u8,
{
}

/// The transparent code `0` resolves to the supplied background color,
/// channel for channel, whatever the palette holds.
pub proof fn lemma_transparent_is_background(palette: Seq<(u8, u8, u8)>, background: Pixel)
    ensures
        resolve_code(0u8, palette, background) == background,
{
}

/// A pixel code beyond the palette resolves to opaque black, whatever the
/// palette or background hold.
pub proof fn lemma_out_of_range_is_black(code: u8, palette: Seq<(u8, u8, u8)>, background: Pixel)
    requires
        code as int > palette.len(),
    ensures
        resolve_code(code, palette, background) == (0u8, 0u8, 0u8, 255u8),
{
}

/// The palette round trip over a whole stream: where the encoded pixel code
/// at row `y`, column `x` is `k` in `1..=paletteCount`, the decoded pixel
/// carries the red, green and blue bytes of the stream's palette entry
/// `k - 1` and is fully opaque.
pub proof fn lemma_decoded_palette_round_trip(data: Seq<u8>, background: Pixel, y: int, x: int)
    requires
        decode_ok(data),
        0 <= y < spec_height(data),
        0 <= x < spec_width(data),
        1 <= data[pixel_base(data) + y * spec_width(data) + x] as int <= spec_palette_count(data),
    ensures
        ({
            let k = data[pixel_base(data) + y * spec_width(data) + x] as int;
            spec_image(data, background)[y][x] == (
                spec_palette(data)[k - 1].0,
                spec_palette(data)[k - 1].1,
                spec_palette(data)[k - 1].2,
                255u8,
            )
        }),
{
}

/// Over a whole stream, an encoded pixel code `0` decodes to exactly the
/// supplied background color, all four channels.
pub proof fn lemma_decoded_transparent_is_background(
    data: Seq<u8>,
    background: Pixel,
    y: int,
    x: int,
)
    requires
        decode_ok(data),
        0 <= y < spec_height(data),
        0 <= x < spec_width(data),
        data[pixel_base(data) + y * spec_width(data) + x] == 0u8,
    ensures
        spec_image(data, background)[y][x] == background,
{
}

/// Over a whole stream, an encoded pixel code beyond `paletteCount` decodes
/// to opaque black, whatever the background.
pub proof fn lemma_decoded_out_of_range_is_black(data: Seq<u8>, background: Pixel, y: int, x: int)
    requires
        decode_ok(data),
        0 <= y < spec_height(data),
        0 <= x < spec_width(data),
        data[pixel_base(data) + y * spec_width(data) + x] as int > spec_palette_count(data),
    ensures
        spec_image(data, background)[y][x] == (0u8, 0u8, 0u8, 255u8),
{
}

/// Decode a CRAPMAP stream, resolving transparent pixels (code `0`) to
/// `transparent_color`.  Succeeds exactly on complete well-formed streams;
/// bytes after the pixel payload are ignored.
pub fn read_crapmap_transparent(data: &[u8], transparent_color: [u8; 4]) -> (r: Result<
    Vec<Vec<Pixel>>,
    FormatError,
>)
    ensures
        r is Ok <==> decode_ok(data@),
        r matches Ok(img) ==> {
            &&& img@.len() == spec_height(data@)
            &&& forall|y: int|
                0 <= y < img@.len() ==> (#[trigger] img@[y])@.len() == spec_width(data@)
            &&& forall|y: int, x: int|
                0 <= y < img@.len() && 0 <= x < img@[y]@.len() ==> #[trigger] img@[y]@[x]
                    == spec_pixel_at(data@, pixel_of(transparent_color@), y, x)
            &&& img.deep_view() == spec_image(data@, pixel_of(transparent_color@))
        },
        r matches Err(e) ==> e == spec_error(data@),
{
    if data.len() < 4 {
        return Err(FormatError::Truncated);
    }
    if !(data[0] == 67 && data[1] == 82 && data[2] == 65 && data[3] == 80) {
        return Err(FormatError::BadMagic);
    }
    if data.len() < 5 {
        return Err(FormatError::Truncated);
    }
    if data[4] != 1 {
        return Err(FormatError::UnsupportedVersion);
    }
    if data.len() < 8 {
        return Err(FormatError::Truncated);
    }
    let width: usize = data[5] as usize;
    let height: usize = data[6] as usize;
    let palette_count: usize = data[7] as usize;

    if data.len() - 8 < 3 * palette_count {
        return Err(FormatError::Truncated);
    }
    let base: usize = 8 + 3 * palette_count;
    proof {
        assert(width * height <= 65025) by (nonlinear_arith)
            requires
                width <= 255,
                height <= 255,
        ;
    }
    if data.len() - base < width * height {
        return Err(FormatError::Truncated);
    }

    let mut palette: Vec<(u8, u8, u8)> = Vec::new();
    let mut i: usize = 0;
    while i < palette_count
        invariant
            i <= palette_count,
            palette_count == spec_palette_count(data@),
            data@.len() >= 8 + 3 * palette_count,
            palette@.len() == i,
            forall|j: int| 0 <= j < i ==> #[trigger] palette@[j] == spec_palette(data@)[j],
        decreases palette_count - i,
    {
        let r = data[8 + 3 * i];
        let g = data[8 + 3 * i + 1];
        let b = data[8 + 3 * i + 2];
        palette.push((r, g, b));
        i += 1;
    }
    proof {
        assert(palette@ =~= spec_palette(data@));
    }

    let mut image: Vec<Vec<Pixel>> = Vec::new();
    let ghost bg: Pixel = pixel_of(transparent_color@);
    let mut y: usize = 0;
    while y < height
        invariant
            y <= height,
            width == spec_width(data@),
            height == spec_height(data@),
            base == pixel_base(data@),
            data@.len() >= base + width * height,
            palette@ == spec_palette(data@),
            bg == pixel_of(transparent_color@),
            image@.len() == y,
            forall|yy: int| 0 <= yy < y ==> (#[trigger] image@[yy])@.len() == width,
            forall|yy: int, x: int|
                0 <= yy < y && 0 <= x < width ==> #[trigger] image@[yy]@[x]
                    == spec_pixel_at(data@, bg, yy, x),
        decreases height - y,
    {
        let mut row: Vec<Pixel> = Vec::new();
        let mut x: usize = 0;
        while x < width
            invariant
                x <= width,
                y < height,
                width == spec_width(data@),
                height == spec_height(data@),
                base == pixel_base(data@),
                data@.len() >= base + width * height,
                palette@ == spec_palette(data@),
                bg == pixel_of(transparent_color@),
                row@.len() == x,
                forall|xx: int|
                    0 <= xx < x ==> #[trigger] row@[xx] == spec_pixel_at(data@, bg, y as int, xx),
            decreases width - x,
        {
            proof {
                assert(width * height <= 65025 && y * width + x < width * height)
                    by (nonlinear_arith)
                    requires
                        0 <= x < width,
                        0 <= y < height,
                        width <= 255,
                        height <= 255,
                ;
            }
            let code = data[base + y * width + x];
            let px: Pixel = if code == 0 {
                (
                    transparent_color[0],
                    transparent_color[1],
                    transparent_color[2],
                    transparent_color[3],
                )
            } else if code as usize <= palette.len() {
                let c = palette[code as usize - 1];
                (c.0, c.1, c.2, 255)
            } else {
                (0, 0, 0, 255)
            };
            row.push(px);
            x += 1;
        }
        image.push(row);
        y += 1;
    }
    proof {
        assert(image.deep_view() =~~= spec_image(data@, bg));
    }
    Ok(image)
}

/// Decode a CRAPMAP stream with the default background color standing in
/// for transparent pixels.
pub fn read_crapmap(data: &[u8]) -> (r: Result<Vec<Vec<Pixel>>, FormatError>)
    ensures
        r is Ok <==> decode_ok(data@),
        r matches Ok(img) ==> img.deep_view() == spec_image(data@, default_background()),
        r matches Err(e) ==> e == spec_error(data@),
{
    read_crapmap_transparent(data, BACKGROUND_COLOR)
}

} // verus!
