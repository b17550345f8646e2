use vstd::prelude::*;
use vstd::string::StrSliceExecFns;

use crate::geometry::saturate;
use crate::raster::{RasterImage, raster_samples, raster_size};
use crate::render::{blend_pixel, blend_points, lemma_blend_points_concat};

verus! {

/// The 5x7 bitmap of a label character, one byte per row with the leftmost column in bit 4;
/// letters are case-insensitive and unknown characters are blank.
pub open spec fn glyph_pattern(character: char) -> Seq<u8> {
    if character == '0' {
        seq![0b01110u8, 0b10001, 0b10011, 0b10101, 0b11001, 0b10001, 0b01110]
    } else if character == '1' {
        seq![0b00100u8, 0b01100, 0b00100, 0b00100, 0b00100, 0b00100, 0b01110]
    } else if character == '2' {
        seq![0b01110u8, 0b10001, 0b00001, 0b00010, 0b00100, 0b01000, 0b11111]
    } else if character == '3' {
        seq![0b11110u8, 0b00001, 0b00001, 0b01110, 0b00001, 0b00001, 0b11110]
    } else if character == '4' {
        seq![0b00010u8, 0b00110, 0b01010, 0b10010, 0b11111, 0b00010, 0b00010]
    } else if character == '5' {
        seq![0b11111u8, 0b10000, 0b10000, 0b11110, 0b00001, 0b00001, 0b11110]
    } else if character == '6' {
        seq![0b01110u8, 0b10000, 0b10000, 0b11110, 0b10001, 0b10001, 0b01110]
    } else if character == '7' {
        seq![0b11111u8, 0b00001, 0b00010, 0b00100, 0b01000, 0b01000, 0b01000]
    } else if character == '8' {
        seq![0b01110u8, 0b10001, 0b10001, 0b01110, 0b10001, 0b10001, 0b01110]
    } else if character == '9' {
        seq![0b01110u8, 0b10001, 0b10001, 0b01111, 0b00001, 0b00001, 0b01110]
    } else if character == 'D' || character == 'd' {
        seq![0b11110u8, 0b10001, 0b10001, 0b10001, 0b10001, 0b10001, 0b11110]
    } else if character == 'X' || character == 'x' {
        seq![0b10001u8, 0b10001, 0b01010, 0b00100, 0b01010, 0b10001, 0b10001]
    } else if character == 'Y' || character == 'y' {
        seq![0b10001u8, 0b10001, 0b01010, 0b00100, 0b00100, 0b00100, 0b00100]
    } else if character == '+' {
        seq![0b00000u8, 0b00100, 0b00100, 0b11111, 0b00100, 0b00100, 0b00000]
    } else if character == '-' {
        seq![0b00000u8, 0b00000, 0b00000, 0b11111, 0b00000, 0b00000, 0b00000]
    } else if character == ',' {
        seq![0b00000u8, 0b00000, 0b00000, 0b00000, 0b00110, 0b00100, 0b01000]
    } else {
        seq![0u8, 0, 0, 0, 0, 0, 0]
    }
}

/// The bitmap of a label character.
pub fn pattern(character: char) -> (result: [u8; 7])
    ensures
        result@ == glyph_pattern(character),
{
    let rows: [u8; 7] = match character {
        '0' => [0b01110, 0b10001, 0b10011, 0b10101, 0b11001, 0b10001, 0b01110],
        '1' => [0b00100, 0b01100, 0b00100, 0b00100, 0b00100, 0b00100, 0b01110],
        '2' => [0b01110, 0b10001, 0b00001, 0b00010, 0b00100, 0b01000, 0b11111],
        '3' => [0b11110, 0b00001, 0b00001, 0b01110, 0b00001, 0b00001, 0b11110],
        '4' => [0b00010, 0b00110, 0b01010, 0b10010, 0b11111, 0b00010, 0b00010],
        '5' => [0b11111, 0b10000, 0b10000, 0b11110, 0b00001, 0b00001, 0b11110],
        '6' => [0b01110, 0b10000, 0b10000, 0b11110, 0b10001, 0b10001, 0b01110],
        '7' => [0b11111, 0b00001, 0b00010, 0b00100, 0b01000, 0b01000, 0b01000],
        '8' => [0b01110, 0b10001, 0b10001, 0b01110, 0b10001, 0b10001, 0b01110],
        '9' => [0b01110, 0b10001, 0b10001, 0b01111, 0b00001, 0b00001, 0b01110],
        'D' | 'd' => [0b11110, 0b10001, 0b10001, 0b10001, 0b10001, 0b10001, 0b11110],
        'X' | 'x' => [0b10001, 0b10001, 0b01010, 0b00100, 0b01010, 0b10001, 0b10001],
        'Y' | 'y' => [0b10001, 0b10001, 0b01010, 0b00100, 0b00100, 0b00100, 0b00100],
        '+' => [0b00000, 0b00100, 0b00100, 0b11111, 0b00100, 0b00100, 0b00000],
        '-' => [0b00000, 0b00000, 0b00000, 0b11111, 0b00000, 0b00000, 0b00000],
        ',' => [0b00000, 0b00000, 0b00000, 0b00000, 0b00110, 0b00100, 0b01000],
        _ => [0; 7],
    };
    assert(rows@ =~= glyph_pattern(character));
    rows
}

/// Column `column` (0 leftmost) of a bitmap row is lit.
pub open spec fn lit(bits: u8, column: int) -> bool {
    bits & (1u8 << ((4 - column) as u8)) != 0
}

/// Lit pixels among the first `n` columns of bitmap row `row`, drawn at `(x, y)` displaced by
/// `(offset_x, offset_y)`.
pub open spec fn row_points(x: int, y: int, bits: u8, row: int, offset_x: int, offset_y: int, n: int) -> Seq<(int, int)>
    decreases n,
{
    if n <= 0 {
        seq![]
    } else {
        let previous = row_points(x, y, bits, row, offset_x, offset_y, n - 1);
        if lit(bits, n - 1) {
            previous.push((x + (n - 1) + offset_x, y + row + offset_y))
        } else {
            previous
        }
    }
}

/// Lit pixels of the first `rows` bitmap rows of a character.
pub open spec fn glyph_points(x: int, y: int, character: char, offset_x: int, offset_y: int, rows: int) -> Seq<(int, int)>
    decreases rows,
{
    if rows <= 0 {
        seq![]
    } else {
        glyph_points(x, y, character, offset_x, offset_y, rows - 1) + row_points(
            x,
            y,
            glyph_pattern(character)[rows - 1],
            rows - 1,
            offset_x,
            offset_y,
            5,
        )
    }
}

/// Draws one character's bitmap with its top-left corner at `(x, y)` displaced by
/// `(offset_x, offset_y)`.
pub fn glyph(image: &mut RasterImage, x: u32, y: u32, character: char, color: [u8; 4], offset_x: i64, offset_y: i64)
    requires
        -1 <= offset_x <= 1,
        -1 <= offset_y <= 1,
    ensures
        raster_size(*final(image)) == raster_size(*old(image)),
        raster_samples(*final(image)) == blend_points(
            raster_samples(*old(image)),
            raster_size(*old(image)),
            glyph_points(x as int, y as int, character, offset_x as int, offset_y as int, 7),
            color@,
        ),
{
    let ghost start = raster_samples(*image);
    let ghost size = raster_size(*image);
    let rows = pattern(character);
    let mut row: usize = 0;
    while row < 7
        invariant
            row <= 7,
            rows@ == glyph_pattern(character),
            -1 <= offset_x <= 1,
            -1 <= offset_y <= 1,
            raster_size(*image) == size,
            raster_samples(*image) == blend_points(
                start,
                size,
                glyph_points(x as int, y as int, character, offset_x as int, offset_y as int, row as int),
                color@,
            ),
        decreases 7 - row,
    {
        let bits = rows[row];
        let ghost before = glyph_points(x as int, y as int, character, offset_x as int, offset_y as int, row as int);
        let mut column: u8 = 0;
        while column < 5
            invariant
                column <= 5,
                row < 7,
                bits == glyph_pattern(character)[row as int],
                -1 <= offset_x <= 1,
                -1 <= offset_y <= 1,
                raster_size(*image) == size,
                raster_samples(*image) == blend_points(
                    start,
                    size,
                    before + row_points(x as int, y as int, bits, row as int, offset_x as int, offset_y as int, column as int),
                    color@,
                ),
            decreases 5 - column,
        {
            if bits & (1u8 << (4 - column)) != 0 {
                let px: i64 = x as i64 + column as i64 + offset_x;
                let py: i64 = y as i64 + row as i64 + offset_y;
                blend_pixel(image, px, py, color);
                proof {
                    let done = before + row_points(x as int, y as int, bits, row as int, offset_x as int, offset_y as int, column as int);
                    lemma_blend_points_concat(start, size, done, seq![(px as int, py as int)], color@);
                    assert(done.push((px as int, py as int)) =~= done + seq![(px as int, py as int)]);
                    assert(before + row_points(x as int, y as int, bits, row as int, offset_x as int, offset_y as int, column as int + 1)
                        =~= done.push((px as int, py as int)));
                    let middle = blend_points(start, size, done, color@);
                    assert(blend_points(middle, size, seq![(px as int, py as int)], color@) == blend_points(
                        crate::render::blend_at(middle, size, px as int, py as int, color@),
                        size,
                        seq![(px as int, py as int)].drop_first(),
                        color@,
                    ));
                    assert(seq![(px as int, py as int)].drop_first() =~= Seq::<(int, int)>::empty());
                }
            } else {
                proof {
                    assert(before + row_points(x as int, y as int, bits, row as int, offset_x as int, offset_y as int, column as int + 1)
                        =~= before + row_points(x as int, y as int, bits, row as int, offset_x as int, offset_y as int, column as int));
                }
            }
            column += 1;
        }
        row += 1;
    }
}

/// The shadow color drawn under label characters.
pub open spec fn shadow() -> Seq<u8> {
    seq![255u8, 255, 255, 220]
}

/// The raster after drawing one label character at `(x, y)`: a white shadow one pixel down and
/// right, then the character itself.
pub open spec fn draw_character(samples: Seq<u8>, size: (u32, u32), x: int, y: int, character: char, color: Seq<u8>) -> Seq<u8> {
    blend_points(
        blend_points(samples, size, glyph_points(x, y, character, 1, 1, 7), shadow()),
        size,
        glyph_points(x, y, character, 0, 0, 7),
        color,
    )
}

/// Left edge of the `k`-th label character, six pixels apart from `x`, saturated.
pub open spec fn cursor_at(x: int, k: int) -> int {
    saturate(x + 6 * k)
}

/// The raster after drawing the first `k` characters of a label from `(x, y)`: each character
/// is drawn while the previous one left room on the canvas.
pub open spec fn label_after(samples: Seq<u8>, size: (u32, u32), x: int, y: int, characters: Seq<char>, color: Seq<u8>, k: int) -> Seq<u8>
    decreases k,
{
    if k <= 0 {
        samples
    } else {
        let previous = label_after(samples, size, x, y, characters, color, k - 1);
        if k - 1 == 0 || cursor_at(x, k - 1) < size.0 {
            draw_character(previous, size, cursor_at(x, k - 1), y, characters[k - 1], color)
        } else {
            previous
        }
    }
}

/// Draws a short label in the built-in bitmap font, each character on a light shadow, stopping
/// at the right edge of the canvas.
pub fn text(image: &mut RasterImage, x: u32, y: u32, value: &str, color: [u8; 4])
    ensures
        raster_size(*final(image)) == raster_size(*old(image)),
        raster_samples(*final(image)) == label_after(
            raster_samples(*old(image)),
            raster_size(*old(image)),
            x as int,
            y as int,
            value@,
            color@,
            value@.len() as int,
        ),
{
    let ghost start = raster_samples(*image);
    let ghost size = raster_size(*image);
    let count = value.unicode_len();
    let width = image.width();
    let mut cursor = x;
    let mut k: usize = 0;
    let shadow_color: [u8; 4] = [255, 255, 255, 220];
    assert(shadow_color@ =~= shadow());
    while k < count
        invariant_except_break
            cursor == cursor_at(x as int, k as int),
            k == 0 || cursor_at(x as int, k as int) < width,
        invariant
            k <= count,
            count == value@.len(),
            width == size.0,
            shadow_color@ == shadow(),
            raster_size(*image) == size,
            raster_samples(*image) == label_after(start, size, x as int, y as int, value@, color@, k as int),
        ensures
            raster_samples(*image) == label_after(start, size, x as int, y as int, value@, color@, count as int),
        decreases count - k,
    {
        let character = value.get_char(k);
        let ghost before = raster_samples(*image);
        glyph(image, cursor, y, character, shadow_color, 1, 1);
        glyph(image, cursor, y, character, color, 0, 0);
        proof {
            assert(raster_samples(*image) == draw_character(before, size, cursor as int, y as int, character, color@));
            assert(label_after(start, size, x as int, y as int, value@, color@, k as int + 1) == draw_character(
                label_after(start, size, x as int, y as int, value@, color@, k as int),
                size,
                cursor_at(x as int, k as int),
                y as int,
                value@[k as int],
                color@,
            ));
        }
        cursor = if cursor <= u32::MAX - 6 { cursor + 6 } else { u32::MAX };
        k += 1;
        if cursor >= width {
            proof {
                assert forall|m: int| k < m <= count implies label_after(start, size, x as int, y as int, value@, color@, m)
                    == label_after(start, size, x as int, y as int, value@, color@, k as int) by {
                    lemma_label_stops(start, size, x as int, y as int, value@, color@, k as int, m);
                }
            }
            break;
        }
    }
}

proof fn lemma_label_stops(samples: Seq<u8>, size: (u32, u32), x: int, y: int, characters: Seq<char>, color: Seq<u8>, k: int, m: int)
    requires
        1 <= k <= m,
        cursor_at(x, k) >= size.0,
    ensures
        label_after(samples, size, x, y, characters, color, m) == label_after(samples, size, x, y, characters, color, k),
    decreases m - k,
{
    if m > k {
        lemma_label_stops(samples, size, x, y, characters, color, k, m - 1);
        assert(cursor_at(x, m - 1) >= cursor_at(x, k));
    }
}

} // verus!
