//! Verified raster text for the state overlay: a tiny 3x5 pixel font
//! drawn into a fixed-size frame buffer.  The window loop that shows the
//! buffer lives outside the library.
use vstd::prelude::*;

verus! {

use vstd::string::StrSliceExecFns;

/// Frame buffer width, in pixels.
pub const VIS_WIDTH: usize = 600;

/// Frame buffer height, in pixels.
pub const VIS_HEIGHT: usize = 600;

/// The five rows of a character's 3x5 glyph, three bits per row.
pub open spec fn glyph_row_s(ch: char, row: int) -> u8 {
    let p: (u8, u8, u8, u8, u8) = if ch == '0' {
        (0b111, 0b101, 0b101, 0b101, 0b111)
    } else if ch == '1' {
        (0b010, 0b110, 0b010, 0b010, 0b111)
    } else if ch == '2' {
        (0b111, 0b001, 0b111, 0b100, 0b111)
    } else if ch == '3' {
        (0b111, 0b001, 0b111, 0b001, 0b111)
    } else if ch == '4' {
        (0b101, 0b101, 0b111, 0b001, 0b001)
    } else if ch == '5' {
        (0b111, 0b100, 0b111, 0b001, 0b111)
    } else if ch == '6' {
        (0b111, 0b100, 0b111, 0b101, 0b111)
    } else if ch == '7' {
        (0b111, 0b001, 0b001, 0b001, 0b001)
    } else if ch == '8' {
        (0b111, 0b101, 0b111, 0b101, 0b111)
    } else if ch == '9' {
        (0b111, 0b101, 0b111, 0b001, 0b111)
    } else if ch == '.' {
        (0b000, 0b000, 0b000, 0b000, 0b010)
    } else if ch == '-' {
        (0b000, 0b000, 0b111, 0b000, 0b000)
    } else if ch == ':' {
        (0b000, 0b010, 0b000, 0b010, 0b000)
    } else if ch == 'a' {
        (0b111, 0b101, 0b111, 0b101, 0b101)
    } else if ch == 'b' {
        (0b110, 0b101, 0b110, 0b101, 0b110)
    } else if ch == 'c' {
        (0b111, 0b100, 0b100, 0b100, 0b111)
    } else if ch == 'd' {
        (0b110, 0b101, 0b101, 0b101, 0b110)
    } else if ch == 'e' {
        (0b111, 0b100, 0b111, 0b100, 0b111)
    } else if ch == 'f' {
        (0b111, 0b100, 0b111, 0b100, 0b100)
    } else if ch == 'g' {
        (0b111, 0b100, 0b101, 0b101, 0b111)
    } else if ch == 'h' {
        (0b101, 0b101, 0b111, 0b101, 0b101)
    } else if ch == 'i' {
        (0b111, 0b010, 0b010, 0b010, 0b111)
    } else if ch == 'j' {
        (0b001, 0b001, 0b001, 0b101, 0b111)
    } else if ch == 'l' {
        (0b100, 0b100, 0b100, 0b100, 0b111)
    } else if ch == 'm' {
        (0b101, 0b111, 0b111, 0b101, 0b101)
    } else if ch == 'n' {
        (0b101, 0b111, 0b111, 0b111, 0b101)
    } else if ch == 'o' {
        (0b111, 0b101, 0b101, 0b101, 0b111)
    } else if ch == 'p' {
        (0b111, 0b101, 0b111, 0b100, 0b100)
    } else if ch == 'r' {
        (0b110, 0b101, 0b110, 0b101, 0b101)
    } else if ch == 's' {
        (0b111, 0b100, 0b111, 0b001, 0b111)
    } else if ch == 't' {
        (0b111, 0b010, 0b010, 0b010, 0b010)
    } else if ch == 'y' {
        (0b101, 0b101, 0b111, 0b010, 0b010)
    } else {
        (0b000, 0b000, 0b000, 0b000, 0b000)
    };
    if row == 0 {
        p.0
    } else if row == 1 {
        p.1
    } else if row == 2 {
        p.2
    } else if row == 3 {
        p.3
    } else {
        p.4
    }
}

/// Whether the glyph of `ch` sets the pixel at column `dx` of row `dy`.
pub open spec fn glyph_bit_s(ch: char, dy: int, dx: int) -> bool {
    glyph_row_s(ch, dy) & (1u8 << (2 - dx)) != 0
}

/// Whether buffer position `p` lies inside the 3x5 glyph box at (x, y).
pub open spec fn in_glyph_box_s(p: int, x: int, y: int) -> bool {
    y <= p / 600 < y + 5 && x <= p % 600 < x + 3
}

/// The buffer position of glyph cell (dx, dy) for a glyph drawn at
/// (x, y).
pub open spec fn pix_s(x: int, y: int, dx: int, dy: int) -> int {
    (y + dy) * 600 + x + dx
}

fn glyph_row(ch: char, row: usize) -> (r: u8)
    requires
        row < 5,
    ensures
        r == glyph_row_s(ch, row as int),
{
    let p: (u8, u8, u8, u8, u8) = if ch == '0' {
        (0b111, 0b101, 0b101, 0b101, 0b111)
    } else if ch == '1' {
        (0b010, 0b110, 0b010, 0b010, 0b111)
    } else if ch == '2' {
        (0b111, 0b001, 0b111, 0b100, 0b111)
    } else if ch == '3' {
        (0b111, 0b001, 0b111, 0b001, 0b111)
    } else if ch == '4' {
        (0b101, 0b101, 0b111, 0b001, 0b001)
    } else if ch == '5' {
        (0b111, 0b100, 0b111, 0b001, 0b111)
    } else if ch == '6' {
        (0b111, 0b100, 0b111, 0b101, 0b111)
    } else if ch == '7' {
        (0b111, 0b001, 0b001, 0b001, 0b001)
    } else if ch == '8' {
        (0b111, 0b101, 0b111, 0b101, 0b111)
    } else if ch == '9' {
        (0b111, 0b101, 0b111, 0b001, 0b111)
    } else if ch == '.' {
        (0b000, 0b000, 0b000, 0b000, 0b010)
    } else if ch == '-' {
        (0b000, 0b000, 0b111, 0b000, 0b000)
    } else if ch == ':' {
        (0b000, 0b010, 0b000, 0b010, 0b000)
    } else if ch == 'a' {
        (0b111, 0b101, 0b111, 0b101, 0b101)
    } else if ch == 'b' {
        (0b110, 0b101, 0b110, 0b101, 0b110)
    } else if ch == 'c' {
        (0b111, 0b100, 0b100, 0b100, 0b111)
    } else if ch == 'd' {
        (0b110, 0b101, 0b101, 0b101, 0b110)
    } else if ch == 'e' {
        (0b111, 0b100, 0b111, 0b100, 0b111)
    } else if ch == 'f' {
        (0b111, 0b100, 0b111, 0b100, 0b100)
    } else if ch == 'g' {
        (0b111, 0b100, 0b101, 0b101, 0b111)
    } else if ch == 'h' {
        (0b101, 0b101, 0b111, 0b101, 0b101)
    } else if ch == 'i' {
        (0b111, 0b010, 0b010, 0b010, 0b111)
    } else if ch == 'j' {
        (0b001, 0b001, 0b001, 0b101, 0b111)
    } else if ch == 'l' {
        (0b100, 0b100, 0b100, 0b100, 0b111)
    } else if ch == 'm' {
        (0b101, 0b111, 0b111, 0b101, 0b101)
    } else if ch == 'n' {
        (0b101, 0b111, 0b111, 0b111, 0b101)
    } else if ch == 'o' {
        (0b111, 0b101, 0b101, 0b101, 0b111)
    } else if ch == 'p' {
        (0b111, 0b101, 0b111, 0b100, 0b100)
    } else if ch == 'r' {
        (0b110, 0b101, 0b110, 0b101, 0b101)
    } else if ch == 's' {
        (0b111, 0b100, 0b111, 0b001, 0b111)
    } else if ch == 't' {
        (0b111, 0b010, 0b010, 0b010, 0b010)
    } else if ch == 'y' {
        (0b101, 0b101, 0b111, 0b010, 0b010)
    } else {
        (0b000, 0b000, 0b000, 0b000, 0b000)
    };
    if row == 0 {
        p.0
    } else if row == 1 {
        p.1
    } else if row == 2 {
        p.2
    } else if row == 3 {
        p.3
    } else {
        p.4
    }
}

/// Draw one 3x5 glyph into the frame buffer at (x, y): pixels the glyph
/// sets take the color, everything else keeps its value.
pub fn draw_char(buffer: &mut Vec<u32>, x: usize, y: usize, ch: char, color: u32)
    requires
        old(buffer)@.len() == VIS_WIDTH * VIS_HEIGHT,
        x < VIS_WIDTH,
        y < VIS_HEIGHT,
    ensures
        final(buffer)@.len() == old(buffer)@.len(),
        forall|p: int|
            0 <= p < old(buffer)@.len() && !in_glyph_box_s(p, x as int, y as int)
                ==> final(buffer)@[p] == old(buffer)@[p],
        forall|dy: int, dx: int|
            #![trigger pix_s(x as int, y as int, dx, dy)]
            0 <= dy < 5 && 0 <= dx < 3 && y + dy < VIS_HEIGHT && x + dx < VIS_WIDTH
                ==> final(buffer)@[pix_s(x as int, y as int, dx, dy)] == (if glyph_bit_s(
                ch,
                dy,
                dx,
            ) {
                color
            } else {
                old(buffer)@[pix_s(x as int, y as int, dx, dy)]
            }),
{
    let ghost buf0 = buffer@;
    let mut dy: usize = 0;
    while dy < 5
        invariant
            dy <= 5,
            buffer@.len() == buf0.len(),
            buf0 == old(buffer)@,
            buf0.len() == 360_000,
            x < 600,
            y < 600,
            forall|p: int|
                0 <= p < buf0.len() && !in_glyph_box_s(p, x as int, y as int) ==> buffer@[p]
                    == buf0[p],
            forall|d: int, e: int|
                #![trigger pix_s(x as int, y as int, e, d)]
                0 <= d < 5 && 0 <= e < 3 && y + d < 600 && x + e < 600 ==> buffer@[pix_s(
                    x as int,
                    y as int,
                    e,
                    d,
                )] == (if d < dy && glyph_bit_s(ch, d, e) {
                    color
                } else {
                    buf0[pix_s(x as int, y as int, e, d)]
                }),
        decreases 5 - dy,
    {
        if y + dy < 600 {
            let row = glyph_row(ch, dy);
            let mut dx: usize = 0;
            while dx < 3
                invariant
                    dx <= 3,
                    dy < 5,
                    y + dy < 600,
                    buffer@.len() == buf0.len(),
                    buf0 == old(buffer)@,
                    buf0.len() == 360_000,
                    x < 600,
                    y < 600,
                    row == glyph_row_s(ch, dy as int),
                    forall|p: int|
                        0 <= p < buf0.len() && !in_glyph_box_s(p, x as int, y as int)
                            ==> buffer@[p] == buf0[p],
                    forall|d: int, e: int|
                        #![trigger pix_s(x as int, y as int, e, d)]
                        0 <= d < 5 && 0 <= e < 3 && y + d < 600 && x + e < 600 ==> buffer@[pix_s(
                            x as int,
                            y as int,
                            e,
                            d,
                        )] == (if (d < dy || (d == dy && e < dx)) && glyph_bit_s(ch, d, e) {
                            color
                        } else {
                            buf0[pix_s(x as int, y as int, e, d)]
                        }),
                decreases 3 - dx,
            {
                if x + dx < 600 {
                    proof {
                        assert(1u8 << (2 - dx as u8) == 1u8 << ((2 - dx as int) as u8));
                    }
                    if row & (1u8 << (2 - dx) as u8) != 0 {
                        let idx = (y + dy) * 600 + x + dx;
                        proof {
                            assert(idx < 360_000) by (nonlinear_arith)
                                requires
                                    idx == (y + dy) * 600 + x + dx,
                                    y + dy < 600,
                                    x + dx < 600,
                            ;
                            vstd::arithmetic::div_mod::lemma_fundamental_div_mod_converse(
                                idx as int,
                                600,
                                y + dy,
                                x + dx,
                            );
                            assert(in_glyph_box_s(idx as int, x as int, y as int));
                        }
                        buffer[idx] = color;
                        proof {
                            assert forall|d: int, e: int|
                                #![trigger pix_s(x as int, y as int, e, d)]
                                0 <= d < 5 && 0 <= e < 3 && y + d < 600 && x + e < 600 && !(d
                                    == dy && e == dx) implies pix_s(x as int, y as int, e, d)
                                != idx by {
                                vstd::arithmetic::div_mod::lemma_fundamental_div_mod_converse(
                                    pix_s(x as int, y as int, e, d),
                                    600,
                                    y + d,
                                    x + e,
                                );
                                vstd::arithmetic::div_mod::lemma_fundamental_div_mod_converse(
                                    idx as int,
                                    600,
                                    y + dy,
                                    x + dx,
                                );
                            }
                            assert(buffer@[pix_s(x as int, y as int, dx as int, dy as int)]
                                == color);
                        }
                    }
                }
                dx = dx + 1;
            }
        }
        dy = dy + 1;
    }
}

/// Draw a text into the frame buffer, glyphs four pixels apart.
pub fn draw_text(buffer: &mut Vec<u32>, x: usize, y: usize, text: &str, color: u32)
    requires
        old(buffer)@.len() == VIS_WIDTH * VIS_HEIGHT,
        x < VIS_WIDTH,
        y < VIS_HEIGHT,
    ensures
        final(buffer)@.len() == old(buffer)@.len(),
{
    let n = text.unicode_len();
    let mut offset_x = x;
    let mut i: usize = 0;
    while i < n
        invariant
            i <= n,
            n == text@.len(),
            buffer@.len() == old(buffer)@.len(),
            old(buffer)@.len() == 360_000,
            y < 600,
            offset_x >= x,
            offset_x <= 600,
            x < 600,
        decreases n - i,
    {
        if offset_x + 4 >= 600 {
            break ;
        }
        let ch = text.get_char(i);
        draw_char(buffer, offset_x, y, ch, color);
        offset_x = offset_x + 4;
        i = i + 1;
    }
}

} // verus!
