//! A 5x7 bitmap font for upper-case letters, digits and a little punctuation.
use vstd::prelude::*;

verus! {

/// The seven rows of the glyph for `c`, top row first; bit 4 of a row is its leftmost
/// column. `None` for a character the font does not hold.
pub open spec fn glyph_rows(c: char) -> Option<Seq<u8>> {
    if c == 'A' { Some(seq![0x0Eu8, 0x11, 0x11, 0x1F, 0x11, 0x11, 0x11]) }
    else if c == 'B' { Some(seq![0x1Eu8, 0x11, 0x11, 0x1E, 0x11, 0x11, 0x1E]) }
    else if c == 'C' { Some(seq![0x0Eu8, 0x11, 0x10, 0x10, 0x10, 0x11, 0x0E]) }
    else if c == 'D' { Some(seq![0x1Eu8, 0x11, 0x11, 0x11, 0x11, 0x11, 0x1E]) }
    else if c == 'E' { Some(seq![0x1Fu8, 0x10, 0x10, 0x1E, 0x10, 0x10, 0x1F]) }
    else if c == 'F' { Some(seq![0x1Fu8, 0x10, 0x10, 0x1E, 0x10, 0x10, 0x10]) }
    else if c == 'G' { Some(seq![0x0Eu8, 0x11, 0x10, 0x17, 0x11, 0x11, 0x0F]) }
    else if c == 'H' { Some(seq![0x11u8, 0x11, 0x11, 0x1F, 0x11, 0x11, 0x11]) }
    else if c == 'I' { Some(seq![0x0Eu8, 0x04, 0x04, 0x04, 0x04, 0x04, 0x0E]) }
    else if c == 'J' { Some(seq![0x07u8, 0x02, 0x02, 0x02, 0x02, 0x12, 0x0C]) }
    else if c == 'K' { Some(seq![0x11u8, 0x12, 0x14, 0x18, 0x14, 0x12, 0x11]) }
    else if c == 'L' { Some(seq![0x10u8, 0x10, 0x10, 0x10, 0x10, 0x10, 0x1F]) }
    else if c == 'M' { Some(seq![0x11u8, 0x1B, 0x15, 0x15, 0x11, 0x11, 0x11]) }
    else if c == 'N' { Some(seq![0x11u8, 0x11, 0x19, 0x15, 0x13, 0x11, 0x11]) }
    else if c == 'O' { Some(seq![0x0Eu8, 0x11, 0x11, 0x11, 0x11, 0x11, 0x0E]) }
    else if c == 'P' { Some(seq![0x1Eu8, 0x11, 0x11, 0x1E, 0x10, 0x10, 0x10]) }
    else if c == 'Q' { Some(seq![0x0Eu8, 0x11, 0x11, 0x11, 0x15, 0x12, 0x0D]) }
    else if c == 'R' { Some(seq![0x1Eu8, 0x11, 0x11, 0x1E, 0x14, 0x12, 0x11]) }
    else if c == 'S' { Some(seq![0x0Fu8, 0x10, 0x10, 0x0E, 0x01, 0x01, 0x1E]) }
    else if c == 'T' { Some(seq![0x1Fu8, 0x04, 0x04, 0x04, 0x04, 0x04, 0x04]) }
    else if c == 'U' { Some(seq![0x11u8, 0x11, 0x11, 0x11, 0x11, 0x11, 0x0E]) }
    else if c == 'V' { Some(seq![0x11u8, 0x11, 0x11, 0x11, 0x11, 0x0A, 0x04]) }
    else if c == 'W' { Some(seq![0x11u8, 0x11, 0x11, 0x15, 0x15, 0x15, 0x0A]) }
    else if c == 'X' { Some(seq![0x11u8, 0x11, 0x0A, 0x04, 0x0A, 0x11, 0x11]) }
    else if c == 'Y' { Some(seq![0x11u8, 0x11, 0x11, 0x0A, 0x04, 0x04, 0x04]) }
    else if c == 'Z' { Some(seq![0x1Fu8, 0x01, 0x02, 0x04, 0x08, 0x10, 0x1F]) }
    else if c == '0' { Some(seq![0x0Eu8, 0x11, 0x13, 0x15, 0x19, 0x11, 0x0E]) }
    else if c == '1' { Some(seq![0x04u8, 0x0C, 0x04, 0x04, 0x04, 0x04, 0x0E]) }
    else if c == '2' { Some(seq![0x0Eu8, 0x11, 0x01, 0x02, 0x04, 0x08, 0x1F]) }
    else if c == '3' { Some(seq![0x1Fu8, 0x02, 0x04, 0x02, 0x01, 0x11, 0x0E]) }
    else if c == '4' { Some(seq![0x02u8, 0x06, 0x0A, 0x12, 0x1F, 0x02, 0x02]) }
    else if c == '5' { Some(seq![0x1Fu8, 0x10, 0x1E, 0x01, 0x01, 0x11, 0x0E]) }
    else if c == '6' { Some(seq![0x06u8, 0x08, 0x10, 0x1E, 0x11, 0x11, 0x0E]) }
    else if c == '7' { Some(seq![0x1Fu8, 0x01, 0x02, 0x04, 0x08, 0x08, 0x08]) }
    else if c == '8' { Some(seq![0x0Eu8, 0x11, 0x11, 0x0E, 0x11, 0x11, 0x0E]) }
    else if c == '9' { Some(seq![0x0Eu8, 0x11, 0x11, 0x0F, 0x01, 0x02, 0x0C]) }
    else if c == ' ' { Some(seq![0x00u8, 0x00, 0x00, 0x00, 0x00, 0x00, 0x00]) }
    else if c == ':' { Some(seq![0x00u8, 0x0C, 0x0C, 0x00, 0x0C, 0x0C, 0x00]) }
    else if c == '%' { Some(seq![0x18u8, 0x19, 0x02, 0x04, 0x08, 0x13, 0x03]) }
    else if c == '.' { Some(seq![0x00u8, 0x00, 0x00, 0x00, 0x00, 0x0C, 0x0C]) }
    else if c == '-' { Some(seq![0x00u8, 0x00, 0x00, 0x1F, 0x00, 0x00, 0x00]) }
    else if c == '/' { Some(seq![0x00u8, 0x01, 0x02, 0x04, 0x08, 0x10, 0x00]) }
    else { None }
}

/// The glyph for `c`, as `glyph_rows` gives it.
pub fn glyph5x7(c: char) -> (r: Option<[u8; 7]>)
    ensures
        r is Some <==> glyph_rows(c) is Some,
        r matches Some(rows) ==> rows@ == glyph_rows(c)->0,
{
    let rows: [u8; 7] = match c {
        'A' => [0x0E, 0x11, 0x11, 0x1F, 0x11, 0x11, 0x11],
        'B' => [0x1E, 0x11, 0x11, 0x1E, 0x11, 0x11, 0x1E],
        'C' => [0x0E, 0x11, 0x10, 0x10, 0x10, 0x11, 0x0E],
        'D' => [0x1E, 0x11, 0x11, 0x11, 0x11, 0x11, 0x1E],
        'E' => [0x1F, 0x10, 0x10, 0x1E, 0x10, 0x10, 0x1F],
        'F' => [0x1F, 0x10, 0x10, 0x1E, 0x10, 0x10, 0x10],
        'G' => [0x0E, 0x11, 0x10, 0x17, 0x11, 0x11, 0x0F],
        'H' => [0x11, 0x11, 0x11, 0x1F, 0x11, 0x11, 0x11],
        'I' => [0x0E, 0x04, 0x04, 0x04, 0x04, 0x04, 0x0E],
        'J' => [0x07, 0x02, 0x02, 0x02, 0x02, 0x12, 0x0C],
        'K' => [0x11, 0x12, 0x14, 0x18, 0x14, 0x12, 0x11],
        'L' => [0x10, 0x10, 0x10, 0x10, 0x10, 0x10, 0x1F],
        'M' => [0x11, 0x1B, 0x15, 0x15, 0x11, 0x11, 0x11],
        'N' => [0x11, 0x11, 0x19, 0x15, 0x13, 0x11, 0x11],
        'O' => [0x0E, 0x11, 0x11, 0x11, 0x11, 0x11, 0x0E],
        'P' => [0x1E, 0x11, 0x11, 0x1E, 0x10, 0x10, 0x10],
        'Q' => [0x0E, 0x11, 0x11, 0x11, 0x15, 0x12, 0x0D],
        'R' => [0x1E, 0x11, 0x11, 0x1E, 0x14, 0x12, 0x11],
        'S' => [0x0F, 0x10, 0x10, 0x0E, 0x01, 0x01, 0x1E],
        'T' => [0x1F, 0x04, 0x04, 0x04, 0x04, 0x04, 0x04],
        'U' => [0x11, 0x11, 0x11, 0x11, 0x11, 0x11, 0x0E],
        'V' => [0x11, 0x11, 0x11, 0x11, 0x11, 0x0A, 0x04],
        'W' => [0x11, 0x11, 0x11, 0x15, 0x15, 0x15, 0x0A],
        'X' => [0x11, 0x11, 0x0A, 0x04, 0x0A, 0x11, 0x11],
        'Y' => [0x11, 0x11, 0x11, 0x0A, 0x04, 0x04, 0x04],
        'Z' => [0x1F, 0x01, 0x02, 0x04, 0x08, 0x10, 0x1F],
        '0' => [0x0E, 0x11, 0x13, 0x15, 0x19, 0x11, 0x0E],
        '1' => [0x04, 0x0C, 0x04, 0x04, 0x04, 0x04, 0x0E],
        '2' => [0x0E, 0x11, 0x01, 0x02, 0x04, 0x08, 0x1F],
        '3' => [0x1F, 0x02, 0x04, 0x02, 0x01, 0x11, 0x0E],
        '4' => [0x02, 0x06, 0x0A, 0x12, 0x1F, 0x02, 0x02],
        '5' => [0x1F, 0x10, 0x1E, 0x01, 0x01, 0x11, 0x0E],
        '6' => [0x06, 0x08, 0x10, 0x1E, 0x11, 0x11, 0x0E],
        '7' => [0x1F, 0x01, 0x02, 0x04, 0x08, 0x08, 0x08],
        '8' => [0x0E, 0x11, 0x11, 0x0E, 0x11, 0x11, 0x0E],
        '9' => [0x0E, 0x11, 0x11, 0x0F, 0x01, 0x02, 0x0C],
        ' ' => [0x00, 0x00, 0x00, 0x00, 0x00, 0x00, 0x00],
        ':' => [0x00, 0x0C, 0x0C, 0x00, 0x0C, 0x0C, 0x00],
        '%' => [0x18, 0x19, 0x02, 0x04, 0x08, 0x13, 0x03],
        '.' => [0x00, 0x00, 0x00, 0x00, 0x00, 0x0C, 0x0C],
        '-' => [0x00, 0x00, 0x00, 0x1F, 0x00, 0x00, 0x00],
        '/' => [0x00, 0x01, 0x02, 0x04, 0x08, 0x10, 0x00],
        _ => {
            return None;
        },
    };
    assert(rows@ =~= glyph_rows(c)->0);
    Some(rows)
}

} // verus!
