//! The fixed drawing colors for cell colors from 5 on, kept as hex text.

use vstd::prelude::*;

verus! {

/// ASCII hex digits, in either case.
pub open spec fn is_hex_digit(c: char) -> bool {
    (48 <= c as u32 <= 57) || (97 <= c as u32 <= 102) || (65 <= c as u32 <= 70)
}

pub open spec fn hex_value(c: char) -> int {
    if 48 <= c as u32 <= 57 {
        c as u32 - 48
    } else if 97 <= c as u32 <= 102 {
        c as u32 - 87
    } else {
        c as u32 - 55
    }
}

/// Text of exactly six hex digits.
pub open spec fn is_rgb_hex(s: Seq<char>) -> bool {
    s.len() == 6 && forall|i: int| 0 <= i < 6 ==> is_hex_digit(#[trigger] s[i])
}

/// Byte `k` of hex text: digits 2k and 2k + 1, the high one first.
pub open spec fn hex_byte(s: Seq<char>, k: int) -> u8 {
    (16 * hex_value(s[2 * k]) + hex_value(s[2 * k + 1])) as u8
}

/// The red, green and blue bytes that six hex digits spell.
pub open spec fn rgb_of_hex(s: Seq<char>) -> Seq<u8> {
    seq![hex_byte(s, 0), hex_byte(s, 1), hex_byte(s, 2)]
}

/// Relies on hex::decode_to_slice: text of exactly six hex digits, in
/// either case, fills the three bytes, two digits to a byte with the high
/// digit first; any other text is an error.
#[verifier::external_body]
fn decode_rgb(text: &str) -> (r: Option<[u8; 3]>)
    ensures
        r is Some <==> is_rgb_hex(text@),
        r matches Some(b) ==> b@ == rgb_of_hex(text@),
{
    let mut out = [0u8; 3];
    match hex::decode_to_slice(text, &mut out) {
        Ok(()) => Some(out),
        Err(_) => None,
    }
}

/// The fixed colors drawn for color 5 on, as hex text.
pub open spec fn palette_entry(i: int) -> Seq<char> {
    if i == 0 {
        "da0084"@
    } else if i == 1 {
        "f200ff"@
    } else if i == 2 {
        "9a9a9a"@
    } else if i == 3 {
        "000090"@
    } else if i == 4 {
        "994da4"@
    } else if i == 5 {
        "a85523"@
    } else if i == 6 {
        "f782c0"@
    } else if i == 7 {
        "004100"@
    } else if i == 8 {
        "00ffff"@
    } else if i == 9 {
        "5f0024"@
    } else if i == 10 {
        "4e4d50"@
    } else if i == 11 {
        "b59aff"@
    } else if i == 12 {
        "6700f9"@
    } else if i == 13 {
        "4c0070"@
    } else if i == 14 {
        "72ff9b"@
    } else if i == 15 {
        "6a6c00"@
    } else if i == 16 {
        "e2c88c"@
    } else if i == 17 {
        "63c2fe"@
    } else if i == 18 {
        "5a3200"@
    } else if i == 19 {
        "40bcab"@
    } else if i == 20 {
        "b49b00"@
    } else if i == 21 {
        "930000"@
    } else if i == 22 {
        "004e75"@
    } else if i == 23 {
        "4cb148"@
    } else {
        Seq::empty()
    }
}

/// The number of fixed colors.
pub const PALETTE_LEN: usize = 24;

fn palette_text(i: usize) -> (r: &'static str)
    requires
        i < PALETTE_LEN,
    ensures
        r@ == palette_entry(i as int),
{
    match i {
        0 => "da0084",
        1 => "f200ff",
        2 => "9a9a9a",
        3 => "000090",
        4 => "994da4",
        5 => "a85523",
        6 => "f782c0",
        7 => "004100",
        8 => "00ffff",
        9 => "5f0024",
        10 => "4e4d50",
        11 => "b59aff",
        12 => "6700f9",
        13 => "4c0070",
        14 => "72ff9b",
        15 => "6a6c00",
        16 => "e2c88c",
        17 => "63c2fe",
        18 => "5a3200",
        19 => "40bcab",
        20 => "b49b00",
        21 => "930000",
        22 => "004e75",
        23 => "4cb148",
        _ => "",
    }
}

proof fn lemma_palette_is_hex(i: int)
    requires
        0 <= i < PALETTE_LEN,
    ensures
        is_rgb_hex(palette_entry(i)),
{
    reveal_strlit("da0084");
    reveal_strlit("f200ff");
    reveal_strlit("9a9a9a");
    reveal_strlit("000090");
    reveal_strlit("994da4");
    reveal_strlit("a85523");
    reveal_strlit("f782c0");
    reveal_strlit("004100");
    reveal_strlit("00ffff");
    reveal_strlit("5f0024");
    reveal_strlit("4e4d50");
    reveal_strlit("b59aff");
    reveal_strlit("6700f9");
    reveal_strlit("4c0070");
    reveal_strlit("72ff9b");
    reveal_strlit("6a6c00");
    reveal_strlit("e2c88c");
    reveal_strlit("63c2fe");
    reveal_strlit("5a3200");
    reveal_strlit("40bcab");
    reveal_strlit("b49b00");
    reveal_strlit("930000");
    reveal_strlit("004e75");
    reveal_strlit("4cb148");
}

/// The drawing color of a cell color from the fixed colors: color 5 takes
/// the first entry, and so on. Lower colors are drawn from hues, and colors
/// past the list have none.
pub fn palette_rgb(color: u8) -> (r: Option<[u8; 3]>)
    ensures
        r is Some <==> 5 <= color < 5 + PALETTE_LEN,
        r matches Some(b) ==> b@ == rgb_of_hex(palette_entry(color - 5)),
{
    if color < 5 || (color as usize) >= 5 + PALETTE_LEN {
        return None;
    }
    let text = palette_text((color - 5) as usize);
    proof {
        lemma_palette_is_hex(color - 5);
    }
    decode_rgb(text)
}

} // verus!
