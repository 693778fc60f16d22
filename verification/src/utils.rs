use vstd::prelude::*;
use vstd::string::StrSliceExecFns;

use unicode_width::UnicodeWidthChar;

verus! {

/// The display width Unicode assigns a character outside CJK contexts,
/// or none for a control character. The full mapping is the Unicode
/// width table, a function of the character alone.
pub uninterp spec fn unicode_width_of(c: char) -> Option<usize>;

/// The display width Unicode assigns a character in CJK contexts, or
/// none for a control character.
pub uninterp spec fn unicode_width_cjk_of(c: char) -> Option<usize>;

/// Relies on UnicodeWidthChar::width: the character's displayed width in
/// columns, none for a control character; the result depends on the
/// character alone.
#[verifier::external_body]
fn unicode_width(c: char) -> (r: Option<usize>)
    ensures
        r == unicode_width_of(c),
{
    UnicodeWidthChar::width(c)
}

/// Relies on UnicodeWidthChar::width_cjk: as `width`, with characters of
/// the Ambiguous category two columns wide; the result depends on the
/// character alone.
#[verifier::external_body]
fn unicode_width_cjk(c: char) -> (r: Option<usize>)
    ensures
        r == unicode_width_cjk_of(c),
{
    UnicodeWidthChar::width_cjk(c)
}

/// How many columns a character occupies when drawn at the given column:
/// a tab runs to the next tab stop, a newline takes one column, and any
/// other character takes the width Unicode assigns it in the requested
/// context.
pub fn char_width(c: char, is_cjk: bool, tab_width: usize, position: usize) -> (r: Option<usize>)
    requires
        tab_width >= 1,
    ensures
        c == '\t' ==> r == Some((tab_width - position % tab_width) as usize),
        c == '\n' ==> r == Some(1usize),
        c != '\t' && c != '\n' && is_cjk ==> r == unicode_width_cjk_of(c),
        c != '\t' && c != '\n' && !is_cjk ==> r == unicode_width_of(c),
{
    if c == '\t' {
        Some(tab_width - position % tab_width)
    } else if c == '\n' {
        Some(1)
    } else if is_cjk {
        unicode_width_cjk(c)
    } else {
        unicode_width(c)
    }
}

/// Whether the character is a hexadecimal digit.
pub open spec fn is_hex_digit(c: char) -> bool {
    (48 <= c as u32 && c as u32 <= 57) || (97 <= c as u32 && c as u32 <= 102) || (65 <= c as u32
        && c as u32 <= 70)
}

/// The value of a hexadecimal digit.
pub open spec fn hex_digit_val(c: char) -> int
    recommends
        is_hex_digit(c),
{
    if 48 <= c as u32 && c as u32 <= 57 {
        c as u32 - 48
    } else if 97 <= c as u32 && c as u32 <= 102 {
        c as u32 - 87
    } else {
        c as u32 - 55
    }
}

/// The byte two hexadecimal digits encode.
pub open spec fn hex_byte_val(c1: char, c2: char) -> int {
    16 * hex_digit_val(c1) + hex_digit_val(c2)
}

fn hex_val(c: char) -> (v: u8)
    requires
        is_hex_digit(c),
    ensures
        v as int == hex_digit_val(c),
        v <= 15,
{
    let u = c as u32;
    if u <= 57 {
        (u - 48) as u8
    } else if u >= 97 {
        (u - 87) as u8
    } else {
        (u - 55) as u8
    }
}

/// One color level of the 256-color terminal palette's 6x6x6 cube: level
/// 0 is 0, and each further level starts at 95 and steps by 40.
pub open spec fn ansi_level(v: int) -> int {
    if v == 0 {
        0
    } else {
        55 + 40 * v
    }
}

/// The red, green and blue components of palette entry `i`, for the cube
/// and grayscale entries (16 and up). The grayscale ramp steps by 10 from
/// 8, except that its tenth and eleventh entries are 96 and 102.
pub open spec fn ansi_color(i: int) -> (int, int, int)
    recommends
        16 <= i < 256,
{
    if i < 232 {
        let q = i - 16;
        (ansi_level(q / 36), ansi_level((q / 6) % 6), ansi_level(q % 6))
    } else if i == 241 {
        (96, 96, 96)
    } else if i == 242 {
        (102, 102, 102)
    } else {
        let v = 8 + 10 * (i - 232);
        (v, v, v)
    }
}

/// The squared distance between palette entry `i` and an RGB triple.
pub open spec fn color_distance(i: int, r: int, g: int, b: int) -> int {
    let c = ansi_color(i);
    (c.0 - r) * (c.0 - r) + (c.1 - g) * (c.1 - g) + (c.2 - b) * (c.2 - b)
}

fn ansi_level_exec(v: usize) -> (r: i32)
    requires
        v < 6,
    ensures
        r == ansi_level(v as int),
        0 <= r <= 255,
{
    if v == 0 {
        0
    } else {
        (55 + 40 * v) as i32
    }
}

fn ansi_color_exec(i: usize) -> (r: (i32, i32, i32))
    requires
        16 <= i < 256,
    ensures
        r.0 == ansi_color(i as int).0,
        r.1 == ansi_color(i as int).1,
        r.2 == ansi_color(i as int).2,
        0 <= r.0 <= 255,
        0 <= r.1 <= 255,
        0 <= r.2 <= 255,
{
    if i < 232 {
        let q = i - 16;
        (ansi_level_exec(q / 36), ansi_level_exec((q / 6) % 6), ansi_level_exec(q % 6))
    } else if i == 241 {
        (96, 96, 96)
    } else if i == 242 {
        (102, 102, 102)
    } else {
        let v = (8 + 10 * (i - 232)) as i32;
        (v, v, v)
    }
}

fn square(x: i32) -> (r: i32)
    requires
        -255 <= x <= 255,
    ensures
        r == x * x,
        0 <= r <= 65025,
{
    proof {
        assert(0 <= x * x <= 255 * 255) by (nonlinear_arith)
            requires
                -255 <= x <= 255,
        ;
    }
    x * x
}

fn color_dist_exec(i: usize, r: i32, g: i32, b: i32) -> (d: i32)
    requires
        16 <= i < 256,
        0 <= r <= 255,
        0 <= g <= 255,
        0 <= b <= 255,
    ensures
        d == color_distance(i as int, r as int, g as int, b as int),
        0 <= d <= 195075,
{
    let c = ansi_color_exec(i);
    square(c.0 - r) + square(c.1 - g) + square(c.2 - b)
}

/// The 256-color palette index whose color lies nearest the RGB triple
/// written as six hexadecimal digits, by squared distance over the
/// entries from 16 up to (but not including) 255, the earliest index
/// winning ties.
pub fn rgb_to_short(rgb: &str) -> (best: usize)
    requires
        rgb@.len() >= 6,
        forall|i: int| 0 <= i < 6 ==> is_hex_digit(#[trigger] rgb@[i]),
    ensures
        ({
            let r = hex_byte_val(rgb@[0], rgb@[1]);
            let g = hex_byte_val(rgb@[2], rgb@[3]);
            let b = hex_byte_val(rgb@[4], rgb@[5]);
            &&& 16 <= best < 255
            &&& forall|j: int|
                16 <= j < 255 ==> color_distance(best as int, r, g, b) <= #[trigger] color_distance(
                    j,
                    r,
                    g,
                    b,
                )
            &&& forall|j: int|
                16 <= j < best ==> #[trigger] color_distance(j, r, g, b) > color_distance(
                    best as int,
                    r,
                    g,
                    b,
                )
        }),
{
    let rv: i32 = hex_val(rgb.get_char(0)) as i32 * 16 + hex_val(rgb.get_char(1)) as i32;
    let gv: i32 = hex_val(rgb.get_char(2)) as i32 * 16 + hex_val(rgb.get_char(3)) as i32;
    let bv: i32 = hex_val(rgb.get_char(4)) as i32 * 16 + hex_val(rgb.get_char(5)) as i32;
    let ghost r = hex_byte_val(rgb@[0], rgb@[1]);
    let ghost g = hex_byte_val(rgb@[2], rgb@[3]);
    let ghost b = hex_byte_val(rgb@[4], rgb@[5]);
    let mut best: usize = 16;
    let mut best_distance = color_dist_exec(16, rv, gv, bv);
    let mut i: usize = 17;
    while i < 255
        invariant
            17 <= i <= 255,
            16 <= best < i,
            rv == r && gv == g && bv == b,
            0 <= rv <= 255 && 0 <= gv <= 255 && 0 <= bv <= 255,
            best_distance == color_distance(best as int, r, g, b),
            forall|j: int| 16 <= j < i ==> best_distance <= #[trigger] color_distance(j, r, g, b),
            forall|j: int|
                16 <= j < best ==> #[trigger] color_distance(j, r, g, b) > best_distance,
        decreases 255 - i,
    {
        let d = color_dist_exec(i, rv, gv, bv);
        if d < best_distance {
            best_distance = d;
            best = i;
        }
        i = i + 1;
    }
    best
}

} // verus!
