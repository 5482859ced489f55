//! The icon in the system tray: a red record dot with a white S on a dark
//! ground.

use vstd::prelude::*;

verus! {

/// The side of the icon in pixels.
pub const ICON_SIZE: u32 = 64;

/// Whether a pixel is part of the block letter S in the middle of the icon.
pub open spec fn letter_s(x: int, y: int) -> bool {
    // Top, middle and bottom bar.
    ||| 18 <= y < 22 && 22 <= x < 42
    ||| 30 <= y < 34 && 22 <= x < 42
    ||| 42 <= y < 46 && 22 <= x < 42
    // Upper left and lower right stroke.
    ||| 22 <= x < 26 && 18 <= y < 30
    ||| 38 <= x < 42 && 30 <= y < 42
}

/// Whether a pixel is part of the dot: within 24 pixels of the middle.
pub open spec fn in_dot(x: int, y: int) -> bool {
    (x - 32) * (x - 32) + (y - 32) * (y - 32) <= 24 * 24
}

/// The red, green, blue and alpha of a pixel.
pub open spec fn pixel(x: int, y: int) -> (u8, u8, u8, u8) {
    if letter_s(x, y) {
        (0xff, 0xff, 0xff, 0xff)
    } else if in_dot(x, y) {
        (0xe0, 0x40, 0x40, 0xff)
    } else {
        (0x2d, 0x2d, 0x2d, 0xff)
    }
}

/// Whether a pixel is part of the block letter S in the middle of the icon.
pub fn draw_s(x: u32, y: u32) -> (r: bool)
    ensures
        r == letter_s(x as int, y as int),
{
    let left: u32 = 22;
    let right: u32 = 42;
    let thick: u32 = 4;
    if y >= 18 && y < 18 + thick && x >= left && x < right {
        return true;
    }
    if x >= left && x < left + thick && y >= 18 && y < 30 {
        return true;
    }
    if y >= 30 && y < 30 + thick && x >= left && x < right {
        return true;
    }
    if x >= right - thick && x < right && y >= 30 && y < 42 {
        return true;
    }
    if y >= 42 && y < 42 + thick && x >= left && x < right {
        return true;
    }
    false
}

/// The colour of a pixel of the icon.
fn paint(x: u32, y: u32) -> (p: (u8, u8, u8, u8))
    requires
        x < ICON_SIZE,
        y < ICON_SIZE,
    ensures
        p == pixel(x as int, y as int),
{
    if draw_s(x, y) {
        return (0xff, 0xff, 0xff, 0xff);
    }
    let dx: i32 = x as i32 - 32;
    let dy: i32 = y as i32 - 32;
    assert(0 <= dx * dx <= 1024) by (nonlinear_arith)
        requires
            -32 <= dx <= 32,
    ;
    assert(0 <= dy * dy <= 1024) by (nonlinear_arith)
        requires
            -32 <= dy <= 32,
    ;
    if dx * dx + dy * dy <= 576 {
        (0xe0, 0x40, 0x40, 0xff)
    } else {
        (0x2d, 0x2d, 0x2d, 0xff)
    }
}

/// Whether four bytes from `at` on are those of a pixel.
pub open spec fn holds_pixel(rgba: Seq<u8>, at: int, p: (u8, u8, u8, u8)) -> bool {
    rgba[at] == p.0 && rgba[at + 1] == p.1 && rgba[at + 2] == p.2 && rgba[at + 3] == p.3
}

/// The pixels of the icon, row by row, four bytes for each: red, green, blue
/// and alpha.
pub fn create_tray_icon() -> (rgba: Vec<u8>)
    ensures
        rgba@.len() == ICON_SIZE * ICON_SIZE * 4,
        forall|x: int, y: int|
            #![trigger pixel(x, y)]
            0 <= x < ICON_SIZE && 0 <= y < ICON_SIZE ==> holds_pixel(
                rgba@,
                (y * ICON_SIZE + x) * 4,
                pixel(x, y),
            ),
{
    let mut rgba: Vec<u8> = Vec::new();
    let mut at: u32 = 0;
    while at < 4096
        invariant
            at <= 4096,
            rgba@.len() == at * 4,
            forall|k: int|
                #![trigger pixel(k % 64, k / 64)]
                0 <= k < at ==> holds_pixel(rgba@, k * 4, pixel(k % 64, k / 64)),
        decreases 4096 - at,
    {
        let p = paint(at % 64, at / 64);
        let ghost before = rgba@;
        rgba.push(p.0);
        rgba.push(p.1);
        rgba.push(p.2);
        rgba.push(p.3);
        assert forall|k: int|
            #![trigger pixel(k % 64, k / 64)]
            0 <= k < at + 1 implies holds_pixel(rgba@, k * 4, pixel(k % 64, k / 64)) by {
            if k < at {
                assert(holds_pixel(before, k * 4, pixel(k % 64, k / 64)));
            }
        }
        at += 1;
    }
    assert forall|x: int, y: int|
        #![trigger pixel(x, y)]
        0 <= x < ICON_SIZE && 0 <= y < ICON_SIZE implies holds_pixel(
        rgba@,
        (y * ICON_SIZE + x) * 4,
        pixel(x, y),
    ) by {
        let k = y * 64 + x;
        assert(k % 64 == x && k / 64 == y);
        assert(holds_pixel(rgba@, k * 4, pixel(k % 64, k / 64)));
    }
    rgba
}

/// The letter, row by row: full bars at the top, in the middle and at the
/// bottom, a stroke on the left between the first two and one on the right
/// between the last two, and nothing elsewhere.
pub proof fn law_letter_row_by_row(x: int, y: int)
    ensures
        (18 <= y < 22 || 30 <= y < 34 || 42 <= y < 46) ==> letter_s(x, y) == (22 <= x < 42),
        22 <= y < 30 ==> letter_s(x, y) == (22 <= x < 26),
        34 <= y < 42 ==> letter_s(x, y) == (38 <= x < 42),
        y < 18 || y >= 46 ==> !letter_s(x, y),
{
}

/// The icon looks the same when it is turned by half: what a pixel and the one
/// opposite show is alike, within the letter and around it.
pub proof fn law_letter_can_be_turned(x: int, y: int)
    ensures
        letter_s(63 - x, 63 - y) == letter_s(x, y),
        in_dot(64 - x, 64 - y) == in_dot(x, y),
        in_dot(y, x) == in_dot(x, y),
{
    assert((64 - x - 32) * (64 - x - 32) == (x - 32) * (x - 32)) by (nonlinear_arith);
    assert((64 - y - 32) * (64 - y - 32) == (y - 32) * (y - 32)) by (nonlinear_arith);
}

/// The letter covers the dot, and the dot covers the ground; nothing shines
/// through, and every pixel is opaque.
pub proof fn law_letter_covers_dot_covers_ground(x: int, y: int)
    ensures
        pixel(x, y).3 == 0xff,
        letter_s(x, y) ==> pixel(x, y) == (0xffu8, 0xffu8, 0xffu8, 0xffu8),
        !letter_s(x, y) && (x - 32) * (x - 32) + (y - 32) * (y - 32) <= 576 ==> pixel(x, y) == (
            0xe0u8,
            0x40u8,
            0x40u8,
            0xffu8,
        ),
        !letter_s(x, y) && (x - 32) * (x - 32) + (y - 32) * (y - 32) > 576 ==> pixel(x, y) == (
            0x2du8,
            0x2du8,
            0x2du8,
            0xffu8,
        ),
{
}

} // verus!
