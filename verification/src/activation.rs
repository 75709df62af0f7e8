//! The order in which the pixels of a cell light up as the grey level grows, for the regular
//! 2 frame, 2 by 2 pattern.
//!
//! A cell is 2 frames of 2 by 2 pixels: 8 pixels, for 8 levels of grey.  Each pixel gets the
//! grey level from which on it is lit.  Neighbouring cells use different variants of the
//! order, so that the frame as a whole does not flicker in step.
use vstd::prelude::*;

verus! {

/// Number of grey levels a cell represents.
pub const LEVELS_OF_GREY: u8 = 8;

/// Number of variants of the lighting order.
pub const ACTIVATION_VARIANTS: usize = 4;

/// Number of frames in a cell.
pub const ACTIVATION_FRAMES: usize = 2;

/// Number of pixels of a cell in one frame; pixel `y * 2 + x`.
pub const ACTIVATION_PIXELS: usize = 4;

/// The grey level of pixel `pixel` of frame `frame` in variant `variant` of the order.
pub open spec fn activation_level(variant: int, frame: int, pixel: int) -> int {
    let table = seq![
        seq![seq![0int, 2, 3, 1], seq![4int, 6, 7, 5]],
        seq![seq![4int, 6, 7, 5], seq![0int, 2, 3, 1]],
        seq![seq![1int, 3, 2, 0], seq![5int, 7, 6, 4]],
        seq![seq![5int, 7, 6, 4], seq![1int, 3, 2, 0]],
    ];
    table[variant][frame][pixel]
}

/// The grey level from which pixel `pixel` (`y * 2 + x`) of frame `frame` of a cell lights up,
/// in variant `variant` of the lighting order.
pub fn luma_activation_level(variant: usize, frame: usize, pixel: usize) -> (res: u8)
    requires
        variant < ACTIVATION_VARIANTS,
        frame < ACTIVATION_FRAMES,
        pixel < ACTIVATION_PIXELS,
    ensures
        res == activation_level(variant as int, frame as int, pixel as int),
{
    let low_a: [u8; 4] = [0, 2, 3, 1];
    let high_a: [u8; 4] = [4, 6, 7, 5];
    let low_b: [u8; 4] = [1, 3, 2, 0];
    let high_b: [u8; 4] = [5, 7, 6, 4];
    let row = if variant == 0 {
        if frame == 0 {
            low_a
        } else {
            high_a
        }
    } else if variant == 1 {
        if frame == 0 {
            high_a
        } else {
            low_a
        }
    } else if variant == 2 {
        if frame == 0 {
            low_b
        } else {
            high_b
        }
    } else {
        if frame == 0 {
            high_b
        } else {
            low_b
        }
    };
    row[pixel]
}

/// Every variant gives each of the 8 pixels of a cell a different grey level below 8, and
/// each of the 8 levels belongs to the pixel `pixel_with_level` names.
pub proof fn lemma_each_level_once(variant: int)
    requires
        0 <= variant < ACTIVATION_VARIANTS,
    ensures
        forall|f: int, p: int|
            0 <= f < ACTIVATION_FRAMES && 0 <= p < ACTIVATION_PIXELS ==> 0 <= #[trigger] activation_level(
                variant,
                f,
                p,
            ) < LEVELS_OF_GREY,
        forall|f1: int, p1: int, f2: int, p2: int|
            0 <= f1 < ACTIVATION_FRAMES && 0 <= p1 < ACTIVATION_PIXELS && 0 <= f2 < ACTIVATION_FRAMES
                && 0 <= p2 < ACTIVATION_PIXELS && (f1 != f2 || p1 != p2) ==> #[trigger] activation_level(
                variant,
                f1,
                p1,
            ) != #[trigger] activation_level(variant, f2, p2),
        forall|level: int|
            0 <= level < LEVELS_OF_GREY ==> {
                let (f, p) = #[trigger] pixel_with_level(variant, level);
                &&& 0 <= f < ACTIVATION_FRAMES
                &&& 0 <= p < ACTIVATION_PIXELS
                &&& activation_level(variant, f, p) == level
            },
{
}

/// The frame and pixel that light up from grey level `level` on, in variant `variant`.
pub open spec fn pixel_with_level(variant: int, level: int) -> (int, int) {
    let f = if variant == 0 || variant == 2 {
        if level < 4 {
            0int
        } else {
            1int
        }
    } else {
        if level < 4 {
            1int
        } else {
            0int
        }
    };
    let base = level % 4;
    let p = if variant < 2 {
        if base == 0 {
            0int
        } else if base == 1 {
            3int
        } else if base == 2 {
            1int
        } else {
            2int
        }
    } else {
        if base == 0 {
            3int
        } else if base == 1 {
            0int
        } else if base == 2 {
            2int
        } else {
            1int
        }
    };
    (f, p)
}

/// The lighting order of a variant over the two frames of a cell: the first frame of variants
/// 0 and 2 lights up for the 4 darkest levels, their second frame for the 4 brightest;
/// variants 1 and 3 are variants 0 and 2 with the frames exchanged.
pub proof fn lemma_variants_swap_frames(p: int)
    requires
        0 <= p < ACTIVATION_PIXELS,
    ensures
        activation_level(1, 0, p) == activation_level(0, 1, p),
        activation_level(1, 1, p) == activation_level(0, 0, p),
        activation_level(3, 0, p) == activation_level(2, 1, p),
        activation_level(3, 1, p) == activation_level(2, 0, p),
        activation_level(0, 0, p) < 4 && activation_level(0, 1, p) >= 4,
        activation_level(2, 0, p) < 4 && activation_level(2, 1, p) >= 4,
{
}

} // verus!
