use vstd::prelude::*;
use crate::escape::ITERATION_BUDGET;

verus! {

/// How an escape count becomes a gray level.
#[derive(Clone, Copy, Debug, PartialEq, Eq, Structural)]
pub enum ColorPolicy {
    /// Points that escape quickly are bright; points that never escape are black.
    Inverted,
    /// Points that escape quickly are dark; points that never escape are white.
    Direct,
}

/// The gray level of a pixel whose point escaped after `escape` steps, or
/// never did: in the direct policy the count itself, and 255 for a point that
/// never escaped; in the inverted policy what the count leaves of 255, and 0
/// for a point that never escaped.
pub open spec fn intensity(policy: ColorPolicy, escape: Option<u32>) -> u8 {
    match (policy, escape) {
        (ColorPolicy::Inverted, None) => 0u8,
        (ColorPolicy::Inverted, Some(count)) => (255 - count % 256) as u8,
        (ColorPolicy::Direct, None) => 255u8,
        (ColorPolicy::Direct, Some(count)) => (count % 256) as u8,
    }
}

/// The gray level that `policy` gives to a pixel whose point escaped after
/// `escape` steps, or never did. Of a count beyond 255 the low byte is
/// taken.
pub fn shade(policy: ColorPolicy, escape: Option<u32>) -> (level: u8)
    ensures
        level == intensity(policy, escape),
{
    match escape {
        None => match policy {
            ColorPolicy::Inverted => 0,
            ColorPolicy::Direct => 255,
        },
        Some(count) => {
            let low: u8 = (count % 256) as u8;
            match policy {
                ColorPolicy::Inverted => 255 - low,
                ColorPolicy::Direct => low,
            }
        },
    }
}

/// The number of colors in the palette.
pub const COLOR_COUNT: usize = 256;

/// The number of bytes in the palette: red, green and blue for each color.
pub const COLOR_MAP_LEN: usize = 768;

/// The byte at place `index` of the gray palette: color number `index / 3`,
/// all three of whose parts are `255` less the color's number, so that the
/// palette runs from white down to black.
pub open spec fn color_map_byte(index: int) -> u8 {
    (255 - index / 3) as u8
}

/// Each of the three parts of color number `color` is `255 - color`.
pub proof fn lemma_color_parts(color: int, part: int)
    requires
        0 <= color < COLOR_COUNT,
        0 <= part < 3,
    ensures
        0 <= color * 3 + part < COLOR_MAP_LEN,
        color_map_byte(color * 3 + part) == 255 - color,
{
}

/// For an escape count within the budget of steps, the direct gray level is
/// the count and the inverted one is what the count leaves of 255; a point
/// that never escaped has level 255 in the direct policy and 0 in the
/// inverted one.
pub proof fn lemma_intensity_within_budget(count: u32)
    requires
        count <= ITERATION_BUDGET,
    ensures
        intensity(ColorPolicy::Direct, Some(count)) == count,
        intensity(ColorPolicy::Inverted, Some(count)) == 255 - count,
        intensity(ColorPolicy::Direct, None) == 255,
        intensity(ColorPolicy::Inverted, None) == 0,
{
}

/// The palette of 256 grays, from white for color 0 down to black for color
/// 255, as red, green and blue bytes one color after another.
pub fn fetch_color_map() -> (color_map: [u8; COLOR_MAP_LEN])
    ensures
        forall|index: int|
            0 <= index < COLOR_MAP_LEN ==> #[trigger] color_map@[index] == color_map_byte(index),
{
    let mut color_map: [u8; COLOR_MAP_LEN] = [0; COLOR_MAP_LEN];
    let mut color: usize = 0;
    while color < COLOR_COUNT
        invariant
            color <= COLOR_COUNT,
            forall|index: int|
                0 <= index < color * 3 ==> #[trigger] color_map@[index] == color_map_byte(index),
        decreases COLOR_COUNT - color,
    {
        let gray: u8 = (255 - color) as u8;
        let mut part: usize = 0;
        while part < 3
            invariant
                color < COLOR_COUNT,
                part <= 3,
                gray == 255 - color,
                forall|index: int|
                    0 <= index < color * 3 + part ==> #[trigger] color_map@[index]
                        == color_map_byte(index),
            decreases 3 - part,
        {
            color_map[color * 3 + part] = gray;
            part += 1;
        }
        color += 1;
    }
    color_map
}

} // verus!
