use vstd::prelude::*;

verus! {

/// The fixed number of iterations after which a point counts as never escaping.
pub const ITERATION_LIMIT: u32 = 255;

/// The grey level of a pixel whose point escaped at `escape` (or never did).
/// An escape count at or past the limit cannot come from the evaluator; it
/// shades as black, like a point that stayed bounded.
pub open spec fn shade_of(escape: Option<u32>) -> u8 {
    match escape {
        None => 0,
        Some(count) => if count <= 255 {
            (255 - count) as u8
        } else {
            0
        },
    }
}

/// Grey level of a pixel: `255 - count` for a point that escaped at
/// iteration `count`, black for one that never escaped.
pub fn shade(escape: Option<u32>) -> (r: u8)
    ensures
        r == shade_of(escape),
{
    match escape {
        None => 0,
        Some(count) => if count <= 255 {
            (255 - count) as u8
        } else {
            0
        },
    }
}

} // verus!
