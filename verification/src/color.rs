use vstd::prelude::*;

verus! {

/// One pixel: a red, green and blue channel, eight bits each.
#[derive(Clone, Copy, PartialEq, Eq, Structural, Debug)]
pub struct Color {
    pub r: u8,
    pub g: u8,
    pub b: u8,
}

/// Squared Euclidean distance between two colors in RGB space.
pub open spec fn dist2(a: Color, b: Color) -> int {
    (a.r - b.r) * (a.r - b.r) + (a.g - b.g) * (a.g - b.g) + (a.b - b.b) * (a.b - b.b)
}

/// The square of a channel difference stays within `0 ..= 255 * 255`.
pub proof fn lemma_square_bound(d: int)
    requires
        -255 <= d <= 255,
    ensures
        0 <= d * d <= 255 * 255,
{
    assert(0 <= d * d <= 255 * 255) by (nonlinear_arith)
        requires
            -255 <= d <= 255,
    ;
}

impl Color {
    /// Squared Euclidean distance to another color.
    pub fn distance_squared(&self, other: &Color) -> (d: u32)
        ensures
            d == dist2(*self, *other),
    {
        let dr: i32 = self.r as i32 - other.r as i32;
        let dg: i32 = self.g as i32 - other.g as i32;
        let db: i32 = self.b as i32 - other.b as i32;
        proof {
            lemma_square_bound(dr as int);
            lemma_square_bound(dg as int);
            lemma_square_bound(db as int);
        }
        (dr * dr + dg * dg + db * db) as u32
    }
}

} // verus!
