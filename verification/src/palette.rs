use vstd::prelude::*;
use crate::color::Color;

verus! {

/// An ordered list of colors, each mapped to a white-layer count.
/// The two lists are parallel: entry `i` pairs `colors[i]` with
/// `layer_counts[i]`.
#[derive(Clone, Debug)]
pub struct ColorPalette {
    pub colors: Vec<Color>,
    pub layer_counts: Vec<u32>,
}

impl ColorPalette {
    /// The two parallel lists have the same length.
    pub open spec fn wf(self) -> bool {
        self.colors@.len() == self.layer_counts@.len()
    }

    /// Every stored layer count is at most `cap`.
    pub open spec fn counts_at_most(self, cap: u32) -> bool {
        forall|i: int| 0 <= i < self.layer_counts@.len() ==> self.layer_counts@[i] <= cap
    }

    /// A synthetic fallback palette: intensities climb linearly from 0 to
    /// 255 over layer counts `0 ..= max_layers`.
    pub fn fake(max_layers: u32) -> (p: ColorPalette)
        ensures
            p.wf(),
            p.colors@.len() == max_layers + 1,
            forall|i: int| 0 <= i <= max_layers ==> p.layer_counts@[i] == i,
            forall|i: int|
                0 <= i <= max_layers ==> p.colors@[i] == spec_grey(spec_ramp_intensity(
                    i,
                    max_layers as int,
                )),
            p.counts_at_most(max_layers),
    {
        let mut colors: Vec<Color> = Vec::new();
        let mut layer_counts: Vec<u32> = Vec::new();
        let mut i: u64 = 0;
        while i <= max_layers as u64
            invariant
                i <= max_layers + 1,
                colors@.len() == i,
                layer_counts@.len() == i,
                forall|j: int| 0 <= j < i ==> layer_counts@[j] == j,
                forall|j: int|
                    0 <= j < i ==> colors@[j] == spec_grey(spec_ramp_intensity(
                        j,
                        max_layers as int,
                    )),
            decreases max_layers + 1 - i,
        {
            let intensity: u8 = if max_layers == 0 {
                0
            } else {
                ((255u64 * i) / max_layers as u64) as u8
            };
            colors.push(Color { r: intensity, g: intensity, b: intensity });
            layer_counts.push(i as u32);
            i = i + 1;
        }
        ColorPalette { colors, layer_counts }
    }

    /// The layer count paired with the first exact occurrence of `color`;
    /// 0 when the color is absent.
    pub fn get_layer_count_for_color(&self, color: &Color) -> (count: u32)
        requires
            self.wf(),
        ensures
            count == self.spec_layer_count_for_color(*color),
    {
        let n = self.colors.len();
        let mut i: usize = 0;
        while i < n
            invariant
                self.wf(),
                n == self.colors@.len(),
                i <= n,
                forall|j: int| 0 <= j < i ==> self.colors@[j] != *color,
            decreases n - i,
        {
            if self.colors[i] == *color {
                proof {
                    lemma_first_match_layer_count(
                        self.colors@,
                        self.layer_counts@,
                        *color,
                        i as int,
                    );
                }
                return self.layer_counts[i];
            }
            i = i + 1;
        }
        proof {
            lemma_no_match_layer_count(self.colors@, self.layer_counts@, *color);
        }
        0
    }

    /// What `get_layer_count_for_color` returns: the count at the first
    /// index holding the color, or 0 when no index does.
    pub open spec fn spec_layer_count_for_color(self, color: Color) -> u32 {
        spec_lookup_count(self.colors@, self.layer_counts@, color)
    }

    /// The color paired with the first occurrence of `layer_count`, if any.
    pub fn get_color_for_layer_count(&self, layer_count: u32) -> (c: Option<Color>)
        requires
            self.wf(),
        ensures
            c == self.spec_color_for_layer_count(layer_count),
    {
        let n = self.layer_counts.len();
        let mut i: usize = 0;
        while i < n
            invariant
                self.wf(),
                n == self.layer_counts@.len(),
                i <= n,
                forall|j: int| 0 <= j < i ==> self.layer_counts@[j] != layer_count,
            decreases n - i,
        {
            if self.layer_counts[i] == layer_count {
                proof {
                    lemma_first_match_color(self.colors@, self.layer_counts@, layer_count, i as int);
                }
                return Some(self.colors[i]);
            }
            i = i + 1;
        }
        proof {
            lemma_no_match_color(self.colors@, self.layer_counts@, layer_count);
        }
        None
    }

    /// What `get_color_for_layer_count` returns.
    pub open spec fn spec_color_for_layer_count(self, layer_count: u32) -> Option<Color> {
        spec_lookup_color(self.colors@, self.layer_counts@, layer_count)
    }
}

/// The grey with the given intensity on all three channels.
pub open spec fn spec_grey(intensity: int) -> Color {
    Color { r: intensity as u8, g: intensity as u8, b: intensity as u8 }
}

/// Intensity of ramp entry `i` of `max_layers`: `255 * i / max_layers`,
/// truncated; 0 for the degenerate single-entry ramp.
pub open spec fn spec_ramp_intensity(i: int, max_layers: int) -> int {
    if max_layers == 0 {
        0
    } else {
        255 * i / max_layers
    }
}

/// First-match color lookup: the count at the first index of `colors`
/// holding `color`, or 0 when the color is absent.
pub open spec fn spec_lookup_count(colors: Seq<Color>, counts: Seq<u32>, color: Color) -> u32
    decreases colors.len(),
{
    if colors.len() == 0 || counts.len() == 0 {
        0
    } else if colors[0] == color {
        counts[0]
    } else {
        spec_lookup_count(colors.drop_first(), counts.drop_first(), color)
    }
}

/// First-match layer-count lookup: the color at the first index of
/// `counts` holding `layer_count`, or nothing when the count is absent.
pub open spec fn spec_lookup_color(colors: Seq<Color>, counts: Seq<u32>, layer_count: u32) -> Option<
    Color,
>
    decreases counts.len(),
{
    if colors.len() == 0 || counts.len() == 0 {
        None
    } else if counts[0] == layer_count {
        Some(colors[0])
    } else {
        spec_lookup_color(colors.drop_first(), counts.drop_first(), layer_count)
    }
}

/// A lookup result is zero or one of the stored layer counts.
pub proof fn lemma_lookup_count_in_counts(colors: Seq<Color>, counts: Seq<u32>, c: Color)
    requires
        colors.len() == counts.len(),
    ensures
        spec_lookup_count(colors, counts, c) == 0 || exists|i: int|
            0 <= i < counts.len() && counts[i] == spec_lookup_count(colors, counts, c),
    decreases colors.len(),
{
    if colors.len() > 0 {
        if colors[0] == c {
            assert(counts[0] == spec_lookup_count(colors, counts, c));
        } else {
            lemma_lookup_count_in_counts(colors.drop_first(), counts.drop_first(), c);
            let v = spec_lookup_count(colors.drop_first(), counts.drop_first(), c);
            if v != 0 {
                let i = choose|i: int|
                    0 <= i < counts.drop_first().len() && counts.drop_first()[i] == v;
                assert(counts[i + 1] == v);
            }
        }
    }
}

/// When the first `i` colors all differ from `color` and index `i` matches,
/// the lookup returns the count at `i`.
proof fn lemma_first_match_layer_count(colors: Seq<Color>, counts: Seq<u32>, color: Color, i: int)
    requires
        colors.len() == counts.len(),
        0 <= i < colors.len(),
        forall|j: int| 0 <= j < i ==> colors[j] != color,
        colors[i] == color,
    ensures
        spec_lookup_count(colors, counts, color) == counts[i],
    decreases i,
{
    if i > 0 {
        lemma_first_match_layer_count(colors.drop_first(), counts.drop_first(), color, i - 1);
    }
}

/// When no color matches, the lookup returns 0.
proof fn lemma_no_match_layer_count(colors: Seq<Color>, counts: Seq<u32>, color: Color)
    requires
        colors.len() == counts.len(),
        forall|j: int| 0 <= j < colors.len() ==> colors[j] != color,
    ensures
        spec_lookup_count(colors, counts, color) == 0,
    decreases colors.len(),
{
    if colors.len() > 0 {
        lemma_no_match_layer_count(colors.drop_first(), counts.drop_first(), color);
    }
}

/// When the first `i` counts all differ from `layer_count` and index `i`
/// matches, the lookup returns the color at `i`.
proof fn lemma_first_match_color(colors: Seq<Color>, counts: Seq<u32>, layer_count: u32, i: int)
    requires
        colors.len() == counts.len(),
        0 <= i < counts.len(),
        forall|j: int| 0 <= j < i ==> counts[j] != layer_count,
        counts[i] == layer_count,
    ensures
        spec_lookup_color(colors, counts, layer_count) == Some(colors[i]),
    decreases i,
{
    if i > 0 {
        lemma_first_match_color(colors.drop_first(), counts.drop_first(), layer_count, i - 1);
    }
}

/// When no count matches, the lookup returns nothing.
proof fn lemma_no_match_color(colors: Seq<Color>, counts: Seq<u32>, layer_count: u32)
    requires
        colors.len() == counts.len(),
        forall|j: int| 0 <= j < counts.len() ==> counts[j] != layer_count,
    ensures
        spec_lookup_color(colors, counts, layer_count) is None,
    decreases counts.len(),
{
    if counts.len() > 0 {
        lemma_no_match_color(colors.drop_first(), counts.drop_first(), layer_count);
    }
}

} // verus!
