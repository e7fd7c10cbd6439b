use vstd::prelude::*;
use vstd::arithmetic::mul::{lemma_mul_inequality, lemma_mul_upper_bound,
    lemma_mul_is_distributive_sub_other_way};

verus! {

/// Largest length, in micrometers, that any physical parameter may hold
/// (one kilometer): keeps every derived height and coordinate inside `u64`.
pub const MAX_LENGTH_UM: u64 = 1_000_000_000;

/// Largest admissible white-layer cap.
pub const MAX_LAYER_CAP: u32 = 1_000_000;

/// Physical parameters of a print. All lengths are in micrometers.
#[derive(Clone, Copy, PartialEq, Eq, Structural, Debug)]
pub struct PrintConfig {
    /// Thickness of the opaque base, micrometers.
    pub base_thickness_um: u64,
    /// Thickness of one translucent layer, micrometers.
    pub layer_thickness_um: u64,
    /// Target physical size of the larger image dimension, micrometers.
    pub image_size_um: u64,
    /// Largest admissible white-layer count.
    pub max_layers: u32,
}

impl PrintConfig {
    /// All parameters within machine limits.
    pub open spec fn wf(self) -> bool {
        &&& self.base_thickness_um <= MAX_LENGTH_UM
        &&& self.layer_thickness_um <= MAX_LENGTH_UM
        &&& self.image_size_um <= MAX_LENGTH_UM
        &&& self.max_layers <= MAX_LAYER_CAP
    }

    /// Height of the opaque base under `white_layers` translucent layers.
    /// In flat-top mode the base shrinks as the overlay grows, keeping the
    /// total stack height constant; otherwise the base height is fixed.
    pub open spec fn spec_black_thickness(self, white_layers: u32, flat_top: bool) -> int {
        if flat_top {
            self.base_thickness_um + self.max_layers * self.layer_thickness_um
                - white_layers * self.layer_thickness_um
        } else {
            self.base_thickness_um as int
        }
    }

    /// Height of the whole stack (base plus overlay) at `white_layers`.
    pub open spec fn spec_total_height(self, white_layers: u32, flat_top: bool) -> int {
        if flat_top {
            self.base_thickness_um + self.max_layers * self.layer_thickness_um
        } else {
            self.base_thickness_um + white_layers * self.layer_thickness_um
        }
    }

    pub fn new(
        base_thickness_um: u64,
        layer_thickness_um: u64,
        image_size_um: u64,
        max_layers: u32,
    ) -> (c: PrintConfig)
        ensures
            c == (PrintConfig { base_thickness_um, layer_thickness_um, image_size_um, max_layers }),
    {
        PrintConfig { base_thickness_um, layer_thickness_um, image_size_um, max_layers }
    }

    pub fn calculate_black_thickness(&self, white_layers: u32, flat_top: bool) -> (t: u64)
        requires
            self.wf(),
            flat_top ==> white_layers <= self.max_layers,
        ensures
            t == self.spec_black_thickness(white_layers, flat_top),
    {
        if flat_top {
            proof {
                lemma_mul_inequality(
                    white_layers as int,
                    self.max_layers as int,
                    self.layer_thickness_um as int,
                );
                lemma_mul_inequality(
                    self.max_layers as int,
                    MAX_LAYER_CAP as int,
                    self.layer_thickness_um as int,
                );
                lemma_mul_upper_bound(
                    self.max_layers as int,
                    MAX_LAYER_CAP as int,
                    self.layer_thickness_um as int,
                    MAX_LENGTH_UM as int,
                );
                lemma_mul_is_distributive_sub_other_way(
                    self.layer_thickness_um as int,
                    self.max_layers as int,
                    white_layers as int,
                );
            }
            self.base_thickness_um
                + (self.max_layers as u64 - white_layers as u64) * self.layer_thickness_um
        } else {
            self.base_thickness_um
        }
    }

    pub fn calculate_total_height(&self, white_layers: u32, flat_top: bool) -> (t: u64)
        requires
            self.wf(),
        ensures
            t == self.spec_total_height(white_layers, flat_top),
    {
        proof {
            lemma_mul_upper_bound(
                white_layers as int,
                u32::MAX as int,
                self.layer_thickness_um as int,
                MAX_LENGTH_UM as int,
            );
            lemma_mul_upper_bound(
                self.max_layers as int,
                MAX_LAYER_CAP as int,
                self.layer_thickness_um as int,
                MAX_LENGTH_UM as int,
            );
        }
        if flat_top {
            self.base_thickness_um + self.max_layers as u64 * self.layer_thickness_um
        } else {
            self.base_thickness_um + white_layers as u64 * self.layer_thickness_um
        }
    }

    /// Side of one square pixel, in micrometers: the image's larger dimension
    /// is scaled to `image_size_um` and both axes share that scale.
    pub open spec fn spec_pixel_size(self, width: u32, height: u32) -> int {
        if width > height {
            self.image_size_um as int / width as int
        } else {
            self.image_size_um as int / height as int
        }
    }

    /// Physical side of one pixel for a raster of the given dimensions,
    /// returned once per axis; the two components are always equal.
    pub fn pixel_size(&self, image_width_pixels: u32, image_height_pixels: u32) -> (p: (u64, u64))
        requires
            image_width_pixels > 0 || image_height_pixels > 0,
        ensures
            p.0 == self.spec_pixel_size(image_width_pixels, image_height_pixels),
            p.1 == p.0,
    {
        if image_width_pixels > image_height_pixels {
            let s = self.image_size_um / image_width_pixels as u64;
            (s, s)
        } else {
            let s = self.image_size_um / image_height_pixels as u64;
            (s, s)
        }
    }
}

impl Default for PrintConfig {
    /// A one-millimeter base, fifty-micrometer layers, a hundred-millimeter
    /// image and nineteen layers at most.
    fn default() -> (c: PrintConfig)
        ensures
            c == (PrintConfig {
                base_thickness_um: 1000u64,
                layer_thickness_um: 50u64,
                image_size_um: 100_000u64,
                max_layers: 19u32,
            }),
    {
        PrintConfig {
            base_thickness_um: 1000,
            layer_thickness_um: 50,
            image_size_um: 100_000,
            max_layers: 19,
        }
    }
}

/// Printability constraints, lengths in micrometers.
#[derive(Clone, Copy, PartialEq, Eq, Structural, Debug)]
pub struct PrintingConstraints {
    pub min_feature_size_um: u64,
    pub merge_small_features: bool,
    pub erosion_dilation_passes: u32,
}

impl PrintingConstraints {
    /// The minimum feature size stays within machine limits.
    pub open spec fn wf(self) -> bool {
        self.min_feature_size_um <= MAX_LENGTH_UM
    }

    /// Minimum feature extent in pixels along one axis: the physical minimum
    /// divided by the pixel side, rounded up.
    pub open spec fn spec_min_pixels(self, pixel_um: int) -> int {
        (self.min_feature_size_um + pixel_um - 1) / pixel_um
    }

    /// Pixel-count thresholds, per axis, for the minimum feature size.
    pub fn calculate_min_pixels(
        &self,
        config: &PrintConfig,
        image_width: u32,
        image_height: u32,
    ) -> (m: (u32, u32))
        requires
            self.wf(),
            config.wf(),
            image_width > 0 || image_height > 0,
            config.spec_pixel_size(image_width, image_height) >= 1,
        ensures
            m.0 == self.spec_min_pixels(config.spec_pixel_size(image_width, image_height)),
            m.1 == m.0,
    {
        let (pw, _ph) = config.pixel_size(image_width, image_height);
        let m = ((self.min_feature_size_um + pw - 1) / pw) as u32;
        (m, m)
    }
}

impl Default for PrintingConstraints {
    /// An 0.8-millimeter minimum feature, merging on, one smoothing pass.
    fn default() -> (c: PrintingConstraints)
        ensures
            c == (PrintingConstraints {
                min_feature_size_um: 800u64,
                merge_small_features: true,
                erosion_dilation_passes: 1u32,
            }),
    {
        PrintingConstraints {
            min_feature_size_um: 800,
            merge_small_features: true,
            erosion_dilation_passes: 1,
        }
    }
}

/// The total stack height is non-decreasing in the white-layer count in
/// variable-height mode, and constant in flat-top mode.
pub proof fn lemma_total_height_monotonic(c: PrintConfig, w1: u32, w2: u32, flat_top: bool)
    requires
        c.wf(),
        w1 <= w2,
    ensures
        c.spec_total_height(w1, flat_top) <= c.spec_total_height(w2, flat_top),
        flat_top ==> c.spec_total_height(w1, flat_top) == c.spec_total_height(w2, flat_top),
{
    lemma_mul_inequality(w1 as int, w2 as int, c.layer_thickness_um as int);
}

} // verus!
