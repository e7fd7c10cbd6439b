//! Turn a raster image into a two-material printable model: a palette maps
//! colors to white-layer counts, dithering quantizes the image against it,
//! morphological smoothing and small-feature merging keep every feature
//! printable, same-count regions decompose into disjoint rectangles, and the
//! rectangles extrude into a black base mesh and a white overlay mesh ready
//! for interchange export. All lengths are integer micrometers.
pub mod calibration;
pub mod color;
pub mod config;
pub mod export;
pub mod generate;
pub mod image_processing;
pub mod mesh;
pub mod optimize;
pub mod palette;
pub mod palette_codec;
pub mod printability;
pub mod raster;
pub mod transport;
pub mod vectorize;
