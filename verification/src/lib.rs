//! A raster paint surface kept as a stack of per-colour presence layers.
//!
//! Every colour that was ever painted owns one layer of 8-bit presences over
//! the whole canvas. Brush strokes are gathered in a transient layer by
//! max-compositing and blended into the store once, a flood fill rewrites the
//! store pixel by pixel, and a render folds the layers into RGBA bytes.
//!
//! The store is `color_presences::ColorPresences`; `store_view` says, over
//! plain sequences, what each of its operations does. `image` and
//! `canvas_image` put a stroke layer beside the store. `fill_rule`, `region`
//! and `scan` hold the mathematics of the flood fill. `grid_model` is the
//! one place where the `grid` crate is taken on trust.

// Plain values.
pub mod color;
pub mod error;
pub mod point;

// Containers.
pub mod array_queue;
pub mod packed_u8;
pub mod vec_map;

// Layers of intensities.
pub mod grid_model;
pub mod raster;
pub mod brush;
pub mod brush_stroke;

// The store and its mathematics.
pub mod blend;
pub mod fill_rule;
pub mod region;
pub mod scan;
pub mod span;
pub mod store_view;
pub mod color_presences;

// Canvases.
pub mod canvas_image;
pub mod image;
