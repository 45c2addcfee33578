//! Colour quantization: palette extraction, palette lookup and the host-side
//! planning of the GPU k-means pipeline.

pub mod args;
pub mod batches;
pub mod bytes;
pub mod color;
pub mod error;
pub mod image;
pub mod layout;
pub mod lightness;
pub mod lloyd;
pub mod names;
pub mod octree;
pub mod octree_colors;
pub mod octree_laws;
pub mod octree_model;
pub mod octree_node;
pub mod octree_queue;
pub mod operations;
pub mod options;
pub mod preprocess;
pub mod seeding;
pub mod text;
pub mod utils;

pub use crate::image::Image;
pub use crate::octree::ColorTree;
pub use crate::options::{Algorithm, ColorSpace, Extension, ReduceMode};
