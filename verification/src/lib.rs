//! Parts of a document parser: recognition of regions, and images and forms of PDF pages.

pub mod detokenize;
pub mod greedy;
pub mod images;
pub mod json;
pub mod mapping;
pub mod model;
pub mod names;
pub mod pdf;
pub mod pixels;
pub mod rounding;
pub mod size;
pub mod tensor;
pub mod text;
pub mod unirec;
