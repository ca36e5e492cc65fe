//! Texture synthesis by constraint propagation and backtracking over a grid
//! of cells whose domains are learned from the 8-neighbourhoods of a source
//! image.

pub mod color;
pub mod consistency;
pub mod image;
pub mod pattern8;
pub mod pixel;
pub mod propagate;
pub mod snapshot;
pub mod solver;
pub mod soundness;
pub mod stack_set;
pub mod superposition;
pub mod vec2;
pub mod weighted;
