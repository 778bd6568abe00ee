//! What holds of the library as a whole.
pub mod arithmetic;
pub mod blends;
pub mod bytes;
pub mod circles;
pub mod colors;
pub mod compositing;
pub mod cones;
pub mod fills;
pub mod frames;
pub mod geometry;
pub mod gradients;
pub mod inverses;
pub mod layers;
pub mod lines;
pub mod luminosities;
pub mod masks;
pub mod operators;
pub mod painting;
pub mod parameters;
pub mod ramps;
pub mod rendering;
pub mod samples;
pub mod saturations;
pub mod stops;
pub mod sweeps;
pub mod thresholds;
pub mod transforms;
