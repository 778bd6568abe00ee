//! Paints color glyphs that are described by an OpenType `COLR` version 1 paint graph.
//!
//! - Solid fills and linear, radial (two-point conical) and sweep (conical) gradients, whose
//!   colors are interpolated in premultiplied sRGB: [`gradient`].
//! - The Porter-Duff operators and the separable and non-separable blend modes: [`blend`],
//!   [`composite`].
//! - Anti-aliased clips, layers, and gradients that are evaluated in paint coordinates:
//!   [`painter`], over the model of its state in [`canvas`].
//! - The size and place of the picture, and what is read of the font: [`frame`], [`font`].
//!
//! Coordinates, parameters and blended channels are IEEE 754 single precision numbers. They are
//! held as bits and computed with integers, so that every result is known exactly: [`binary32`].
//! The proofs about that arithmetic are in [`rounding`], [`order`], [`accuracy`],
//! [`bounds`] and [`reals`].
//! What holds of the library as a whole is stated in [`laws`].
pub mod accuracy;
pub mod affine;
pub mod arith;
pub mod binary32;
pub mod blend;
pub mod bounds;
pub mod canvas;
pub mod color;
pub mod composite;
pub mod consts;
pub mod font;
pub mod frame;
pub mod gradient;
pub mod laws;
pub mod order;
pub mod painter;
pub mod path;
pub mod reals;
pub mod rounding;
