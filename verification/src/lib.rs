//! Hidden-line rendering of small 3-D scenes and streaming clean-up of the
//! resulting 2-D strokes, over exact integer coordinates.
//!
//! Every coordinate is a whole number of grid steps. In the plane one drawing
//! unit is [`nbase::point::UNIT`] steps; in space the step is whatever the
//! scene's author chooses, since only ratios of lengths matter there.
pub mod arith;
pub mod nbase;
pub mod n3;
pub mod attributes;
pub mod n2;
pub mod svg;
