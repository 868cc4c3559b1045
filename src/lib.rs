//! Palette reduction for RGBA images: a bit-exact color codec, grouping of
//! identical colors, and a weighted k-center quantizer with seeding and
//! pruned Lloyd refinement, for single images and for sets of images that
//! share one palette.
pub mod bits;
pub mod color;
pub mod combination;
pub mod grouping;
pub mod images;
pub mod initializer;
pub mod k_means;
pub mod options;
