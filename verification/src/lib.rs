//! Stepped layout and scene construction for programmatically built slide decks.
//!
//! A slide is a tree of boxes whose attributes may change from step to step.
//! For every step the library computes the geometry of each box and the flat
//! sequence of draw primitives, in paint order.
//!
//! Step indices are zero-based: step 0 is the first state of a slide.

pub mod color;
pub mod deck;
pub mod error;
pub mod frozen;
pub mod geometry;
pub mod layout;
pub mod node;
pub mod render;
pub mod resources;
pub mod scene;
pub mod slide;
pub mod stepvalue;
pub mod textstyle;
