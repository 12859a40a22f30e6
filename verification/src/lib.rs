//! A tiling pane-layout engine: a binary split tree of panes that can be
//! split, closed, resized, swapped, maximized and navigated by direction.
//! The tree always holds exactly one leaf more than it holds splits, and at
//! least one leaf; every mutation preserves that shape.

pub mod controller;
pub mod editor;
pub mod geometry;
pub mod hub;
pub mod pane;
pub mod project;
pub mod tree;
