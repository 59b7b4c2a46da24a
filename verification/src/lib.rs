//! Papercraft layout: unfolding a polygonal model into flat, printable islands.

pub mod action;
pub mod arrange;
pub mod closure;
pub mod codec;
pub mod context;
pub mod craft;
pub mod fixed;
pub mod flap;
pub mod geometry;
pub mod graph;
pub mod layout;
pub mod model;
pub mod options;
pub mod pack;
pub mod pages;
pub mod pdf;
pub mod partition;
pub mod perimeter;
pub mod shapes;
pub mod svg;
pub mod text;
pub mod texture;
pub mod traverse;
pub mod types;
