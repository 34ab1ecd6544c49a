pub mod geometry;
pub mod form_lines;
pub mod config;
pub mod contours;
pub mod render;
