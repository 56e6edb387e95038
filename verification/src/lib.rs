//! Verified core of a cursor theme picker for Hyprland.
pub mod apply;
pub mod cli;
pub mod omarchy;
pub mod picker;
pub mod render;
pub mod scan;
pub mod text;
