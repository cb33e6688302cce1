//! A terminal aquarium: the sprites, frames, rasteriser and population rules
//! behind the tank, with their behaviour stated as contracts.
pub mod input;
pub mod sprite;
pub mod render;
pub mod raster;
pub mod entity;
pub mod fish;
pub mod tank;
