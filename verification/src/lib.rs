//! A small software renderer: TGA images, integer geometry containers and
//! triangle-mesh models, with verified contracts.

pub mod tga_image;
pub mod geometry;
pub mod model;
pub mod obj;
