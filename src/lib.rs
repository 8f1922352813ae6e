//! The exact, float-free core of a Monte-Carlo path tracer: the shape of the
//! bounding-volume hierarchy, the ordering of primitives along an axis, the
//! scene's object list, and the assembly of rendered scanlines and pixels into
//! a final image.
pub mod bvh_node;
pub mod hittable_list;
pub mod image_output;
pub mod ppm;
pub mod scanlines;

pub use bvh_node::{order_key, split_on_axis, BvhNode};
pub use hittable_list::HittableList;
pub use image_output::ImageOutput;
pub use ppm::{ppm_header, write_color};
pub use scanlines::{assemble_rows, pixel_seed, scanline_order, AssembleError};
