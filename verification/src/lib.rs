//! Verified core logic of the marigold renderer: bounding volume hierarchy
//! construction, button input tracking, frame timing, bitmap font parsing and
//! GPU buffer bookkeeping.

pub mod bvh;
pub mod debug_profiler;
pub mod duration;
pub mod font;
pub mod time;
pub mod tree;
pub mod util;
pub mod vulkan;
pub mod geometry;
pub mod geometry_u16;
pub mod input;
pub mod post;
pub mod profile;
pub mod scene;
pub mod scene_bvh;
pub mod gpu_vec;
