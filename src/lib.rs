//! Verified core of a Monte-Carlo path tracer: the bounding volume
//! hierarchy over scene primitives and its build, the random choices made
//! while sampling directions, the reading of glTF mesh buffers and node
//! hierarchies, and the binary PPM image format.
//!
//! Geometry enters as order keys of coordinates (see `Aabb`), so that the
//! structure of the hierarchy can be proved without floating point.

pub mod aabb;
pub mod bvh;
pub mod gltf;
pub mod ppm;
pub mod sampling;

pub use aabb::{Aabb, Key3};
pub use bvh::{Bvh, BvhBuilder, Node, ObjectBounds, Split, SplitRule, Task};
pub use gltf::{
    load_byte_usizes, load_indices, scene_roots, triangle_indices, vertex_span, Accessor, AccessorType, BufferView,
    SceneError,
};
pub use ppm::{decode_ppm, encode_ppm, pixel_position};
pub use sampling::{Cosine, Strategy, ToLight, Uniform, MIS};
