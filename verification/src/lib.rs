//! Materialises an in-memory 3D scene into engine-ready assets: canonical
//! RGBA8 pixel buffers, packed mesh blobs with per-submesh byte ranges, and a
//! scene graph of entities with resolved parent/child links.
//!
//! The logic is verified; the few calls into other crates stand behind
//! trusted wrappers that say what they rely on. Floating-point work (tangent
//! frames, sample quantisation) is left to the caller and enters as plain
//! values.

pub mod components;
pub mod entity;
pub mod ids;
pub mod json;
pub mod link;
pub mod material;
pub mod mesh;
pub mod pixel;
pub mod scene;
pub mod tangent;
pub mod vertex;
pub mod walk;
