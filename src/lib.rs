//! Geometry core of a triangle-mesh ray tracer: bounding boxes, an octree
//! over triangles, and exact ray queries against boxes, triangles and the
//! octree, on fixed-point integer coordinates.
pub mod aabb;
pub mod canvas;
pub mod entities;
pub mod geometry;
pub mod obj;
pub mod octree;
pub mod ray;
