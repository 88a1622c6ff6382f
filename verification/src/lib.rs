//! Octree occupancy-map core: integer voxel keys, the generic octree, its
//! iterators and updates, the map-file codecs, `PointCloud2` layout
//! decoding, scan bookkeeping, and the frame graph: every part of an
//! occupancy-mapping stack that needs no floating point.

pub mod key;
pub mod node;
pub mod geometry;
pub mod pointcloud2;
pub mod tree;
pub mod io;
pub mod tf;
pub mod msg;
pub mod ray;
pub mod filter;
pub mod update;
pub mod scan;
