//! Logic of a Doom map editor: the map model, sector loop recovery, wall
//! quads for 3D mode, floor meshes and their rasterisation, the spatial index
//! for hit-testing, map analysis and statistics, texture batching, and the
//! editor's decisions: edits of the selection, shortcuts, pointer gestures,
//! drawing tools and pickers.

pub mod map;

pub mod analysis;
pub mod batches;
pub mod chains;
pub mod drawing;
pub mod editor;
pub mod edits;
pub mod fill;
pub mod image;
pub mod keys;
pub mod launch;
pub mod loops;
pub mod mesh;
pub mod picker;
pub mod selection;
pub mod shapes;
pub mod spatial;
pub mod stats;
pub mod view2d;
pub mod view3d;
pub mod walls;
