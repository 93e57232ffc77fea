//! Voxel occlusion culling: spheres are rasterized into a dense occupancy grid, enclosed
//! cavities are classified as solid, and occluders are derived from the grid, as boxes
//! packed greedily along a run-length field and as planar polygons traced from slices.
pub mod grid;
pub mod atoms;
pub mod voxelize;
pub mod distance;
pub mod boxes;
pub mod classify;
pub mod simplify;
pub mod planar;
pub mod contour;
pub mod style;
