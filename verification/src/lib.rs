//! Geometric descriptors of segmented cells and a k-means engine over integer
//! feature vectors, with every function proved against its contract.

pub mod features;
pub mod geometry;
pub mod hull;
pub mod kmeans;
pub mod metrics;
pub mod outlines;
pub mod pixels;
pub mod random;
pub mod raster;
pub mod vector;
pub mod voronoi;
