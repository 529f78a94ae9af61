pub mod math;
pub mod voxel;
pub mod chunk;
pub mod voxworld;
pub mod genesis;
pub mod faces_merger;
pub mod shaping;
pub mod light_propagator;
pub mod perf;
pub mod query;
pub mod mesh;
pub mod cache;
pub mod light_smoother;
pub mod landscape;
pub mod terraforming;
pub mod view;
