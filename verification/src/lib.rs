pub mod checkpoint;
pub mod connect;
pub mod export;
pub mod generation;
pub mod grid;
pub mod maze;
pub mod params;
pub mod plan;
pub mod properties;
pub mod region;
pub mod render;
pub mod rng;
pub mod types;
pub mod validation;
