//! A dynamic probabilistic roadmap (PRM) for 2D motion planning.
//!
//! The engine samples a fixed set of vertices over a rectangle, connects
//! nearby vertices with candidate edges (the PRM* radius rule), and keeps a
//! free/blocked partition of those edges consistent under a stream of
//! axis-aligned rectangular obstacle insertions and removals.  Shortest-path
//! queries run over an incrementally maintained adjacency cache.
//!
//! Coordinates are fixed-point integers: one world unit is `MILLI` (1000)
//! coordinate steps.  All geometry is exact integer arithmetic.

pub mod astar;
pub mod codec;
pub mod config;
pub mod dprm;
pub mod geometry;
pub mod laws;
pub mod neighbors;
pub mod obstacles;
pub mod roadmap;
pub mod sampler;

pub use astar::Astar;
pub use astar::AstarPath;
pub use astar::DPrmPath;
pub use config::PrmConfig;
pub use dprm::DPrm;
pub use dprm::PrmError;
pub use geometry::Point;
pub use geometry::Rect;
pub use neighbors::Neighbors;
pub use obstacles::Obstacle;
pub use obstacles::ObstacleId;
pub use obstacles::ObstacleSet;
pub use roadmap::Distance;
pub use roadmap::Edge;
pub use roadmap::EdgeIndex;
pub use roadmap::Vertex;
pub use roadmap::VertexIndex;
