//! Integer core of a small 2-D particle sandbox: the entity/component store,
//! the topology of colour strings between quarks, line rasterisation onto the
//! RGBA frame, and the fixed-step simulation clock.

pub mod clock;
pub mod ecs;
pub mod links;
pub mod raster;
