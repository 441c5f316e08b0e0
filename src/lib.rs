//! A fixed-point simulation of a flock of boids under fire from stationary
//! turrets: steering, edge containment, targeting, beams, damage and
//! population upkeep, all on integer coordinates.
pub mod geom;
pub mod model;
pub mod combat;
pub mod population;
pub mod flock;
pub mod world;
