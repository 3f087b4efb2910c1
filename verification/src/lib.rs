pub mod generation;
pub mod model;
pub mod positions;
pub mod random;
pub mod robots;
pub mod search;
pub mod simulation;
