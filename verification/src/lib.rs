pub mod backward;
pub mod graph;
pub mod laws;
pub mod order;
pub mod render;
pub mod scalar;
pub mod value;
