pub mod petals;
pub mod renderer;
pub mod state;
