pub mod words;
pub mod generator;
pub mod turtle3d;
