//! Verified core of an L-system tree generator: the grammar that grows the
//! tree, the reading of the grown word by a 3D turtle, the index topology of
//! the tree and petal meshes, the ranking of browsing-time domains that colour
//! the leaves, and the decisions of the render loop.
pub mod data;
pub mod lsystem;
pub mod render;
pub mod text;
