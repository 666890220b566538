//! A forest-fire cellular automaton: trees grow and spread on a grid, catch
//! fire, burn for a while and leave empty ground behind.

pub mod cell;
pub mod drawable;
pub mod laws;
pub mod model;
pub mod random;
pub mod simulator;

pub use cell::{Pos, Size, SimConfig, TreeType};
pub use drawable::TreeDrawable;
pub use model::Forest;
pub use simulator::{PositionIndex, TreeSimulator};
