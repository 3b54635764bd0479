pub mod cache;
pub mod codec;
pub mod field;
pub mod group;
pub mod judges;
pub mod laws;
pub mod legacy;
pub mod cell;
pub mod coords;
pub mod options;
pub mod risk;
mod rng;
pub mod solver;

pub use cache::RiskCache;
pub use codec::DecodeError;
pub use field::Field;
pub use judges::Judge;
pub use cell::{Cell, CellData};
pub use coords::{adjacents, chunk_point, Coord};
pub use options::{IconSet, IconSetChoice, ThemeChoice};
pub use risk::Risk;
