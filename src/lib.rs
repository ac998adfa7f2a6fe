//! Geodetic transformation pipelines: the four element coordinate tuple,
//! the text form of a pipeline, the provider that holds named definitions
//! and registered operators, the recursive resolution of names into a flat
//! plan of leaf steps, and the order in which a plan runs in either
//! direction.
pub mod coordinate;
mod error;
pub mod gys;
pub mod operator;
pub mod provider;
pub mod text;

pub use coordinate::Coor4D;
pub use error::{ErrorModel, GeodesyError};
pub use gys::{value_of, GysArg, GysResource, GysStep};
pub use operator::{live_slots, settle, Direction, Leaf, Operator};
pub use provider::{Provider, SearchLevel, RECURSION_CEILING};
pub use text::chars_of;
