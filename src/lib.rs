//! A consistent hash ring: resources are mapped to targets by walking an
//! ordered ring of hashed replica positions.
pub mod hashing;
pub mod laws;
pub mod model;
pub mod ring;
pub mod sequences;
pub mod text;

pub use hashing::{hash, Hasher, HasherView, Position};
pub use model::RingView;
pub use ring::{Flexihash, FlexihashError, Target};
