//! Hierarchical cell identifiers on the sphere: a 64-bit encoding of a cube
//! face and a position along a Hilbert curve over that face, with the
//! lookup tables and integer coordinate arithmetic that convert between
//! identifiers and leaf-cell grid coordinates.
mod bits;
pub mod cell_id;
mod cell_id_proofs;
pub mod hilbert;
pub mod latlng_rect;
pub mod lookup;
pub mod vector;

pub use cell_id::S2CellId;
pub use latlng_rect::S2LatLngRect;
pub use lookup::{init_lookup_tables, LookupTables};
pub use vector::{Scalar, Vector2, Vector3};
