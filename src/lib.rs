//! An incremental, tri-color, mark-and-sweep garbage collector over an arena of cells.
pub mod arena;
pub mod cell;
pub mod graph;
pub mod marker;
pub mod ptr;
pub mod trace;

pub use arena::{Arena, Phase, RootGuard};
pub use cell::{CellOwner, LCell};
pub use marker::Invariant;
pub use ptr::{Gc, Status, WeakGc};
pub use trace::{Marker, Trace};
