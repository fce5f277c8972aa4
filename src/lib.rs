//! A slot-based arena: values of one type are stored in a vector of slots
//! and named by small integer ids; removed slots are recycled through a
//! free list threaded through the vector.

pub mod arena;
pub mod laws;
pub mod slot;

pub use arena::{IntoIter, Iter, Reservation, VecPigeonhole};
pub use slot::Slot;
