//! A fixed-size-object ("slab") allocator over a caller-supplied byte region.
//!
//! The region is split into equal slots. Free slots form a singly linked
//! list that lives in the slots themselves: the first word of a free slot
//! holds the address of the next one. Handing a slot out and taking it back
//! each touch the head of that list only.

pub mod allocator;
pub mod laws;
pub mod model;
pub mod word;

pub use allocator::{Slab, SlabAllocator};
pub use word::LINK_SIZE;
