//! A byte allocator over donated address ranges: a best-fit, splitting and
//! coalescing free list, fronted by one-shot size-class pools.
pub mod arith;
pub mod block;
pub mod heap;
pub mod laws;
pub mod lemmas;
pub mod model;
pub mod pool;

pub use block::{Block, BlockState, HEADER_ALIGN, HEADER_SIZE};
pub use heap::LabByteAllocator;
pub use model::{AllocError, DeallocFault};
pub use pool::{POOL_ARENA_ALIGN, POOL_ARENA_BYTES, POOL_CLASSES};
pub use arith::is_power_of_two;
