//! A fixed-capacity, first-fit block allocator.
//!
//! The allocator manages a region of `L` blocks of `B` bytes each. Free space
//! is kept in a singly-linked list of chunk headers, sorted by block index and
//! fully coalesced. Every operation on the free list is verified: each public
//! function carries a contract relating the free list before and after the
//! call to an abstract sequence of free chunks.

pub mod layout;
pub mod model;
pub mod freelist;
pub mod chain;
pub mod unsafestalloc;
pub mod syncstalloc;

pub use layout::AllocError;
pub use layout::Allocator;
pub use layout::Layout;
pub use model::chunks_wf;
pub use model::free_total;
pub use freelist::Stalloc;
pub use chain::AllocChain;
pub use chain::ChainableAlloc;
pub use unsafestalloc::UnsafeStalloc;
pub use syncstalloc::StallocGuard;
pub use syncstalloc::SyncStalloc;
