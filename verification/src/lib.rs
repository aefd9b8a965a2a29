//! A layout-based allocation interface over a size/alignment-based native
//! allocator service.
//!
//! The [`adapter::MiMalloc`] type translates capability-style requests
//! (allocate, allocate-zeroed, grow, grow-zeroed, shrink, deallocate) into the
//! primitives of a narrow native-service interface, modeled by
//! [`heap::Heap`]: aligned allocation, best-effort in-place expansion,
//! reallocation, and free. The adapter owns the fallback and zero-fill logic;
//! the service model is an instrumented stand-in for the native library, with
//! injectable failures so that every error path of the adapter can be
//! exercised and proved.

pub mod adapter;
pub mod heap;
pub mod layout;

pub use crate::adapter::MiMalloc;
pub use crate::heap::Heap;
pub use crate::layout::AllocError;
pub use crate::layout::Layout;
pub use crate::layout::Region;
