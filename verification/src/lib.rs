//! An object pool: a container that hands out stable, copyable handles to
//! values stored in fixed-capacity blocks, and lets any single value be freed
//! and its slot recycled without moving the storage of other live values.

mod id;
pub mod laws;
mod pool;

pub use id::IdGen;
pub use id::PoolId;
pub use pool::Pool;
pub use pool::Ptr;
pub use pool::Ref;
