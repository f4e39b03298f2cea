//! A checkout / lease / commit protocol over pools of filesystem-backed
//! work items.
//!
//! Each pool hands an item to at most one client at a time, stamps the
//! hand-out with a lease time, and mints an unguessable token that alone
//! authorizes the final disposition of the item. Expired leases are
//! reclaimed back into the pool. A registry keyed by category name owns
//! one pool per category.

pub mod assoc;
pub mod errors;
pub mod laws;
pub mod lister;
pub mod registry;

pub use errors::ListerError;
pub use lister::FileLister;
pub use registry::init_map;
pub use registry::Registry;
