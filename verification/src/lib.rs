//! A deferred, key-addressable registry of spawn prototypes and the
//! breadth-first engine that materialises pending child requests.

pub mod builder;
pub mod bundle;
pub mod engine;
pub mod error;
pub mod key;
pub mod laws;
pub mod model;
pub mod prelude;
pub mod registry;
pub mod spawn;
pub mod store;
