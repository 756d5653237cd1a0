//! Cluster metadata coordination layer: a key-value contract over a
//! distributed coordination backend, with versioned keys, paginated
//! enumeration, a distributed lock primitive, lease keep-alive, and
//! change-watch event classification.

pub mod auth;
pub mod errors;
pub mod etcd;
pub mod keys;
pub mod laws;
pub mod lease;
pub mod lock;
pub mod num;
pub mod org;
pub mod sql;
pub mod store;
pub mod txn;
