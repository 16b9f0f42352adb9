//! Storage of droplets on disk: the names of the files and the counters of
//! the store.
pub mod file_storage;
