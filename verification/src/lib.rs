//! An associative container (`MyMap`) built on a fixed array of hash
//! buckets, and a content-addressed snapshot repository (`Repository`)
//! that stores successive versions of such a container and navigates
//! between them by content hash.

pub mod mymap;
pub mod repository;

pub use mymap::MyMap;
pub use repository::Repository;
