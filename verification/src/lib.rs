//! Dependency resolution over a catalog of Debian-style packages.
//!
//! The catalog holds, for each package, what is installed and available, a
//! checksum and the dependencies. Over it the library says whether a
//! dependency is satisfied, what a package needs in all, what has to be added
//! to install it, and whether a checksum agrees with the one that a remote
//! service holds.

pub mod debversion;
pub mod packages;
pub mod worklist;

pub use packages::Packages;
