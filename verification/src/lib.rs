//! ALPM/RPM-style version-string decomposition and comparison.
//!
//! A full version string has the shape `[epoch:]version[-release]`.  The
//! ordering over such strings is built from a single segment comparator,
//! `vercomp`, which splits its inputs into runs of digits, letters and
//! separators and compares them run by run.

pub mod compare;
pub mod numeric;
pub mod segments;
pub mod version;

pub use compare::vercomp;
pub use segments::atend;
pub use version::Version;
pub use version::VersionComponents;
