//! Detects visually duplicate images in a set of directories and plans
//! their relocation into a per-directory quarantine subdirectory.
//!
//! One directory's pipeline runs Scanner, Hash Extractor, Grouper and
//! Relocator in turn: candidate files are selected by extension, each is
//! decoded and perceptually hashed, the records are bucketed by
//! fingerprint, and every member of a bucket of two or more is scheduled
//! for a move into the `duplicates` subdirectory; a name collision fails
//! that single move and nothing else. Directories are processed
//! independently and one directory's failure never touches another.

pub mod extract;
pub mod fingerprint;
pub mod group;
pub mod paths;
pub mod records;
pub mod relocate;
pub mod run;
pub mod scan;
