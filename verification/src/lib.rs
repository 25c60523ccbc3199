//! Discovery stage for a multi-stage kernel build: classifies source files by
//! compilation role, indexes them by folder, and resolves named build subtrees
//! to the source files and linker script each subtree owns.

pub mod directory_manager;
pub mod file_organizer;
pub mod grouping;
pub mod paths;
pub mod subtree_resolver;
