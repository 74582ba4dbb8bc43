//! Codec and extraction engine for the GMA addon container format.
//!
//! A container bundles a tree of files plus metadata into one file,
//! optionally LZMA-compressed.  This crate parses the header and entry
//! table, resolves the byte offset of each packed entry, plans
//! whitelist-filtered extraction, and serializes a directory of files
//! plus metadata back into a container.

pub mod bytes;
pub mod destination;
pub mod entries;
pub mod metadata;
pub mod name;
pub mod publishing;
pub mod whitelist;
pub mod write;
pub mod error;
pub mod extract;
pub mod gma_file;
pub mod header;
pub mod lzma;

pub use destination::{DirProviders, ExtractDestination};
pub use entries::GMAEntry;
pub use error::GMAError;
pub use extract::{ExtractAction, ExtractProgress};
pub use gma_file::{GMAEntriesMap, GMAFile, GMAFilePointers};
pub use metadata::GMAMetadata;
pub use publishing::{CandidateFile, ContentPath, IconFormat, PublishError, WorkshopIcon};
pub use write::FileInput;
