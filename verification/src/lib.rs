//! A minimal, authorization-free cargo registry core: an on-disk index
//! model with strict uniqueness and ordering invariants, and a publish
//! pipeline that decodes the binary upload wire format, validates it,
//! computes checksums and extends the index.

pub mod errors;
pub mod index;
pub mod config;
pub mod digest;
pub mod json;
pub mod publish;
pub mod record;
pub mod response;
pub mod version;

pub use errors::RegistryError;
pub use errors::RegistryErrors;
