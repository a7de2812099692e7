//! A mutation-safe text index from string keys to ordered sets of
//! structured values, with approximate (edit-distance bounded) retrieval.

pub mod edit_distance;
pub mod fuzzy_index;
pub mod host_term;
pub mod resource;
pub mod supported_term;

pub use fuzzy_index::FuzzyIndex;
pub use host_term::EncodeError;
pub use host_term::HostTerm;
pub use resource::FuzzyTrieResource;
pub use resource::IndexError;
pub use supported_term::ParseSupportedError;
pub use supported_term::SupportedTerm;
