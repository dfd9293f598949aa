//! A reverse index over text items: a keyed map from string fragments to the
//! buffer positions of the items containing them, with pluggable indexing
//! strategies, prefix-based word completion, ranked multi-term document
//! search, and positional navigation between buffer-adjacent items.

pub mod document_reverse_index;
pub mod key_map;
pub mod reverse_index;
pub mod ri_iter;
pub mod text;
pub mod word_reverse_index;

pub use self::word_reverse_index::WordReverseIndex;
pub use self::document_reverse_index::DocumentReverseIndex;
pub use self::ri_iter::RiIter;
