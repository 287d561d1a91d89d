//! Structural analysis and retrieval queries over lightweight-markup note
//! files: header extraction, outline reconstruction, complexity scoring,
//! ranking, and multi-criteria search and tag filtering.

pub mod analyse;
pub mod links;
pub mod paths;
pub mod rank;
pub mod search;
pub mod tags;
pub mod text;

pub use analyse::{
    get_headers, header_char, note_complexity, note_header_count, note_size, note_structure,
    Header, Note,
};
pub use links::broken_links;
pub use rank::{Score, ScoredNote};
pub use search::{search, MatchResult, NoteFilter};
pub use tags::{display_tags_for_each, display_untagged_files, TagQuery};
