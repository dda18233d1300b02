//! Line- and byte-oriented text transformers: concatenation with numbering,
//! head limiting, adjacent-duplicate collapsing, counting, and the matching
//! rules of a file-tree filter.

pub mod cat;
pub mod find;
pub mod head;
pub mod numfmt;
pub mod text;
pub mod unicode;
pub mod uniq;
pub mod wc;
