//! Tektite: verified note-vault logic — markdown metadata extraction,
//! heading-based chunking, wiki-link resolution, rename planning, search
//! ranking and vault path rules.

pub mod chunker;
pub mod commands;
pub mod embed;
pub mod fuzzy;
pub mod graph;
pub mod index;
pub mod markdown;
pub mod neighborhood;
pub mod order;
pub mod paths;
pub mod rename;
pub mod resolve;
pub mod schema;
pub mod search;
pub mod syntax;
pub mod text;
pub mod vault;
pub mod watcher;
