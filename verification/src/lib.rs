//! A local-first index cache with usage-based re-ranking for interactive
//! launcher search plugins. A background refresher fetches items from a slow
//! source and replaces file-backed snapshots; queries answer from the latest
//! readable snapshot, filtering by keywords, ordering by recency, and
//! promoting recently used items from a compacted access log. Everything that
//! decides, parses, encodes, or orders is verified; file, process, and
//! network edges stay with the caller.

pub mod cache;
pub mod client;
pub mod codec;
pub mod error;
pub mod html;
pub mod item;
pub mod logseq;
pub mod num;
pub mod query;
pub mod raindrop;
pub mod raindrop_snapshot;
pub mod refresh;
pub mod scores;
pub mod text;
pub mod translator;
pub mod unicode_picker;
pub mod zotero;
