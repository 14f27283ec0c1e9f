//! Content-addressed change detection for live configuration sources.
//!
//! Configuration documents arrive from a watched directory tree, a Kubernetes
//! ConfigMap or an MQTT topic tree.  Each source adapter keeps a private table
//! of content hashes and turns raw notifications into a deduplicated stream of
//! document events; the item watcher then tokenizes each document and diffs it
//! at the granularity of individual configuration records.
//!
//! This crate holds the verified core of the pipeline: the hash tables, the
//! diffing rules, the filesystem event classification, the tokenizers, and the
//! lifecycle state machine.  The asynchronous glue that feeds the core from
//! the real backends lives outside it.

pub mod backend;
pub mod config_item_watcher;
pub mod text;
pub mod watcher;

pub use watcher::hash_of;
pub use watcher::hash_str;
pub use watcher::JsonTokenizer;
pub use watcher::Tokenizer;
pub use watcher::YamlTokenizer;
