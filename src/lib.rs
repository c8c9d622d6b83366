//! Session metadata store and filesystem reconciliation for a tree of
//! JSON-lines session transcripts and their satellite artifacts.

pub mod browse;
pub mod cache;
pub mod deletion;
pub mod history;
pub mod json;
pub mod layout;
pub mod order;
pub mod render;
pub mod scanner;
pub mod session;
pub mod text;

pub use cache::{Cache, CachedMetadata};
pub use history::{HistoryFilter, Rewrite};
pub use layout::{ProjectDir, Satellites};
pub use order::{Config, SortBy};
pub use session::{Session, SessionManager, TranscriptFile};
