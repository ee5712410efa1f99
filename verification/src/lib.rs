//! Webnovel tracking, chapter extraction and EPUB packaging.

pub mod chikari;
pub mod config;
pub mod epub;
pub mod fetch;
pub mod freewebnovel;
pub mod job;
pub mod json;
pub mod laws;
pub mod library;
pub mod lightnovelworld;
pub mod listing;
pub mod messages;
pub mod migrate;
pub mod model;
pub mod numbers;
pub mod paths;
pub mod profiles;
pub mod refetch;
pub mod repair;
pub mod retitle;
pub mod royalroad;
pub mod schedule;
pub mod scribblehub;
pub mod scrub;
pub mod service;
pub mod site;
pub mod source;
pub mod store;
pub mod sync;
pub mod table;
pub mod text;
pub mod util;
pub mod volumes;
pub mod web;

pub use chikari::ChikariSource;
pub use config::Config;
pub use epub::{build_epub, Cover};
pub use fetch::{is_not_found, CurlFetcher, FetchConfig};
pub use freewebnovel::FreewebnovelSource;
pub use lightnovelworld::LightNovelWorldSource;
pub use migrate::{MigrationOutcome, MigrationReport};
pub use model::{Chapter, ChapterRef, DerivedState, NovelMeta, NovelStatus};
pub use paths::{epub_path, novel_dir};
pub use repair::{looks_like_gate_stub, RepairReport};
pub use royalroad::RoyalRoadSource;
pub use scribblehub::ScribbleHubSource;
pub use site::build_source;
pub use source::{GenericSource, SiteProfile};
pub use store::{Store, StoredNovel, StoredSource};
pub use sync::{SyncProgress, SyncReport};
pub use util::sanitize_filename;
