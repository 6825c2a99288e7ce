//! A configuration-driven extraction core for scraped documents.
//!
//! The crate compiles a compact textual grammar into executable extraction
//! rules (which nodes of a document, which target - html, text, stripped text
//! or an attribute - and which multiplicity), evaluates those rules against a
//! document, and reconciles the extracted chapter/episode listings into a
//! canonical, duplicate-free numbering.

pub mod codec;
pub mod dom;
pub mod error;
pub mod field;
pub mod metadata;
pub mod postprocess;
pub mod reconcile;
pub mod searchpage;
pub mod selector;
pub mod service;
pub mod sql;
pub mod text;

pub use error::ErrorKind;
pub use error::ScrapeError;
pub use field::Field;
pub use reconcile::parse_episode;
pub use reconcile::reconcile_episodes;
pub use reconcile::Info;
pub use reconcile::Policy;
pub use selector::parse_selector;
pub use selector::SelectorNode;
pub use service::register;
pub use service::Service;
pub use text::clean_text;
