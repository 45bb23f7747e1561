//! A catalog of report templates and tags.
//!
//! The crate keeps two tables of flat rows, one of templates and one of
//! tags, and offers insert-or-replace, lookup, ordered listing, pattern
//! search, per-category counts and favorite toggling on them. Nested fields
//! of a template (its sections and its tag references) are held in the rows
//! as compact JSON text; [`codec`] writes and reads that text.
//!
//! Every executable function carries a contract over the mathematical views
//! defined in [`record`], and the laws that relate several operations are
//! proved in [`laws`].

pub mod text;
pub mod record;
pub mod error;
pub mod literal;
pub mod codec;
pub mod pattern;
pub mod table;
pub mod store;
pub mod laws;
pub mod handle;

pub use error::StoreError;
pub use handle::StoreHandle;
pub use record::{Tag, Template, TemplateRow, TemplateSection};
pub use store::DatabaseManager;
