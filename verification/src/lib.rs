//! Format-preserving removal of dependencies from a project manifest, and the
//! decisions of the workflow that persists the edit and then reconciles the
//! environment with it.
//!
//! - `name`: package names and their normal form.
//! - `scan`, `value`, `document`: the grammar of a manifest, and reading and
//!   writing one without the loss of a byte.
//! - `model`: the document as data.
//! - `requirement`, `editor`, `request`: finding the dependencies on a package
//!   and taking them out, for one name and for several.
//! - `workflow`: the state machine of the remove workflow.
//! - `precision`, `soundness`, `reread`: the laws of removal: what it leaves
//!   alone, and that what it leaves can be read again.
//! - `locality`, `value_locality`, `line_locality`: that scanning depends on
//!   the bytes scanned alone, on which those laws rest.

pub mod bytes;
pub mod document;
pub mod editor;
pub mod line_locality;
pub mod locality;
pub mod model;
pub mod name;
pub mod precision;
pub mod request;
pub mod requirement;
pub mod reread;
pub mod scan;
pub mod soundness;
pub mod value;
pub mod value_locality;
pub mod workflow;

pub use crate::document::ParseError;
pub use crate::model::Document;
pub use crate::name::PackageName;
pub use crate::request::edit_manifest;
pub use crate::request::EditError;
