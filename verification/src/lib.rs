//! Document-index logic for a Paperless instance: the page models that the
//! REST API returns, grouping and ordering of documents by their fields, the
//! text shown in each table cell, and the walk over the API's paginated lists.

pub mod correspondents;
pub mod documents;
pub mod order;
pub mod paperless;
pub mod table;
pub mod text;
