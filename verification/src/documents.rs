//! The document models, shared with [`crate::paperless::documents`].

pub use crate::paperless::documents::{Document, Documents};
