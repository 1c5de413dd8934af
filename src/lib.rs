//! A local catalog of library documents: a record store with a synchronized
//! full-text projection, a reconciliation pass that repairs the store from the
//! documents found on disk, and a query engine over both.

pub mod envelope;
pub mod files;
pub mod laws;
pub mod order;
pub mod query;
pub mod record;
pub mod scan;
pub mod store;
pub mod text;

pub use envelope::{parse_envelope, DocumentEnvelope, Json};
pub use query::SearchParams;
pub use record::LibraryFile;
pub use scan::{ScanError, ScannedDocument};
pub use store::{LibraryIndex, StoreError};
