pub mod catalog;
pub mod commute;
pub mod doc;
pub mod engine;
pub mod error;
pub mod laws;
pub mod lines;
pub mod path;
pub mod pointer;
pub mod resolver;
pub mod responses;
pub mod sanitize;
pub mod store;
pub mod synthesis;
pub mod text;
pub mod validity;

pub use doc::Node;
pub use engine::{resolve_document, resolve_file};
pub use error::ResolveError;
pub use path::DocPath;
pub use pointer::apply_pointer;
pub use resolver::Resolver;
pub use store::FileStore;
