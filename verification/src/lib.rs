//! Path queries over self-describing documents.
//!
//! A query such as `.items[1].wanted.x` names a place in a document. The
//! library parses queries ([`query_parser`]), executes them on documents
//! ([`JSONQuery::execute`]) and gives the value that stands at that place as
//! a `serde_json::Value`. The executor ([`query_executor`]) is a state machine
//! that a traversal drives; it enters only those parts of a document that can
//! lead to the place that the query names, and builds only the value that
//! stands there.
//!
//! ```
//! use access_json::{Document, JSONQuery};
//!
//! let data = Document::Struct(vec![
//!     ("name".to_string(), Document::Text("Buddy".to_string())),
//!     ("age".to_string(), Document::Signed(14)),
//! ]);
//! let query = JSONQuery::parse(".age").unwrap();
//! assert_eq!(query.execute(&data), Ok(Some(serde_json::Value::from(14))));
//! ```
//!
//! What a query gives is specified by [`query::execute_spec`], over the
//! traversal that [`traversal::walk`] describes; [`lookup`] proves that this
//! is the value of what stands at the path of the query.

pub mod document;
pub mod json;
pub mod lookup;
pub mod output;
pub mod query;
pub mod query_executor;
pub mod query_parser;
pub mod text;
pub mod traversal;

pub use document::Document;
pub use query::JSONQuery;
pub use query_executor::QueryExecErr;
pub use query_parser::QueryParseErr;
