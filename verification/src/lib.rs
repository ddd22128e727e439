//! Price observations of French website-creation services (the Baromètre
//! des prix de création de site web en France): parsing of the dataset's
//! CSV text into records, and the queries over those records.
//!
//! - `text`: whitespace, trimming, splitting, joining, lines and the order of
//!   strings, each against a specification over character sequences.
//! - `record`: the record type, the parsing of one CSV line and of a whole
//!   dataset.
//! - `query`: selection by category or provider type, and the sorted,
//!   duplicate-free lists of categories and provider types.

pub mod category;
pub mod provider_type;
pub mod query;
pub mod record;
pub mod text;

pub use query::{by_category, by_provider_type, categories, provider_types};
pub use record::{all, parse_row, PriceRecord};
