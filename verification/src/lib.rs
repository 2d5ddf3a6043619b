//! Event store for a content-driven meal-plan calendar.
//!
//! Documents with a front-matter header are parsed into typed event records,
//! a directory scan turns a batch of documents into the record set of one
//! snapshot generation, and the snapshot store serves point and range queries
//! over the latest snapshot.  A failed scan is all-or-nothing: nothing of it
//! is published, and the previous snapshot stays.

pub mod date;
pub mod document;
pub mod header;
pub mod ids;
pub mod models;
pub mod scan;
pub mod store;
mod text;

pub use date::Date;
pub use header::ParseError;
pub use models::{Event, EventOverview, Image, Metadata, RawEvent, RawImage, Recipe};
pub use scan::{fetch_events, FileEntry, ScanError};
pub use store::{clock_date, current_date, get_upcoming_events, EventStore, UpcomingEventsOverview};
