//! Span decoding and trace reconstruction.
//!
//! Telemetry spans arrive either as collector export requests or as records
//! of a line-delimited file. Both are decoded into [`Span`] values, and a
//! flat collection of spans is assembled into one [`Trace`] per root span:
//! a pre-order sequence in which every span carries its depth and its
//! offset from the root's start.
//!
//! - [`wire`] holds the messages of the export protocol, [`collector`]
//!   decodes them, and [`span`] holds the decoded span.
//! - [`otel`] holds the records of the file format and turns them into spans.
//! - [`trace`] assembles spans into traces; [`tree`] and [`order`] state what
//!   holds of every assembled trace and that the order of submission does
//!   not matter.
//! - [`store`] keeps the traces that are currently known.
//! - [`endpoint`] reads the address of the ingestion endpoint and follows
//!   its life cycle; [`listing`] selects and orders the traces of a list.
//! - [`attributes`], [`text`] and [`time`] hold the mappings, texts and times
//!   that the others are made of.

pub mod attributes;
pub mod collector;
pub mod endpoint;
pub mod listing;
pub mod order;
pub mod otel;
pub mod span;
pub mod store;
pub mod text;
pub mod time;
pub mod trace;
pub mod tree;
pub mod wire;

pub use attributes::AttributeMap;
pub use span::Span;
pub use store::TraceStore;
pub use time::Timestamp;
pub use trace::{build_traces, Trace};
