//! A small columnar data engine: typed nullable columns (`series`), frames of
//! equal-length, uniquely named columns (`frame`), a reader for delimited
//! text (`csv`), and a deferred query plan run by an executor (`plan`). Every
//! operation is proved against a mathematical model of the data (`model`,
//! `csv_model`); `laws` and `sort_laws` state and prove properties that relate
//! several operations. `routes` holds the request rules of the small web
//! service that serves the engine's results.

pub mod error;
pub mod model;
pub mod series;
pub mod text;
pub mod frame;
pub mod csv;
pub mod csv_model;
pub mod laws;
pub mod plan;
pub mod routes;
pub mod sort_laws;
