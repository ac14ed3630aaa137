//! Retrieval of funding-rate history: decimal parsing, record
//! normalisation and the pagination state machine that drives the queries.
pub mod decimal;
pub mod fetcher;
pub mod record;
pub mod time;
