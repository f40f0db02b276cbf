//! Retrieval of an organization's repository listing from a cursor-paginated
//! HTTP API, modelled as a verified state machine.
//!
//! - `cursor`: the next page number read from a `link` header value, and the
//!   request path of a page.
//! - `pager`: the retriever, which decides what to fetch and hands out the
//!   kept records in order.
//! - `repo`: repository records and their output rows.
pub mod cursor;
pub mod pager;
pub mod repo;
