//! Request fuzzing with payload spans, percent-encoding and clustering of
//! responses.

pub mod baseline;
pub mod cli;
pub mod clustering;
pub mod encoding;
pub mod exchange;
pub mod families;
pub mod feature_rows;
pub mod fuzzing;
pub mod grouping;
pub mod http_client;
pub mod independence;
pub mod logging;
pub mod marker;
pub mod numbers;
pub mod observations;
pub mod positions;
pub mod ranking;
pub mod reporting;
pub mod spans_in_text;
pub mod status;
pub mod text;
pub mod wordlist;
