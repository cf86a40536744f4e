//! Verified core of an HTTP request tracer: argument parsing, curl output
//! splitting, JSON pretty-printing and colouring, and the report layout.
pub mod args;
pub mod color;
pub mod curl;
pub mod json;
pub mod report;
pub mod text;
