//! Encoder for the InfluxDB line protocol.
//!
//! A point (measurement name, ordered tags, ordered typed fields, optional
//! timestamp) is rendered as one escaped text line, or rejected with the
//! first rule it breaks.

pub mod data_point;
pub mod decimal;
pub mod error;
pub mod escape;
pub mod field_value;
pub mod laws;
pub mod line;
pub mod outcome;
pub mod sink;

pub use data_point::DataPoint;
pub use error::Error;
pub use escape::{check_string_length, escape};
pub use field_value::FieldValue;
pub use line::{to_string, to_writer};
pub use sink::Sink;
