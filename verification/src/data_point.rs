use crate::error::Error;
use crate::field_value::FieldValue;
use crate::line::{line_outcome, to_string, to_writer};
use crate::outcome::{delivers, Outcome};
use crate::sink::Sink;
use vstd::prelude::*;

verus! {

/// One point: a measurement name, tags and fields in the order in which they
/// are to appear, and a timestamp or none.
#[derive(Clone, Debug)]
pub struct DataPoint<'a> {
    pub measurement: &'a str,
    pub tag_set: Vec<(&'a str, &'a str)>,
    pub field_set: Vec<(&'a str, FieldValue<'a>)>,
    pub timestamp: Option<i64>,
}

impl<'a> DataPoint<'a> {
    /// What encoding this point amounts to.
    pub open spec fn outcome(&self) -> Outcome {
        line_outcome(
            self.measurement@,
            self.tag_set.deep_view(),
            self.field_set.deep_view(),
            self.timestamp,
        )
    }

    /// Encodes the point as a line and writes it to `writer`. The first rule
    /// that is broken ends the call with its error; what was written before
    /// stays in the sink.
    pub fn into_writer<W: Sink>(self, writer: &mut W) -> (r: Result<(), Error>)
        ensures
            delivers(*old(writer), *final(writer), r, self.outcome()),
    {
        let tag_set = self.tag_set.as_slice();
        let field_set = self.field_set.as_slice();
        proof {
            assert(tag_set.deep_view() =~= self.tag_set.deep_view());
            assert(field_set.deep_view() =~= self.field_set.deep_view());
        }
        to_writer(writer, self.measurement, tag_set, field_set, self.timestamp)
    }

    /// Encodes the point as a line, which is returned whole or not at all.
    pub fn into_string(self) -> (r: Result<String, Error>)
        ensures
            match r {
                Ok(line) => self.outcome() == Outcome::emit(line@),
                Err(e) => self.outcome().fault == Some(e),
            },
    {
        let tag_set = self.tag_set.as_slice();
        let field_set = self.field_set.as_slice();
        proof {
            assert(tag_set.deep_view() =~= self.tag_set.deep_view());
            assert(field_set.deep_view() =~= self.field_set.deep_view());
        }
        to_string(self.measurement, tag_set, field_set, self.timestamp)
    }
}

} // verus!
