use crate::engines::kvs::naming::push_decimal;
use vstd::prelude::*;
use vstd::string::StringExecFns;

verus! {

/// Error type for `kvs`.
#[derive(Debug)]
pub enum Error {
    /// A segment that a locator names is not in the directory.
    MissingSegment(u64),
    /// The segment cannot be written to: a segment with a greater id exists.
    SealedSegment(u64),
    /// Record bytes end before the record does, or a text field is not UTF-8.
    CorruptLog,
    /// A stored value is not UTF-8.
    Utf8,
    /// `remove` of a key that has no entry.
    NonexistentKey,
    /// No further segment id can be allotted.
    SegmentIdOverflow,
    /// The directory was written by another engine.
    EngineMismatch,
    /// From sled, in sled's words.
    Sled(String),
}

impl Error {
    /// The error in words.
    pub fn message(&self) -> (text: String)
        ensures
            self is MissingSegment ==> text@ == "no segment data-"@ + crate::engines::kvs::naming::decimal(
                self->MissingSegment_0 as nat,
            ),
            self is SealedSegment ==> text@ == "sealed segment data-"@
                + crate::engines::kvs::naming::decimal(self->SealedSegment_0 as nat),
            self is CorruptLog ==> text@ == "corrupt log"@,
            self is Utf8 ==> text@ == "value is not UTF-8"@,
            self is NonexistentKey ==> text@ == "No such a key"@,
            self is SegmentIdOverflow ==> text@ == "no segment id left"@,
            self is EngineMismatch ==> text@ == "data was written by another engine"@,
            self is Sled ==> text@ == self->Sled_0@,
    {
        match self {
            Error::MissingSegment(id) => {
                let mut text = String::from_str("no segment data-");
                push_decimal(&mut text, *id);
                text
            },
            Error::SealedSegment(id) => {
                let mut text = String::from_str("sealed segment data-");
                push_decimal(&mut text, *id);
                text
            },
            Error::CorruptLog => String::from_str("corrupt log"),
            Error::Utf8 => String::from_str("value is not UTF-8"),
            Error::NonexistentKey => String::from_str("No such a key"),
            Error::SegmentIdOverflow => String::from_str("no segment id left"),
            Error::EngineMismatch => String::from_str("data was written by another engine"),
            Error::Sled(text) => text.clone(),
        }
    }
}

} // verus!
