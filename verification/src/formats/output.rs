//! All supported output formats.

use vstd::prelude::*;
use crate::payload::PayloadSet;
use crate::rtr::PayloadV;
use super::json;

verus! {

//------------ Format --------------------------------------------------------

/// The output format for VRPs.
#[derive(Clone, Copy, Debug, PartialEq, Eq, Structural)]
pub enum Format {
    /// The JSON format.
    Json,
}

impl Format {
    /// Returns the content type of the format.
    pub fn content_type(self) -> (res: &'static str)
        ensures
            self == Format::Json ==> res@ == "application/json"@,
    {
        match self {
            Format::Json => "application/json",
        }
    }

    /// Returns a stream of the payload set in the format.
    pub fn stream(self, set: PayloadSet) -> (res: Stream)
        requires
            set.wf(),
            json::valid_origins(set@),
        ensures
            res.wf(),
            res.remaining() == Stream::document(self, set@),
            res.remaining_chunks() == Stream::chunks(self, set@),
    {
        Stream::new(self, set)
    }
}

//------------ Stream --------------------------------------------------------

/// A stream of output in one of the formats.
pub struct Stream(StreamInner);

/// The stream of each format.
enum StreamInner {
    Json(json::OutputStream),
}

impl Stream {
    /// The stream is valid.
    pub closed spec fn wf(&self) -> bool {
        match self.0 {
            StreamInner::Json(inner) => inner.wf(),
        }
    }

    /// The bytes still to come.
    pub closed spec fn remaining(&self) -> Seq<u8> {
        match self.0 {
            StreamInner::Json(inner) => inner.remaining(),
        }
    }

    /// The pieces still to come, each as text.
    pub closed spec fn remaining_chunks(&self) -> Seq<Seq<char>> {
        match self.0 {
            StreamInner::Json(inner) => inner.remaining_chunks(),
        }
    }

    /// The pieces in which the output for a sequence of payload values in a
    /// format is handed out, each as text.
    pub open spec fn chunks(format: Format, vals: Seq<PayloadV>) -> Seq<Seq<char>> {
        match format {
            Format::Json => json::json_chunks(vals),
        }
    }

    /// The whole output for a sequence of payload values in a format.
    pub open spec fn document(format: Format, vals: Seq<PayloadV>) -> Seq<u8> {
        match format {
            Format::Json => vstd::utf8::encode_utf8(json::json_doc(vals)),
        }
    }

    fn new(format: Format, set: PayloadSet) -> (res: Stream)
        requires
            set.wf(),
            json::valid_origins(set@),
        ensures
            res.wf(),
            res.remaining() == Stream::document(format, set@),
            res.remaining_chunks() == Stream::chunks(format, set@),
    {
        Stream(
            match format {
                Format::Json => StreamInner::Json(json::OutputStream::new(set)),
            },
        )
    }

    /// Returns the next piece of output.
    pub fn next(&mut self) -> (res: Option<Vec<u8>>)
        requires
            old(self).wf(),
        ensures
            final(self).wf(),
            res is None ==> old(self).remaining().len() == 0 && final(self).remaining() == old(self).remaining(),
            res matches Some(chunk) ==> chunk@.len() > 0 && chunk@ + final(self).remaining() == old(self).remaining(),
            res is None <==> old(self).remaining_chunks().len() == 0,
            res matches Some(chunk) ==> chunk@ == vstd::utf8::encode_utf8(old(self).remaining_chunks()[0])
                && final(self).remaining_chunks() == old(self).remaining_chunks().drop_first(),
    {
        match &mut self.0 {
            StreamInner::Json(inner) => inner.next(),
        }
    }
}

} // verus!
