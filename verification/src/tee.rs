//! A reader/writer pair: what one side reads, the other side records.
//! The pairing itself lives here; the byte copying is an input/output
//! concern and stays with the caller.

use vstd::prelude::*;

verus! {

/// Couples a reader with a writer so that everything read can be written
/// through to the writer.
#[derive(Debug)]
pub struct TeeReader<R, W> {
    pub reader: R,
    pub writer: W,
}

impl<R, W> TeeReader<R, W> {
    pub fn new(reader: R, writer: W) -> (r: TeeReader<R, W>)
        ensures
            r.reader == reader && r.writer == writer,
    {
        TeeReader { reader, writer }
    }

    pub fn into_reader(self) -> (r: R)
        ensures
            r == self.reader,
    {
        self.reader
    }

    pub fn into_writer(self) -> (r: W)
        ensures
            r == self.writer,
    {
        self.writer
    }

    pub fn into(self) -> (r: (R, W))
        ensures
            r.0 == self.reader && r.1 == self.writer,
    {
        (self.reader, self.writer)
    }
}

} // verus!
