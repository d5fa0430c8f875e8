use vstd::prelude::*;
use crate::error::IoError;

verus! {

/// One call to the peer, as the caller saw it.
pub enum Transfer {
    /// The frame was handed to `write`, which returned the result.
    Wrote(Seq<u8>, Result<usize, IoError>),
    /// `read` returned the result and left the frame in the buffer.
    Read(Result<usize, IoError>, Seq<u8>),
}

/// A peer whose calls are on record, for the contracts of the code that drives it.
pub trait Transcript {
    /// Every call made on this peer so far, oldest first: the ghost record that `read` and
    /// `write` extend. An implementation is meant to stand for the record of its own calls;
    /// the body here only lets implementations outside the verified library compile without
    /// one. An implementation whose history really were this empty default could not meet
    /// the contracts of `read` and `write`, so such an implementation is trusted to record
    /// each call as those contracts say.
    closed spec fn history(&self) -> Seq<Transfer> {
        Seq::empty()
    }
}

/// Devices implement their own forms of reading and writing.
pub trait ReaderWriter: Writer + Reader {
}

/// Writes one frame to the endpoint named `s`; the call goes on record.
pub trait Writer: Transcript {
    fn write(&mut self, s: &str, bytes: &[u8]) -> (r: Result<usize, IoError>)
        ensures
            final(self).history() == old(self).history().push(Transfer::Wrote(bytes@, r));
}

/// Reads one frame from the endpoint named `s` into `bytes`; the call goes on record.
pub trait Reader: Transcript {
    fn read(&mut self, s: &str, bytes: &mut [u8]) -> (r: Result<usize, IoError>)
        ensures
            final(bytes)@.len() == old(bytes)@.len(),
            final(self).history() == old(self).history().push(Transfer::Read(r, final(bytes)@));
}

} // verus!
