//! The boundary between accumulated connection bytes and the frame codec:
//! attempt to extract one complete frame, distinguishing "wait for more
//! bytes" from "the stream is malformed".

use vstd::prelude::*;

use crate::frame::{scan, Frame, FrameError, Scan};
use crate::Error;

verus! {

/// Try to read one complete frame from the start of the accumulated buffer.
///
/// `Ok(Some(f))` where a complete well-formed frame is present (`f` is it);
/// `Ok(None)` where the bytes so far are a prefix of some frame, so the
/// caller must keep them and read more; `Err(Malformed)` where the bytes
/// violate the frame grammar, so the caller must close the connection.
pub fn parse_frame(buffer: &Vec<u8>) -> (r: Result<Option<Frame>, Error>)
    ensures
        match r {
            Ok(of) => match of {
                Some(f) => scan(buffer@, 0) matches Scan::Found(fv, used) && f.deep() == fv,
                None => scan(buffer@, 0) is Partial,
            },
            Err(e) => e == Error::Malformed && scan(buffer@, 0) is Bad,
        },
{
    match Frame::check(buffer, 0) {
        Ok(_) => {
            let (f, _) = Frame::parse(buffer, 0);
            Ok(Some(f))
        },
        Err(e) => match e {
            FrameError::Incomplete => Ok(None),
            FrameError::Malformed => Err(Error::Malformed),
        },
    }
}

} // verus!
