//! A cursor over the elements of an Array frame, from which a command reads
//! its name and arguments front to back.

use vstd::prelude::*;

use crate::frame::{deep_list, Frame, FrameV};

verus! {

broadcast use crate::frame::lemma_deep_list;

/// Why a frame failed to decode into a command. Such a failure is
/// recoverable at the connection level: the reactor answers it with an Error
/// frame and keeps serving the connection.
#[derive(Clone, Copy, Debug, PartialEq, Eq, Structural)]
pub enum ParseError {
    /// The frame is not a non-null Array, so it cannot carry a command.
    NotArray,
    /// The command expects another argument and none is left.
    EndOfStream,
    /// An argument has the wrong frame type.
    WrongType,
    /// An argument that must be text is not valid UTF-8.
    NotUtf8,
    /// The leading name names no known command.
    UnknownCommand,
    /// Arguments remain after the command consumed all it expects.
    Trailing,
}

/// The raw bytes an element yields when read as an argument: the contents of
/// a non-null Bulk string or of a Simple string.
pub open spec fn bulk_bytes(v: FrameV) -> Option<Seq<u8>> {
    match v {
        FrameV::Bulk(d) => match d {
            Some(d) => Some(d),
            None => None,
        },
        FrameV::Simple(s) => Some(s),
        _ => None,
    }
}

/// A cursor over the elements of an Array frame. Elements are consumed front
/// to back; `remaining` is its model.
pub struct Parse {
    pub parts: Vec<Frame>,
}

/// Relies on `String::from_utf8`: returns the decoded text exactly on valid
/// UTF-8 input, and nothing on any other input.
#[verifier::external_body]
fn bytes_to_string(v: Vec<u8>) -> (r: Option<String>)
    ensures
        match r {
            Some(s) => vstd::utf8::valid_utf8(v@) && s@ == vstd::utf8::decode_utf8(v@),
            None => !vstd::utf8::valid_utf8(v@),
        },
{
    match String::from_utf8(v) {
        Ok(s) => Some(s),
        Err(_) => None,
    }
}

impl Parse {
    /// The elements not yet consumed.
    pub open spec fn remaining(self) -> Seq<FrameV> {
        deep_list(self.parts@)
    }

    /// Make a cursor over an Array frame's elements; any other frame cannot
    /// carry a command.
    pub fn new(frame: Frame) -> (r: Result<Parse, ParseError>)
        ensures
            match r {
                Ok(p) => frame.deep() matches FrameV::Array(Some(es)) && p.remaining() == es,
                Err(e) => e == ParseError::NotArray && !(frame.deep() matches FrameV::Array(
                    Some(_),
                )),
            },
    {
        match frame {
            Frame::Array(es) => match es {
                Some(parts) => Ok(Parse { parts }),
                None => Err(ParseError::NotArray),
            },
            _ => Err(ParseError::NotArray),
        }
    }

    /// Take the next argument as raw bytes. The element is consumed even
    /// where its type is wrong, as the cursor reads strictly forward.
    pub fn next_bytes(&mut self) -> (r: Result<Vec<u8>, ParseError>)
        ensures
            match r {
                Ok(d) => old(self).remaining().len() > 0 && bulk_bytes(old(self).remaining()[0])
                    == Some(d@) && final(self).remaining() == old(self).remaining().drop_first(),
                Err(e) => match e {
                    ParseError::EndOfStream => old(self).remaining().len() == 0 && final(self).remaining() == old(self).remaining(),
                    ParseError::WrongType => old(self).remaining().len() > 0 && bulk_bytes(
                        old(self).remaining()[0],
                    ) is None && final(self).remaining() == old(self).remaining().drop_first(),
                    _ => false,
                },
            },
    {
        if self.parts.len() == 0 {
            return Err(ParseError::EndOfStream);
        }
        let ghost before = self.parts@;
        let part = self.parts.remove(0);
        proof {
            assert(self.parts@ =~= before.drop_first());
            assert(deep_list(before).drop_first() =~= deep_list(before.drop_first()));
            assert(deep_list(before)[0] == part.deep());
        }
        match part {
            Frame::Bulk(d) => match d {
                Some(d) => Ok(d),
                None => Err(ParseError::WrongType),
            },
            Frame::Simple(s) => Ok(s),
            _ => Err(ParseError::WrongType),
        }
    }

    /// Take the next argument as text: its bytes must be valid UTF-8.
    pub fn next_string(&mut self) -> (r: Result<String, ParseError>)
        ensures
            match r {
                Ok(s) => old(self).remaining().len() > 0 && ({
                    let d = bulk_bytes(old(self).remaining()[0]);
                    d is Some && vstd::utf8::valid_utf8(d.unwrap()) && s@
                        == vstd::utf8::decode_utf8(d.unwrap())
                }) && final(self).remaining() == old(self).remaining().drop_first(),
                Err(e) => match e {
                    ParseError::EndOfStream => old(self).remaining().len() == 0 && final(self).remaining() == old(self).remaining(),
                    ParseError::WrongType => old(self).remaining().len() > 0 && bulk_bytes(
                        old(self).remaining()[0],
                    ) is None && final(self).remaining() == old(self).remaining().drop_first(),
                    ParseError::NotUtf8 => old(self).remaining().len() > 0 && ({
                        let d = bulk_bytes(old(self).remaining()[0]);
                        d is Some && !vstd::utf8::valid_utf8(d.unwrap())
                    }) && final(self).remaining() == old(self).remaining().drop_first(),
                    _ => false,
                },
            },
    {
        let d = match self.next_bytes() {
            Ok(d) => d,
            Err(e) => {
                return Err(e);
            },
        };
        match bytes_to_string(d) {
            Some(s) => Ok(s),
            None => Err(ParseError::NotUtf8),
        }
    }

    /// Confirm that every argument was consumed.
    pub fn finish(&self) -> (r: Result<(), ParseError>)
        ensures
            r is Ok <==> self.remaining().len() == 0,
            r is Err ==> r == Result::<(), ParseError>::Err(ParseError::Trailing),
    {
        if self.parts.len() == 0 {
            Ok(())
        } else {
            Err(ParseError::Trailing)
        }
    }
}

} // verus!
