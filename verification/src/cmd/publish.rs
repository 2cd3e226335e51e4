//! The PUBLISH command: posts a message to a channel.
//!
//! Channel names have no relation to the key-value namespace: publishing on
//! a channel named after a key says nothing about that key.

use vstd::prelude::*;

use crate::frame::{Frame, FrameV};
use crate::parse::{Parse, ParseError};

verus! {

/// A decoded `PUBLISH <channel> <message>`: the channel is text, the message
/// arbitrary bytes.
pub struct Publish {
    /// Name of the channel on which the message should be published.
    pub channel: String,
    /// The message to publish.
    pub message: Vec<u8>,
}

/// The wire name of the command, as the client writes it.
pub open spec fn publish_wire_name() -> Seq<u8> {
    seq![112u8, 117u8, 98u8, 108u8, 105u8, 115u8, 104u8]
}

/// The frame a PUBLISH command encodes to: an Array of three Bulk strings
/// holding the name, the channel's UTF-8 bytes, and the message.
pub open spec fn publish_frame(channel: Seq<char>, message: Seq<u8>) -> FrameV {
    FrameV::Array(
        Some(
            seq![
                FrameV::Bulk(Some(publish_wire_name())),
                FrameV::Bulk(Some(vstd::utf8::encode_utf8(channel))),
                FrameV::Bulk(Some(message)),
            ],
        ),
    )
}

impl Publish {
    /// Create a new `Publish` command which sends `message` on `channel`.
    pub fn new(channel: String, message: Vec<u8>) -> (r: Publish)
        ensures
            r.channel@ == channel@,
            r.message@ == message@,
    {
        Publish { channel, message }
    }

    /// Parse a `Publish` from the arguments left on the cursor, the command
    /// name having already been consumed: a UTF-8 channel name, then a
    /// message of arbitrary bytes.
    pub fn parse_frames(parse: &mut Parse) -> (r: Result<Publish, ParseError>)
        ensures
            match r {
                Ok(p) => crate::cmd::spec_parse_publish(old(parse).remaining()) == Ok::<
                    (Seq<char>, Seq<u8>),
                    ParseError,
                >((p.channel@, p.message@)) && final(parse).remaining() == old(parse).remaining().skip(2),
                Err(e) => crate::cmd::spec_parse_publish(old(parse).remaining()) == Err::<
                    (Seq<char>, Seq<u8>),
                    ParseError,
                >(e),
            },
    {
        let channel = match parse.next_string() {
            Ok(c) => c,
            Err(e) => {
                return Err(e);
            },
        };
        let message = match parse.next_bytes() {
            Ok(m) => m,
            Err(e) => {
                return Err(e);
            },
        };
        proof {
            assert(old(parse).remaining().drop_first().drop_first() =~= old(
                parse,
            ).remaining().skip(2));
        }
        Ok(Publish { channel, message })
    }

    /// Converts the command into an equivalent frame, as a client encodes a
    /// `Publish` to send to a server.
    pub fn into_frame(self) -> (r: Frame)
        ensures
            r.deep() == publish_frame(self.channel@, self.message@),
    {
        let ghost chan_chars = self.channel@;
        let ghost msg_bytes = self.message@;
        let name: Vec<u8> = vec![112u8, 117u8, 98u8, 108u8, 105u8, 115u8, 104u8];
        proof {
            assert(name@ =~= publish_wire_name());
        }
        let chan = self.channel.as_str().as_bytes_vec();
        let mut elems: Vec<Frame> = Vec::new();
        elems.push(Frame::Bulk(Some(name)));
        elems.push(Frame::Bulk(Some(chan)));
        elems.push(Frame::Bulk(Some(self.message)));
        let ghost ev = elems@;
        let r = Frame::Array(Some(elems));
        proof {
            crate::frame::lemma_deep_list(ev);
            assert(crate::frame::deep_list(ev) =~= publish_frame(
                chan_chars,
                msg_bytes,
            )->Array_0.unwrap());
        }
        r
    }
}

} // verus!
