//! The command model: decoding a complete frame into one of a closed set of
//! command variants, and encoding a command back into its frame.

use vstd::prelude::*;

use crate::frame::{Frame, FrameV};
use crate::parse::{bulk_bytes, Parse, ParseError};

pub mod publish;

use publish::Publish;

verus! {

/// ASCII upper-casing of one byte, for case-insensitive command names.
pub open spec fn ascii_upper(b: u8) -> u8 {
    if 97 <= b <= 122 {
        (b - 32) as u8
    } else {
        b
    }
}

/// The bytes name the PUBLISH command, compared without regard to ASCII case.
pub open spec fn publish_name(s: Seq<u8>) -> bool {
    s.len() == 7 && ascii_upper(s[0]) == 80 && ascii_upper(s[1]) == 85 && ascii_upper(s[2]) == 66
        && ascii_upper(s[3]) == 76 && ascii_upper(s[4]) == 73 && ascii_upper(s[5]) == 83
        && ascii_upper(s[6]) == 72
}

fn byte_eq_upper(b: u8, u: u8) -> (r: bool)
    ensures
        r == (ascii_upper(b) == u),
{
    let up = if 97 <= b && b <= 122 {
        b - 32
    } else {
        b
    };
    up == u
}

/// Do the bytes spell PUBLISH, in either case?
fn is_publish_name(name: &Vec<u8>) -> (r: bool)
    ensures
        r == publish_name(name@),
{
    if name.len() != 7 {
        return false;
    }
    byte_eq_upper(name[0], 80) && byte_eq_upper(name[1], 85) && byte_eq_upper(name[2], 66)
        && byte_eq_upper(name[3], 76) && byte_eq_upper(name[4], 73) && byte_eq_upper(name[5], 83)
        && byte_eq_upper(name[6], 72)
}

/// The closed set of commands this core decodes.
pub enum Command {
    Publish(Publish),
}

/// What decoding the arguments of a PUBLISH (after its name) yields: the
/// channel text and the message bytes, or the first failure met reading the
/// channel then the message.
pub open spec fn spec_parse_publish(args: Seq<FrameV>) -> Result<(Seq<char>, Seq<u8>), ParseError> {
    if args.len() == 0 {
        Err(ParseError::EndOfStream)
    } else {
        match bulk_bytes(args[0]) {
            None => Err(ParseError::WrongType),
            Some(ch) => {
                if !vstd::utf8::valid_utf8(ch) {
                    Err(ParseError::NotUtf8)
                } else if args.len() == 1 {
                    Err(ParseError::EndOfStream)
                } else {
                    match bulk_bytes(args[1]) {
                        None => Err(ParseError::WrongType),
                        Some(msg) => Ok((vstd::utf8::decode_utf8(ch), msg)),
                    }
                }
            },
        }
    }
}

/// What decoding a whole frame yields: a non-null Array whose first element
/// names PUBLISH, then exactly the command's arguments.
pub open spec fn spec_from_frame(f: FrameV) -> Result<(Seq<char>, Seq<u8>), ParseError> {
    match f {
        FrameV::Array(oes) => match oes {
            Some(es) => {
                if es.len() == 0 {
                    Err(ParseError::EndOfStream)
                } else {
                    match bulk_bytes(es[0]) {
                        None => Err(ParseError::WrongType),
                        Some(name) => {
                            if !publish_name(name) {
                                Err(ParseError::UnknownCommand)
                            } else {
                                match spec_parse_publish(es.drop_first()) {
                                    Ok(cm) => {
                                        if es.len() == 3 {
                                            Ok(cm)
                                        } else {
                                            Err(ParseError::Trailing)
                                        }
                                    },
                                    Err(e) => Err(e),
                                }
                            }
                        },
                    }
                }
            },
            None => Err(ParseError::NotArray),
        },
        _ => Err(ParseError::NotArray),
    }
}

impl Command {
    /// Decode a complete frame into a command: an Array of Bulk strings, the
    /// first element the command name, then that command's arguments, and
    /// nothing after them.
    pub fn from_frame(frame: Frame) -> (r: Result<Command, ParseError>)
        ensures
            match r {
                Ok(c) => match c {
                    Command::Publish(p) => spec_from_frame(frame.deep()) == Ok::<
                        (Seq<char>, Seq<u8>),
                        ParseError,
                    >((p.channel@, p.message@)),
                },
                Err(e) => spec_from_frame(frame.deep()) == Err::<
                    (Seq<char>, Seq<u8>),
                    ParseError,
                >(e),
            },
    {
        let mut parse = match Parse::new(frame) {
            Ok(p) => p,
            Err(e) => {
                return Err(e);
            },
        };
        let name = match parse.next_bytes() {
            Ok(n) => n,
            Err(e) => {
                return Err(e);
            },
        };
        if !is_publish_name(&name) {
            return Err(ParseError::UnknownCommand);
        }
        let p = match Publish::parse_frames(&mut parse) {
            Ok(p) => p,
            Err(e) => {
                return Err(e);
            },
        };
        match parse.finish() {
            Ok(_) => Ok(Command::Publish(p)),
            Err(e) => Err(e),
        }
    }
}


/// Split-read accumulation: the encoded bytes of one PUBLISH frame, cut at
/// any offset (mid-Bulk-string included), scan as incomplete on the first
/// part alone, so the reactor keeps the bytes and reads on; once whole, they
/// scan as exactly that frame, which decodes to exactly the original channel
/// and message. Neither a Malformed nor an Incomplete outcome can reach the
/// client for such a stream.
pub proof fn lemma_split_read_accumulation(channel: Seq<char>, message: Seq<u8>, cut: nat)
    requires
        vstd::utf8::encode_utf8(channel).len() <= u64::MAX,
        message.len() <= u64::MAX,
        cut < crate::frame::frame_enc(crate::cmd::publish::publish_frame(channel, message)).len(),
    ensures
        crate::frame::scan(
            crate::frame::frame_enc(crate::cmd::publish::publish_frame(channel, message)).take(
                cut as int,
            ),
            0,
        ) == crate::frame::Scan::Partial,
        crate::frame::scan(
            crate::frame::frame_enc(crate::cmd::publish::publish_frame(channel, message)),
            0,
        ) == crate::frame::Scan::Found(
            crate::cmd::publish::publish_frame(channel, message),
            crate::frame::frame_enc(crate::cmd::publish::publish_frame(channel, message)).len(),
        ),
        spec_from_frame(crate::cmd::publish::publish_frame(channel, message)) == Ok::<
            (Seq<char>, Seq<u8>),
            ParseError,
        >((channel, message)),
{
    vstd::utf8::encode_utf8_valid_utf8(channel);
    vstd::utf8::encode_utf8_decode_utf8(channel);
    let pf = crate::cmd::publish::publish_frame(channel, message);
    let es = pf->Array_0.unwrap();
    assert(crate::frame::frame_wf(pf)) by {
        assert(es.len() == 3);
        assert(crate::frame::frame_wf(es[0]));
        assert(crate::frame::frame_wf(es[1]));
        assert(crate::frame::frame_wf(es[2]));
    }
    crate::frame::lemma_prefix_incomplete(pf, cut);
    crate::frame::lemma_round_trip(pf, Seq::empty());
    assert(crate::frame::frame_enc(pf) + Seq::<u8>::empty() =~= crate::frame::frame_enc(pf));
    let name = crate::cmd::publish::publish_wire_name();
    assert(bulk_bytes(es[0]) == Some(name));
    assert(publish_name(name));
    let args = es.drop_first();
    assert(args.len() == 2);
    assert(args[0] == es[1] && args[1] == es[2]);
    assert(bulk_bytes(args[0]) == Some(vstd::utf8::encode_utf8(channel)));
    assert(bulk_bytes(args[1]) == Some(message));
    assert(spec_parse_publish(args) == Ok::<(Seq<char>, Seq<u8>), ParseError>((channel, message)));
}

} // verus!
