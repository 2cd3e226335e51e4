//! The wire-protocol frame codec: a two-phase (validate-then-parse) decoder
//! over an immutable byte slice, and a single-pass encoder.
//!
//! Every byte-level fact is stated against one spec-level scanner, `scan`,
//! which walks a byte sequence and either finds a complete well-formed frame
//! (with the exact number of bytes it occupies), reports that more bytes are
//! needed, or reports a structural violation that no further bytes can mend.

use vstd::prelude::*;

verus! {

broadcast use {
    vstd::seq::axiom_seq_index_decreases,
    vstd::seq::axiom_seq_subrange_decreases,
    vstd::std_specs::vec::axiom_vec_index_decreases,
    vstd::std_specs::vec::axiom_vec_decreases_to_view,
};

pub const CR: u8 = 13;
pub const LF: u8 = 10;
/// Type tag of a Simple string frame: `+`.
pub const TAG_SIMPLE: u8 = 43;
/// Type tag of an Error string frame: `-`.
pub const TAG_ERROR: u8 = 45;
/// Type tag of an Integer frame: `:`.
pub const TAG_INTEGER: u8 = 58;
/// Type tag of a Bulk string frame: `$`.
pub const TAG_BULK: u8 = 36;
/// Type tag of an Array frame: `*`.
pub const TAG_ARRAY: u8 = 42;
/// ASCII minus sign.
pub const MINUS: u8 = 45;
/// ASCII digit zero.
pub const D0: u8 = 48;
/// ASCII digit one.
pub const D1: u8 = 49;
/// ASCII digit nine.
pub const D9: u8 = 57;

/// One complete, self-delimiting unit of the wire protocol.
///
/// A Bulk string or an Array may be null (absent), encoded with length `-1`.
pub enum Frame {
    Simple(Vec<u8>),
    Error(Vec<u8>),
    Integer(i64),
    Bulk(Option<Vec<u8>>),
    Array(Option<Vec<Frame>>),
}

/// The mathematical model of a [`Frame`]: byte sequences in place of vectors.
pub enum FrameV {
    Simple(Seq<u8>),
    Error(Seq<u8>),
    Integer(i64),
    Bulk(Option<Seq<u8>>),
    Array(Option<Seq<FrameV>>),
}

impl Frame {
    /// The model value of this frame.
    pub open spec fn deep(self) -> FrameV
        decreases self,
    {
        match self {
            Frame::Simple(s) => FrameV::Simple(s@),
            Frame::Error(s) => FrameV::Error(s@),
            Frame::Integer(n) => FrameV::Integer(n),
            Frame::Bulk(d) => FrameV::Bulk(match d {
                Some(d) => Some(d@),
                None => None,
            }),
            Frame::Array(es) => FrameV::Array(match es {
                Some(es) => Some(deep_list(es@)),
                None => None,
            }),
        }
    }
}

/// The model values of a sequence of frames, elementwise.
pub open spec fn deep_list(es: Seq<Frame>) -> Seq<FrameV>
    decreases es,
{
    if es.len() == 0 {
        Seq::empty()
    } else {
        seq![es[0].deep()] + deep_list(es.drop_first())
    }
}

/// `deep_list` is the elementwise model: it keeps the length and models each
/// element in place.
pub broadcast proof fn lemma_deep_list(es: Seq<Frame>)
    ensures
        (#[trigger] deep_list(es)).len() == es.len(),
        forall|i: int| 0 <= i < es.len() ==> deep_list(es)[i] == es[i].deep(),
    decreases es,
{
    if es.len() > 0 {
        lemma_deep_list(es.drop_first());
    }
}

/// The two non-success outcomes of frame validation: insufficient bytes so
/// far, versus a structural violation that more bytes can never fix.
#[derive(Clone, Copy, Debug, PartialEq, Eq, Structural)]
pub enum FrameError {
    Incomplete,
    Malformed,
}

/// No carriage return or line feed: the content of a Simple or Error string
/// must not contain its own terminator.
pub open spec fn line_ok(s: Seq<u8>) -> bool {
    forall|i: int| 0 <= i < s.len() ==> s[i] != CR && s[i] != LF
}

/// A frame that the encoder maps to a decodable byte string: line contents
/// carry no terminator bytes, and declared lengths fit the length prefix.
pub open spec fn frame_wf(f: FrameV) -> bool
    decreases f,
{
    match f {
        FrameV::Simple(s) => line_ok(s),
        FrameV::Error(s) => line_ok(s),
        FrameV::Integer(_) => true,
        FrameV::Bulk(d) => match d {
            Some(d) => d.len() <= u64::MAX,
            None => true,
        },
        FrameV::Array(es) => match es {
            Some(es) => es.len() <= u64::MAX
                && forall|i: int| 0 <= i < es.len() ==> frame_wf(#[trigger] es[i]),
            None => true,
        },
    }
}

/// The terminator of every line of the protocol.
pub open spec fn crlf() -> Seq<u8> {
    seq![CR, LF]
}

/// ASCII decimal representation of a non-negative number, no leading zeros
/// (`0` itself is the single digit `0`).
pub open spec fn digits_rep(n: nat) -> Seq<u8>
    decreases n,
{
    if n < 10 {
        seq![(D0 + n) as u8]
    } else {
        digits_rep(n / 10).push((D0 + n % 10) as u8)
    }
}

/// ASCII decimal representation of a signed number.
pub open spec fn int_rep(n: int) -> Seq<u8> {
    if n < 0 {
        seq![MINUS] + digits_rep((-n) as nat)
    } else {
        digits_rep(n as nat)
    }
}

/// The length line body that denotes an absent Bulk string or Array: `-1`.
pub open spec fn null_rep() -> Seq<u8> {
    seq![MINUS, D1]
}

/// The canonical wire representation of a frame.
pub open spec fn frame_enc(f: FrameV) -> Seq<u8>
    decreases f,
{
    match f {
        FrameV::Simple(s) => seq![TAG_SIMPLE] + s + crlf(),
        FrameV::Error(s) => seq![TAG_ERROR] + s + crlf(),
        FrameV::Integer(n) => seq![TAG_INTEGER] + int_rep(n as int) + crlf(),
        FrameV::Bulk(d) => match d {
            Some(d) => seq![TAG_BULK] + digits_rep(d.len()) + crlf() + d + crlf(),
            None => seq![TAG_BULK] + null_rep() + crlf(),
        },
        FrameV::Array(es) => match es {
            Some(es) => seq![TAG_ARRAY] + digits_rep(es.len()) + crlf() + list_enc(es),
            None => seq![TAG_ARRAY] + null_rep() + crlf(),
        },
    }
}

/// The concatenated encodings of a sequence of frames, in order.
pub open spec fn list_enc(es: Seq<FrameV>) -> Seq<u8>
    decreases es,
{
    if es.len() == 0 {
        Seq::empty()
    } else {
        frame_enc(es[0]) + list_enc(es.drop_first())
    }
}

/// Bytes of `b` that remain at or after `pos`.
pub open spec fn rem(b: Seq<u8>, pos: nat) -> nat {
    if pos <= b.len() {
        (b.len() - pos) as nat
    } else {
        0
    }
}

/// Offset from `pos` of the first CRLF pair that lies wholly inside `b`,
/// if there is one.
pub open spec fn crlf_at(b: Seq<u8>, pos: nat) -> Option<nat>
    decreases rem(b, pos),
{
    if pos + 2 > b.len() {
        None
    } else if b[pos as int] == CR && b[pos as int + 1] == LF {
        Some(0)
    } else {
        match crlf_at(b, (pos + 1) as nat) {
            Some(k) => Some((k + 1) as nat),
            None => None,
        }
    }
}

/// Where `crlf_at` finds a terminator, the terminator is really there, wholly
/// inside the bytes, and it is the first one.
pub proof fn lemma_crlf_at_some(b: Seq<u8>, pos: nat)
    requires
        crlf_at(b, pos) is Some,
    ensures
        pos + crlf_at(b, pos).unwrap() + 2 <= b.len(),
        b[pos as int + crlf_at(b, pos).unwrap()] == CR,
        b[pos as int + crlf_at(b, pos).unwrap() + 1] == LF,
        forall|j: int|
            pos <= j < pos + crlf_at(b, pos).unwrap() ==> !(#[trigger] b[j] == CR && b[j + 1] == LF),
    decreases rem(b, pos),
{
    if pos + 2 > b.len() {
    } else if b[pos as int] == CR && b[pos as int + 1] == LF {
    } else {
        lemma_crlf_at_some(b, (pos + 1) as nat);
    }
}

/// An ASCII decimal digit.
pub open spec fn is_digit(c: u8) -> bool {
    D0 <= c <= D9
}

/// A run of ASCII decimal digits.
pub open spec fn all_digits(s: Seq<u8>) -> bool {
    forall|i: int| 0 <= i < s.len() ==> is_digit(#[trigger] s[i])
}

/// The number that a run of decimal digits denotes.
pub open spec fn digits_val(s: Seq<u8>) -> int
    decreases s.len(),
{
    if s.len() == 0 {
        0
    } else {
        digits_val(s.drop_last()) * 10 + (s.last() - D0)
    }
}

/// The value of the body of an Integer line: an optional minus sign, then at
/// least one digit, the whole in the range of a 64-bit signed integer.
pub open spec fn int_line_val(s: Seq<u8>) -> Option<int> {
    if s.len() >= 2 && s[0] == MINUS && all_digits(s.skip(1)) {
        if -digits_val(s.skip(1)) >= i64::MIN {
            Some(-digits_val(s.skip(1)))
        } else {
            None
        }
    } else if s.len() >= 1 && all_digits(s) {
        if digits_val(s) <= i64::MAX {
            Some(digits_val(s))
        } else {
            None
        }
    } else {
        None
    }
}

/// The value of the body of a length line: `-1` denotes an absent value,
/// otherwise at least one digit denoting a length that fits 64 bits.
pub open spec fn len_line_val(s: Seq<u8>) -> Option<int> {
    if s.len() == 2 && s[0] == MINUS && s[1] == D1 {
        Some(-1)
    } else if s.len() >= 1 && all_digits(s) {
        if digits_val(s) <= u64::MAX {
            Some(digits_val(s))
        } else {
            None
        }
    } else {
        None
    }
}

/// The outcome of scanning one frame: a complete well-formed frame together
/// with the number of bytes it occupies, or too few bytes so far, or a
/// structural violation.
pub enum Scan {
    Found(FrameV, nat),
    Partial,
    Bad,
}

/// The outcome of scanning a run of consecutive frames.
pub enum ScanL {
    FoundL(Seq<FrameV>, nat),
    PartialL,
    BadL,
}

/// Scan one frame starting at `pos`: the single spec-level reading of the
/// wire grammar that `check`, `parse` and the encoder are all held to.
pub open spec fn scan(b: Seq<u8>, pos: nat) -> Scan
    decreases rem(b, pos), 0nat,
    via scan_dec
{
    if pos >= b.len() {
        Scan::Partial
    } else {
        let tag = b[pos as int];
        if tag == TAG_SIMPLE || tag == TAG_ERROR || tag == TAG_INTEGER {
            match crlf_at(b, (pos + 1) as nat) {
                None => Scan::Partial,
                Some(k) => {
                    let body = b.subrange(pos as int + 1, pos as int + 1 + k);
                    if tag == TAG_INTEGER {
                        match int_line_val(body) {
                            Some(v) => Scan::Found(FrameV::Integer(v as i64), (k + 3) as nat),
                            None => Scan::Bad,
                        }
                    } else if tag == TAG_SIMPLE {
                        Scan::Found(FrameV::Simple(body), (k + 3) as nat)
                    } else {
                        Scan::Found(FrameV::Error(body), (k + 3) as nat)
                    }
                },
            }
        } else if tag == TAG_BULK {
            match crlf_at(b, (pos + 1) as nat) {
                None => Scan::Partial,
                Some(k) => {
                    let body = b.subrange(pos as int + 1, pos as int + 1 + k);
                    match len_line_val(body) {
                        None => Scan::Bad,
                        Some(v) => {
                            if v == -1 {
                                Scan::Found(FrameV::Bulk(None), (k + 3) as nat)
                            } else {
                                let dstart = pos as int + k + 3;
                                if dstart + v + 2 > b.len() {
                                    Scan::Partial
                                } else if b[dstart + v] == CR && b[dstart + v + 1] == LF {
                                    Scan::Found(
                                        FrameV::Bulk(Some(b.subrange(dstart as int, dstart as int + v))),
                                        (k + 3 + v + 2) as nat,
                                    )
                                } else {
                                    Scan::Bad
                                }
                            }
                        },
                    }
                },
            }
        } else if tag == TAG_ARRAY {
            match crlf_at(b, (pos + 1) as nat) {
                None => Scan::Partial,
                Some(k) => {
                    let body = b.subrange(pos as int + 1, pos as int + 1 + k);
                    match len_line_val(body) {
                        None => Scan::Bad,
                        Some(v) => {
                            if v == -1 {
                                Scan::Found(FrameV::Array(None), (k + 3) as nat)
                            } else {
                                match scan_list(b, (pos + k + 3) as nat, v as nat) {
                                    ScanL::FoundL(es, used) => Scan::Found(
                                        FrameV::Array(Some(es)),
                                        (k + 3 + used) as nat,
                                    ),
                                    ScanL::PartialL => Scan::Partial,
                                    ScanL::BadL => Scan::Bad,
                                }
                            }
                        },
                    }
                },
            }
        } else {
            Scan::Bad
        }
    }
}

/// Scan `n` consecutive frames starting at `pos`.
pub open spec fn scan_list(b: Seq<u8>, pos: nat, n: nat) -> ScanL
    decreases rem(b, pos), n + 1,
{
    if n == 0 {
        ScanL::FoundL(Seq::empty(), 0)
    } else {
        match scan(b, pos) {
            Scan::Partial => ScanL::PartialL,
            Scan::Bad => ScanL::BadL,
            Scan::Found(f, used) => match scan_list(b, (pos + used) as nat, (n - 1) as nat) {
                ScanL::FoundL(es, used2) => ScanL::FoundL(seq![f] + es, (used + used2) as nat),
                ScanL::PartialL => ScanL::PartialL,
                ScanL::BadL => ScanL::BadL,
            },
        }
    }
}

#[via_fn]
proof fn scan_dec(b: Seq<u8>, pos: nat) {
    if pos < b.len() && crlf_at(b, (pos + 1) as nat) is Some {
        lemma_crlf_at_some(b, (pos + 1) as nat);
    }
}

/// Extending a prefix by one element appends that element's encoding.
pub proof fn lemma_list_enc_snoc(es: Seq<FrameV>, i: int)
    requires
        0 <= i < es.len(),
    ensures
        list_enc(es.take(i + 1)) == list_enc(es.take(i)) + frame_enc(es[i]),
    decreases i,
{
    if i == 0 {
        assert(es.take(1) =~= seq![es[0]]);
        assert(es.take(1).drop_first() =~= Seq::<FrameV>::empty());
        assert(es.take(0) =~= Seq::<FrameV>::empty());
        assert(list_enc(es.take(1)) =~= list_enc(es.take(0)) + frame_enc(es[0]));
    } else {
        let tl = es.drop_first();
        lemma_list_enc_snoc(tl, i - 1);
        assert(es.take(i + 1).drop_first() =~= tl.take(i));
        assert(es.take(i).drop_first() =~= tl.take(i - 1));
        assert(es.take(i + 1)[0] == es[0]);
        assert(es.take(i)[0] == es[0]);
        assert(frame_enc(es[0]) + (list_enc(tl.take(i - 1)) + frame_enc(tl[i - 1])) =~= (
        frame_enc(es[0]) + list_enc(tl.take(i - 1))) + frame_enc(tl[i - 1]));
    }
}

/// Append the decimal digits of `n` to `out`.
fn push_digits(out: &mut Vec<u8>, n: u64)
    ensures
        final(out)@ == old(out)@ + digits_rep(n as nat),
    decreases n,
{
    if n < 10 {
        out.push(D0 + n as u8);
        proof {
            assert(out@ =~= old(out)@ + digits_rep(n as nat));
        }
    } else {
        push_digits(out, n / 10);
        out.push(D0 + (n % 10) as u8);
        proof {
            assert(out@ =~= old(out)@ + digits_rep(n as nat));
        }
    }
}

/// Append the line terminator to `out`.
fn push_crlf(out: &mut Vec<u8>)
    ensures
        final(out)@ == old(out)@ + crlf(),
{
    out.push(CR);
    out.push(LF);
    proof {
        assert(out@ =~= old(out)@ + crlf());
    }
}

/// Append all of `data` to `out`.
pub fn push_bytes(out: &mut Vec<u8>, data: &Vec<u8>)
    ensures
        final(out)@ == old(out)@ + data@,
{
    let mut i: usize = 0;
    while i < data.len()
        invariant
            i <= data@.len(),
            out@ == old(out)@ + data@.take(i as int),
        decreases data@.len() - i,
    {
        out.push(data[i]);
        i = i + 1;
        proof {
            assert(data@.take(i as int) =~= data@.take(i as int - 1).push(data@[i as int - 1]));
            assert(out@ =~= old(out)@ + data@.take(i as int));
        }
    }
    proof {
        assert(data@.take(data@.len() as int) =~= data@);
    }
}

impl Frame {
    /// Serialize this frame to its canonical wire representation, appended
    /// to `out`.
    #[verifier::loop_isolation(false)]
    pub fn encode_into(&self, out: &mut Vec<u8>)
        ensures
            final(out)@ == old(out)@ + frame_enc(self.deep()),
        decreases self,
    {
        match self {
            Frame::Simple(s) => {
                out.push(TAG_SIMPLE);
                push_bytes(out, s);
                push_crlf(out);
                proof {
                    assert(out@ =~= old(out)@ + frame_enc(self.deep()));
                }
            },
            Frame::Error(s) => {
                out.push(TAG_ERROR);
                push_bytes(out, s);
                push_crlf(out);
                proof {
                    assert(out@ =~= old(out)@ + frame_enc(self.deep()));
                }
            },
            Frame::Integer(n) => {
                out.push(TAG_INTEGER);
                if *n < 0 {
                    out.push(MINUS);
                    let mag: u64 = ((-(*n + 1)) as u64) + 1;
                    proof {
                        assert(mag == -(*n as int));
                    }
                    push_digits(out, mag);
                } else {
                    push_digits(out, *n as u64);
                }
                push_crlf(out);
                proof {
                    assert(out@ =~= old(out)@ + frame_enc(self.deep()));
                }
            },
            Frame::Bulk(d) => {
                out.push(TAG_BULK);
                match d {
                    Some(d) => {
                        push_digits(out, d.len() as u64);
                        push_crlf(out);
                        push_bytes(out, d);
                        push_crlf(out);
                    },
                    None => {
                        out.push(MINUS);
                        out.push(D1);
                        push_crlf(out);
                    },
                }
                proof {
                    assert(out@ =~= old(out)@ + frame_enc(self.deep()));
                }
            },
            Frame::Array(es) => {
                out.push(TAG_ARRAY);
                match es {
                    Some(es) => {
                        push_digits(out, es.len() as u64);
                        push_crlf(out);
                        let ghost head = old(out)@ + seq![TAG_ARRAY] + digits_rep(
                            es@.len() as nat,
                        ) + crlf();
                        let ghost model = deep_list(es@);
                        proof {
                            lemma_deep_list(es@);
                            assert(out@ =~= head);
                            assert(model.take(0) =~= Seq::<FrameV>::empty());
                        }
                        let mut i: usize = 0;
                        while i < es.len()
                            invariant
                                i <= es@.len(),
                                model == deep_list(es@),
                                model.len() == es@.len(),
                                forall|j: int| 0 <= j < es@.len() ==> model[j] == es@[j].deep(),
                                head == old(out)@ + seq![TAG_ARRAY] + digits_rep(es@.len() as nat)
                                    + crlf(),
                                out@ == head + list_enc(model.take(i as int)),
                            decreases es@.len() - i,
                        {
                            proof {
                                assert(decreases_to!(*self => self->Array_0));
                                assert(decreases_to!(self->Array_0 => self->Array_0->0));
                                assert(decreases_to!(self->Array_0->0 => self->Array_0->0@));
                                assert(decreases_to!(self->Array_0->0@ => self->Array_0->0@[i as int]));
                                assert(self->Array_0->0@[i as int] == es@[i as int]);
                            }
                            es[i].encode_into(out);
                            i = i + 1;
                            proof {
                                lemma_list_enc_snoc(model, i as int - 1);
                            }
                        }
                        proof {
                            assert(model.take(model.len() as int) =~= model);
                            assert(out@ =~= old(out)@ + frame_enc(self.deep()));
                        }
                    },
                    None => {
                        out.push(MINUS);
                        out.push(D1);
                        push_crlf(out);
                        proof {
                            assert(out@ =~= old(out)@ + frame_enc(self.deep()));
                        }
                    },
                }
            },
        }
    }

    /// Serialize this frame to its canonical wire representation.
    pub fn encode(&self) -> (out: Vec<u8>)
        ensures
            out@ == frame_enc(self.deep()),
    {
        let mut out: Vec<u8> = Vec::new();
        self.encode_into(&mut out);
        proof {
            assert(out@ =~= frame_enc(self.deep()));
        }
        out
    }
}


/// Where a terminator really stands at `j` and none stands earlier, `crlf_at`
/// finds exactly it.
pub proof fn lemma_crlf_at_found(b: Seq<u8>, pos: nat, j: nat)
    requires
        pos <= j,
        j + 2 <= b.len(),
        b[j as int] == CR,
        b[j as int + 1] == LF,
        forall|t: int| pos <= t < j ==> !(#[trigger] b[t] == CR && b[t + 1] == LF),
    ensures
        crlf_at(b, pos) == Some((j - pos) as nat),
    decreases j - pos,
{
    if pos < j {
        lemma_crlf_at_found(b, (pos + 1) as nat, j);
    }
}

/// Where no terminator stands before the end of the bytes, `crlf_at` finds
/// none.
pub proof fn lemma_crlf_at_none(b: Seq<u8>, pos: nat, i: nat)
    requires
        pos <= i,
        i + 2 > b.len(),
        forall|t: int| pos <= t < i ==> !(#[trigger] b[t] == CR && b[t + 1] == LF),
    ensures
        crlf_at(b, pos) is None,
    decreases i - pos,
{
    if pos + 2 <= b.len() {
        lemma_crlf_at_none(b, (pos + 1) as nat, i);
    }
}

/// A digit run denotes a non-negative number.
pub proof fn lemma_digits_val_nonneg(s: Seq<u8>)
    requires
        all_digits(s),
    ensures
        digits_val(s) >= 0,
    decreases s.len(),
{
    if s.len() > 0 {
        assert(all_digits(s.drop_last()));
        lemma_digits_val_nonneg(s.drop_last());
    }
}

/// Reading one more digit multiplies the value so far by ten and adds it.
pub proof fn lemma_digits_val_snoc(s: Seq<u8>, m: int)
    requires
        0 <= m < s.len(),
    ensures
        digits_val(s.take(m + 1)) == digits_val(s.take(m)) * 10 + (s[m] - D0),
{
    assert(s.take(m + 1).drop_last() =~= s.take(m));
    assert(s.take(m + 1).last() == s[m]);
}

/// The value of a digit run is at least the value of any of its prefixes.
pub proof fn lemma_digits_val_prefix_le(s: Seq<u8>, m: int)
    requires
        all_digits(s),
        0 <= m <= s.len(),
    ensures
        digits_val(s.take(m)) <= digits_val(s),
    decreases s.len() - m,
{
    if m == s.len() {
        assert(s.take(m) =~= s);
    } else {
        lemma_digits_val_snoc(s, m);
        assert(all_digits(s.take(m))) by {
            assert(forall|i: int| 0 <= i < m ==> s.take(m)[i] == s[i]);
        }
        lemma_digits_val_nonneg(s.take(m));
        lemma_digits_val_prefix_le(s, m + 1);
    }
}

/// Find the first line terminator at or after `pos`: the executable face of
/// `crlf_at`, returning the absolute index of the carriage return.
fn find_crlf(buf: &Vec<u8>, pos: usize) -> (r: Option<usize>)
    requires
        pos <= buf@.len(),
    ensures
        match r {
            Some(j) => pos <= j && j + 2 <= buf@.len() && crlf_at(buf@, pos as nat) == Some(
                (j - pos) as nat,
            ),
            None => crlf_at(buf@, pos as nat) is None,
        },
{
    let mut i: usize = pos;
    loop
        invariant
            pos <= i <= buf@.len(),
            forall|t: int| pos <= t < i ==> !(#[trigger] buf@[t] == CR && buf@[t + 1] == LF),
        decreases buf@.len() - i,
    {
        if buf.len() - i < 2 {
            proof {
                lemma_crlf_at_none(buf@, pos as nat, i as nat);
            }
            return None;
        }
        if buf[i] == CR && buf[i + 1] == LF {
            proof {
                lemma_crlf_at_found(buf@, pos as nat, i as nat);
            }
            return Some(i);
        }
        i = i + 1;
    }
}

/// Read a run of decimal digits in `buf[start..end]` as a 64-bit number:
/// `None` where the run is empty, not all digits, or too large.
fn parse_digits(buf: &Vec<u8>, start: usize, end: usize) -> (r: Option<u64>)
    requires
        start <= end <= buf@.len(),
    ensures
        ({
            let s = buf@.subrange(start as int, end as int);
            match r {
                Some(v) => start < end && all_digits(s) && digits_val(s) == v,
                None => !(start < end && all_digits(s) && digits_val(s) <= u64::MAX),
            }
        }),
{
    let ghost s = buf@.subrange(start as int, end as int);
    if start == end {
        return None;
    }
    let mut acc: u64 = 0;
    let mut i: usize = start;
    while i < end
        invariant
            start <= i <= end <= buf@.len(),
            s == buf@.subrange(start as int, end as int),
            all_digits(s.take(i - start)),
            digits_val(s.take(i - start)) == acc,
        decreases end - i,
    {
        let c = buf[i];
        if c < D0 || c > D9 {
            proof {
                assert(s[i - start] == c);
                assert(!all_digits(s));
            }
            return None;
        }
        let d = (c - D0) as u64;
        proof {
            lemma_digits_val_snoc(s, i - start);
        }
        let step = match acc.checked_mul(10) {
            Some(t) => t.checked_add(d),
            None => None,
        };
        match step {
            Some(t) => {
                acc = t;
            },
            None => {
                proof {
                    assert(digits_val(s.take(i - start + 1)) > u64::MAX);
                    if all_digits(s) {
                        lemma_digits_val_prefix_le(s, i - start + 1);
                    }
                }
                return None;
            },
        }
        i = i + 1;
    }
    proof {
        assert(s.take(end - start) =~= s);
    }
    Some(acc)
}


/// Read the body of an Integer line in `buf[start..end]`: an optional minus
/// sign then digits, in 64-bit signed range.
fn parse_int_line(buf: &Vec<u8>, start: usize, end: usize) -> (r: Option<i64>)
    requires
        start <= end <= buf@.len(),
    ensures
        ({
            let s = buf@.subrange(start as int, end as int);
            match r {
                Some(v) => int_line_val(s) == Some(v as int),
                None => int_line_val(s) is None,
            }
        }),
{
    let ghost s = buf@.subrange(start as int, end as int);
    if end - start >= 2 && buf[start] == MINUS {
        proof {
            assert(s.skip(1) =~= buf@.subrange(start as int + 1, end as int));
        }
        match parse_digits(buf, start + 1, end) {
            Some(m) => {
                if m <= i64::MAX as u64 {
                    Some(-(m as i64))
                } else if m == i64::MAX as u64 + 1 {
                    Some(i64::MIN)
                } else {
                    None
                }
            },
            None => {
                proof {
                    if all_digits(s.skip(1)) {
                        lemma_digits_val_nonneg(s.skip(1));
                    }
                    assert(s[0] == MINUS && !is_digit(MINUS));
                }
                None
            },
        }
    } else {
        match parse_digits(buf, start, end) {
            Some(m) => {
                if m <= i64::MAX as u64 {
                    proof {
                        if s.len() >= 2 && s[0] == MINUS {
                            assert(!is_digit(MINUS));
                        }
                    }
                    Some(m as i64)
                } else {
                    None
                }
            },
            None => {
                proof {
                    if s.len() >= 2 && s[0] == MINUS && all_digits(s.skip(1)) {
                        assert(end - start >= 2 && buf@[start as int] == MINUS);
                    }
                    if start < end && all_digits(s) {
                        lemma_digits_val_prefix_le(s, s.len() as int);
                    }
                }
                None
            },
        }
    }
}

/// Read the body of a length line in `buf[start..end]`: `Some(None)` for the
/// null marker, `Some(Some(v))` for a length, `None` where malformed.
fn parse_len_line(buf: &Vec<u8>, start: usize, end: usize) -> (r: Option<Option<u64>>)
    requires
        start <= end <= buf@.len(),
    ensures
        ({
            let s = buf@.subrange(start as int, end as int);
            match r {
                Some(w) => match w {
                    Some(v) => len_line_val(s) == Some(v as int),
                    None => len_line_val(s) == Some(-1),
                },
                None => len_line_val(s) is None,
            }
        }),
{
    let ghost s = buf@.subrange(start as int, end as int);
    if end - start == 2 && buf[start] == MINUS && buf[start + 1] == D1 {
        return Some(None);
    }
    match parse_digits(buf, start, end) {
        Some(v) => Some(Some(v)),
        None => {
            proof {
                if s.len() == 2 && s[0] == MINUS && s[1] == D1 {
                    assert(buf@[start as int] == MINUS && buf@[start as int + 1] == D1);
                }
            }
            None
        },
    }
}

/// Compose a scanned run of frames with one already-scanned prefix.
pub open spec fn scanl_append(es: Seq<FrameV>, used: nat, rest: ScanL) -> ScanL {
    match rest {
        ScanL::FoundL(es2, used2) => ScanL::FoundL(es + es2, (used + used2) as nat),
        ScanL::PartialL => ScanL::PartialL,
        ScanL::BadL => ScanL::BadL,
    }
}

impl Frame {
    /// Two-phase decode, first phase: walk the bytes from `pos` verifying
    /// that one complete well-formed frame is present, without materializing
    /// it, and return the position just past it. Returns `Incomplete` the
    /// instant the walk would pass the end of the available bytes, and
    /// `Malformed` on a structural violation.
    #[verifier::loop_isolation(false)]
    #[verifier::rlimit(80)]
    pub fn check(buf: &Vec<u8>, pos: usize) -> (r: Result<usize, FrameError>)
        requires
            pos <= buf@.len(),
        ensures
            match r {
                Ok(end) => pos < end <= buf@.len() && scan(buf@, pos as nat) is Found && pos
                    + scan(buf@, pos as nat)->Found_1 == end,
                Err(e) => match e {
                    FrameError::Incomplete => scan(buf@, pos as nat) is Partial,
                    FrameError::Malformed => scan(buf@, pos as nat) is Bad,
                },
            },
        decreases buf@.len() - pos,
    {
        if pos >= buf.len() {
            return Err(FrameError::Incomplete);
        }
        let tag = buf[pos];
        if tag == TAG_SIMPLE || tag == TAG_ERROR || tag == TAG_INTEGER {
            match find_crlf(buf, pos + 1) {
                None => Err(FrameError::Incomplete),
                Some(j) => {
                    if tag == TAG_INTEGER {
                        match parse_int_line(buf, pos + 1, j) {
                            Some(_) => Ok(j + 2),
                            None => Err(FrameError::Malformed),
                        }
                    } else {
                        Ok(j + 2)
                    }
                },
            }
        } else if tag == TAG_BULK {
            match find_crlf(buf, pos + 1) {
                None => Err(FrameError::Incomplete),
                Some(j) => match parse_len_line(buf, pos + 1, j) {
                    None => Err(FrameError::Malformed),
                    Some(None) => Ok(j + 2),
                    Some(Some(v)) => {
                        let dstart = j + 2;
                        let avail = buf.len() - dstart;
                        if avail < 2 || v > (avail - 2) as u64 {
                            Err(FrameError::Incomplete)
                        } else {
                            let vu = v as usize;
                            if buf[dstart + vu] == CR && buf[dstart + vu + 1] == LF {
                                Ok(dstart + vu + 2)
                            } else {
                                Err(FrameError::Malformed)
                            }
                        }
                    },
                },
            }
        } else if tag == TAG_ARRAY {
            match find_crlf(buf, pos + 1) {
                None => Err(FrameError::Incomplete),
                Some(j) => match parse_len_line(buf, pos + 1, j) {
                    None => Err(FrameError::Malformed),
                    Some(None) => Ok(j + 2),
                    Some(Some(n)) => {
                        let ghost hdr_end = (j + 2) as nat;
                        let ghost n0 = n as nat;
                        let mut cur: usize = j + 2;
                        let mut cnt: u64 = 0;
                        let ghost mut pre_es: Seq<FrameV> = Seq::empty();
                        proof {
                            assert(scanl_append(pre_es, (cur - hdr_end) as nat, scan_list(buf@, cur as nat, (n0 - cnt) as nat)) == scan_list(buf@, hdr_end, n0)) by {
                                assert(forall|x: ScanL| scanl_append(Seq::<FrameV>::empty(), 0, x) == match x {
                                    ScanL::FoundL(es2, u2) => ScanL::FoundL(Seq::<FrameV>::empty() + es2, u2),
                                    ScanL::PartialL => ScanL::PartialL,
                                    ScanL::BadL => ScanL::BadL,
                                });
                                match scan_list(buf@, hdr_end, n0) {
                                    ScanL::FoundL(es2, u2) => {
                                        assert(Seq::<FrameV>::empty() + es2 =~= es2);
                                    },
                                    _ => {},
                                }
                            }
                        }
                        loop
                            invariant
                                cnt <= n,
                                j + 2 <= cur <= buf@.len(),
                                pos < cur,
                                scan_list(buf@, hdr_end, n0) == scanl_append(
                                    pre_es,
                                    (cur - hdr_end) as nat,
                                    scan_list(buf@, cur as nat, (n0 - cnt) as nat),
                                ),
                            decreases n - cnt,
                        {
                            if cnt == n {
                                return Ok(cur);
                            }
                            match Frame::check(buf, cur) {
                                Ok(e) => {
                                    proof {
                                        let m = (n0 - cnt) as nat;
                                        let f = scan(buf@, cur as nat)->Found_0;
                                        let u = scan(buf@, cur as nat)->Found_1;
                                        let rest = scan_list(buf@, (cur as nat + u) as nat, (m - 1) as nat);
                                        assert(scan_list(buf@, cur as nat, m) == scanl_append(seq![f], u, rest));
                                        match rest {
                                            ScanL::FoundL(es2, u2) => {
                                                assert(pre_es + (seq![f] + es2) =~= (pre_es + seq![f]) + es2);
                                            },
                                            _ => {},
                                        }
                                        pre_es = pre_es + seq![f];
                                    }
                                    cur = e;
                                    cnt = cnt + 1;
                                },
                                Err(e) => {
                                    return Err(e);
                                },
                            }
                        }
                    },
                },
            }
        } else {
            Err(FrameError::Malformed)
        }
    }
}


/// Pushing a frame models as appending its model value.
pub proof fn lemma_deep_list_snoc(es: Seq<Frame>, f: Frame)
    ensures
        deep_list(es.push(f)) == deep_list(es) + seq![f.deep()],
    decreases es,
{
    if es.len() == 0 {
        assert(es.push(f).drop_first() =~= Seq::<Frame>::empty());
        assert(es.push(f)[0] == f);
        assert(deep_list(Seq::<Frame>::empty()) == Seq::<FrameV>::empty());
        assert(deep_list(es) == Seq::<FrameV>::empty());
        assert(deep_list(es.push(f)) =~= deep_list(es) + seq![f.deep()]);
    } else {
        lemma_deep_list_snoc(es.drop_first(), f);
        assert(es.push(f).drop_first() =~= es.drop_first().push(f));
        assert(es.push(f)[0] == es[0]);
        assert(seq![es[0].deep()] + (deep_list(es.drop_first()) + seq![f.deep()]) =~= (seq![
            es[0].deep(),
        ] + deep_list(es.drop_first())) + seq![f.deep()]);
    }
}

/// Copy `buf[start..end]` into a fresh vector.
fn copy_range(buf: &Vec<u8>, start: usize, end: usize) -> (out: Vec<u8>)
    requires
        start <= end <= buf@.len(),
    ensures
        out@ == buf@.subrange(start as int, end as int),
{
    let mut out: Vec<u8> = Vec::new();
    let mut i: usize = start;
    while i < end
        invariant
            start <= i <= end <= buf@.len(),
            out@ == buf@.subrange(start as int, i as int),
        decreases end - i,
    {
        out.push(buf[i]);
        proof {
            assert(buf@.subrange(start as int, i as int + 1) =~= buf@.subrange(
                start as int,
                i as int,
            ).push(buf@[i as int]));
        }
        i = i + 1;
    }
    out
}

impl Frame {
    /// Two-phase decode, second phase: materialize the frame that a prior
    /// successful `check` over the same byte range found at `pos`. Calling it
    /// without that guarantee is a programming error, excluded by contract.
    #[verifier::loop_isolation(false)]
    #[verifier::rlimit(80)]
    pub fn parse(buf: &Vec<u8>, pos: usize) -> (r: (Frame, usize))
        requires
            pos <= buf@.len(),
            scan(buf@, pos as nat) is Found,
        ensures
            pos < r.1 <= buf@.len(),
            scan(buf@, pos as nat) == Scan::Found(r.0.deep(), (r.1 - pos) as nat),
        decreases buf@.len() - pos,
    {
        if pos >= buf.len() {
            proof {
                assert(false);
            }
            return (Frame::Integer(0), buf.len());
        }
        let tag = buf[pos];
        if tag == TAG_SIMPLE || tag == TAG_ERROR {
            match find_crlf(buf, pos + 1) {
                None => {
                    proof {
                        assert(false);
                    }
                    (Frame::Integer(0), buf.len())
                },
                Some(j) => {
                    let body = copy_range(buf, pos + 1, j);
                    if tag == TAG_SIMPLE {
                        (Frame::Simple(body), j + 2)
                    } else {
                        (Frame::Error(body), j + 2)
                    }
                },
            }
        } else if tag == TAG_INTEGER {
            match find_crlf(buf, pos + 1) {
                None => {
                    proof {
                        assert(false);
                    }
                    (Frame::Integer(0), buf.len())
                },
                Some(j) => match parse_int_line(buf, pos + 1, j) {
                    Some(v) => (Frame::Integer(v), j + 2),
                    None => {
                        proof {
                            assert(false);
                        }
                        (Frame::Integer(0), buf.len())
                    },
                },
            }
        } else if tag == TAG_BULK {
            match find_crlf(buf, pos + 1) {
                None => {
                    proof {
                        assert(false);
                    }
                    (Frame::Integer(0), buf.len())
                },
                Some(j) => match parse_len_line(buf, pos + 1, j) {
                    None => {
                        proof {
                            assert(false);
                        }
                        (Frame::Integer(0), buf.len())
                    },
                    Some(None) => (Frame::Bulk(None), j + 2),
                    Some(Some(v)) => {
                        let dstart = j + 2;
                        let avail = buf.len() - dstart;
                        if avail < 2 || v > (avail - 2) as u64 {
                            proof {
                                assert(false);
                            }
                            (Frame::Integer(0), buf.len())
                        } else {
                            let vu = v as usize;
                            let data = copy_range(buf, dstart, dstart + vu);
                            (Frame::Bulk(Some(data)), dstart + vu + 2)
                        }
                    },
                },
            }
        } else if tag == TAG_ARRAY {
            match find_crlf(buf, pos + 1) {
                None => {
                    proof {
                        assert(false);
                    }
                    (Frame::Integer(0), buf.len())
                },
                Some(j) => match parse_len_line(buf, pos + 1, j) {
                    None => {
                        proof {
                            assert(false);
                        }
                        (Frame::Integer(0), buf.len())
                    },
                    Some(None) => (Frame::Array(None), j + 2),
                    Some(Some(n)) => {
                        let ghost hdr_end = (j + 2) as nat;
                        let ghost n0 = n as nat;
                        let ghost es_all = scan_list(buf@, hdr_end, n0)->FoundL_0;
                        let ghost used_all = scan_list(buf@, hdr_end, n0)->FoundL_1;
                        let mut cur: usize = j + 2;
                        let mut cnt: u64 = 0;
                        let mut elems: Vec<Frame> = Vec::new();
                        proof {
                            assert(scan_list(buf@, hdr_end, n0) is FoundL);
                            assert(deep_list(elems@) + es_all =~= es_all);
                        }
                        loop
                            invariant
                                cnt <= n,
                                j + 2 <= cur <= buf@.len(),
                                pos < cur,
                                scan_list(buf@, cur as nat, (n0 - cnt) as nat) is FoundL,
                                deep_list(elems@) + scan_list(
                                    buf@,
                                    cur as nat,
                                    (n0 - cnt) as nat,
                                )->FoundL_0 == es_all,
                                cur - hdr_end + scan_list(
                                    buf@,
                                    cur as nat,
                                    (n0 - cnt) as nat,
                                )->FoundL_1 == used_all,
                            decreases n - cnt,
                        {
                            if cnt == n {
                                proof {
                                    assert(deep_list(elems@) + Seq::<FrameV>::empty() =~= deep_list(
                                        elems@,
                                    ));
                                }
                                return (Frame::Array(Some(elems)), cur);
                            }
                            let (fe, e) = Frame::parse(buf, cur);
                            proof {
                                let m = (n0 - cnt) as nat;
                                let u = (e - cur) as nat;
                                let rest = scan_list(buf@, (cur + u) as nat, (m - 1) as nat);
                                assert(rest is FoundL);
                                lemma_deep_list_snoc(elems@, fe);
                                assert(deep_list(elems@) + (seq![fe.deep()] + rest->FoundL_0) =~= (
                                deep_list(elems@) + seq![fe.deep()]) + rest->FoundL_0);
                            }
                            elems.push(fe);
                            cur = e;
                            cnt = cnt + 1;
                        }
                    },
                },
            }
        } else {
            proof {
                assert(false);
            }
            (Frame::Integer(0), buf.len())
        }
    }
}


/// Bytes laid down at `pos` can be read back one at a time.
pub proof fn lemma_bytes_at(b: Seq<u8>, pos: nat, e: Seq<u8>)
    requires
        pos + e.len() <= b.len(),
        b.subrange(pos as int, pos as int + e.len() as int) == e,
    ensures
        forall|j: int| pos <= j < pos + e.len() ==> #[trigger] b[j] == e[j - pos],
{
    assert forall|j: int| pos <= j < pos + e.len() implies #[trigger] b[j] == e[j - pos] by {
        assert(b.subrange(pos as int, pos as int + e.len() as int)[j - pos] == b[j]);
    }
}

/// A slice of bytes laid down at `pos` is the matching slice of the source.
pub proof fn lemma_bytes_sub(b: Seq<u8>, pos: nat, e: Seq<u8>, a: int, c: int)
    requires
        pos + e.len() <= b.len(),
        b.subrange(pos as int, pos as int + e.len() as int) == e,
        0 <= a <= c <= e.len(),
    ensures
        b.subrange(pos as int + a, pos as int + c) == e.subrange(a, c),
{
    lemma_bytes_at(b, pos, e);
    assert(b.subrange(pos as int + a, pos as int + c) =~= e.subrange(a, c));
}

/// The decimal representation of a number is a non-empty digit run denoting
/// that number.
pub proof fn lemma_digits_rep(n: nat)
    ensures
        digits_rep(n).len() >= 1,
        all_digits(digits_rep(n)),
        digits_val(digits_rep(n)) == n,
    decreases n,
{
    if n < 10 {
        let s = digits_rep(n);
        assert(s.drop_last() =~= Seq::<u8>::empty());
        assert(digits_val(Seq::<u8>::empty()) == 0);
        assert(s.last() == (D0 + n) as u8);
        assert(digits_val(s) == digits_val(s.drop_last()) * 10 + (s.last() - D0));
    } else {
        lemma_digits_rep(n / 10);
        let s = digits_rep(n);
        assert(s.len() >= 2);
        assert(s.drop_last() =~= digits_rep(n / 10));
        assert(s.last() == (D0 + n % 10) as u8);
        assert(digits_val(s) == digits_val(s.drop_last()) * 10 + (s.last() - D0));
        assert(digits_val(s) == (n / 10) * 10 + n % 10);
    }
}

/// Digit runs and the minus sign hold no terminator bytes.
pub proof fn lemma_digits_no_crlf(s: Seq<u8>)
    requires
        all_digits(s),
    ensures
        line_ok(s),
{
}

/// The body of an encoded Integer line reads back as the integer.
pub proof fn lemma_int_rep_val(v: i64)
    ensures
        int_rep(v as int).len() >= 1,
        line_ok(int_rep(v as int)),
        int_line_val(int_rep(v as int)) == Some(v as int),
{
    if v < 0 {
        lemma_digits_rep((-(v as int)) as nat);
        let s = int_rep(v as int);
        assert(s.skip(1) =~= digits_rep((-(v as int)) as nat));
        lemma_digits_val_nonneg(s.skip(1));
    } else {
        lemma_digits_rep(v as nat);
        let s = int_rep(v as int);
        assert(s[0] != MINUS);
    }
}

/// The body of an encoded length line reads back as the length.
pub proof fn lemma_len_rep_val(n: nat)
    requires
        n <= u64::MAX,
    ensures
        len_line_val(digits_rep(n)) == Some(n as int),
        len_line_val(null_rep()) == Some(-1),
{
    lemma_digits_rep(n);
    let s = digits_rep(n);
    assert(s[0] != MINUS);
    let z = null_rep();
    assert(z.len() == 2 && z[0] == MINUS && z[1] == D1);
}

/// Scanning at the start of the full encoding of a well-formed frame finds
/// exactly that frame, occupying exactly its encoded bytes; whatever follows
/// is untouched.
#[verifier::rlimit(100)]
#[verifier::spinoff_prover]
pub proof fn lemma_scan_of_enc(b: Seq<u8>, pos: nat, f: FrameV)
    requires
        frame_wf(f),
        pos + frame_enc(f).len() <= b.len(),
        b.subrange(pos as int, pos as int + frame_enc(f).len() as int) == frame_enc(f),
    ensures
        scan(b, pos) == Scan::Found(f, frame_enc(f).len()),
    decreases f, 0nat,
{
    let e = frame_enc(f);
    lemma_bytes_at(b, pos, e);
    match f {
        FrameV::Simple(s) => {
            lemma_line_frame(b, pos, s);
            assert(b.subrange(pos as int + 1, pos as int + 1 + s.len() as int) =~= s) by {
                lemma_bytes_sub(b, pos, e, 1, 1 + s.len() as int);
                assert(e.subrange(1, 1 + s.len() as int) =~= s);
            }
        },
        FrameV::Error(s) => {
            lemma_line_frame(b, pos, s);
            assert(b.subrange(pos as int + 1, pos as int + 1 + s.len() as int) =~= s) by {
                lemma_bytes_sub(b, pos, e, 1, 1 + s.len() as int);
                assert(e.subrange(1, 1 + s.len() as int) =~= s);
            }
        },
        FrameV::Integer(v) => {
            lemma_int_rep_val(v);
            let c = int_rep(v as int);
            lemma_line_frame(b, pos, c);
            assert(b.subrange(pos as int + 1, pos as int + 1 + c.len() as int) =~= c) by {
                lemma_bytes_sub(b, pos, e, 1, 1 + c.len() as int);
                assert(e.subrange(1, 1 + c.len() as int) =~= c);
            }
        },
        FrameV::Bulk(od) => match od {
            None => {
                lemma_len_rep_val(0);
                lemma_line_frame(b, pos, null_rep());
                assert(b.subrange(pos as int + 1, pos as int + 3) =~= null_rep()) by {
                    lemma_bytes_sub(b, pos, e, 1, 3);
                    assert(e.subrange(1, 3) =~= null_rep());
                }
            },
            Some(d) => {
                let c = digits_rep(d.len());
                let k = c.len() as int;
                lemma_len_rep_val(d.len());
                lemma_digits_rep(d.len());
                lemma_digits_no_crlf(c);
                lemma_line_frame(b, pos, c);
                assert(b.subrange(pos as int + 1, pos as int + 1 + k) =~= c) by {
                    lemma_bytes_sub(b, pos, e, 1, 1 + k);
                    assert(e.subrange(1, 1 + k) =~= c);
                }
                let dstart = pos as int + k + 3;
                assert(b.subrange(dstart, dstart + d.len() as int) =~= d) by {
                    lemma_bytes_sub(b, pos, e, k + 3, k + 3 + d.len() as int);
                    assert(e.subrange(k + 3, k + 3 + d.len() as int) =~= d);
                }
                assert(b[dstart + d.len() as int] == CR && b[dstart + d.len() as int + 1] == LF)
                    by {
                    assert(e[k + 3 + d.len() as int] == CR);
                    assert(e[k + 3 + d.len() as int + 1] == LF);
                }
            },
        },
        FrameV::Array(oes) => match oes {
            None => {
                lemma_len_rep_val(0);
                lemma_line_frame(b, pos, null_rep());
                assert(b.subrange(pos as int + 1, pos as int + 3) =~= null_rep()) by {
                    lemma_bytes_sub(b, pos, e, 1, 3);
                    assert(e.subrange(1, 3) =~= null_rep());
                }
            },
            Some(es) => {
                let c = digits_rep(es.len());
                let k = c.len() as int;
                lemma_len_rep_val(es.len());
                lemma_digits_rep(es.len());
                lemma_digits_no_crlf(c);
                lemma_line_frame(b, pos, c);
                assert(b.subrange(pos as int + 1, pos as int + 1 + k) =~= c) by {
                    lemma_bytes_sub(b, pos, e, 1, 1 + k);
                    assert(e.subrange(1, 1 + k) =~= c);
                }
                lemma_bytes_sub(b, pos, e, k + 3, e.len() as int);
                assert(e.subrange(k + 3, e.len() as int) =~= list_enc(es));
                assert(forall|i: int| 0 <= i < es.len() ==> frame_wf(#[trigger] es[i]));
                lemma_scan_list_of_enc(b, (pos + k + 3) as nat, es);
            },
        },
    }
}

/// Scanning at the start of the concatenated encodings of well-formed frames
/// finds exactly those frames.
pub proof fn lemma_scan_list_of_enc(b: Seq<u8>, pos: nat, es: Seq<FrameV>)
    requires
        forall|i: int| 0 <= i < es.len() ==> frame_wf(#[trigger] es[i]),
        pos + list_enc(es).len() <= b.len(),
        b.subrange(pos as int, pos as int + list_enc(es).len() as int) == list_enc(es),
    ensures
        scan_list(b, pos, es.len()) == ScanL::FoundL(es, list_enc(es).len()),
    decreases es, 1nat,
{
    if es.len() == 0 {
        assert(es =~= Seq::<FrameV>::empty());
    } else {
        let e0 = frame_enc(es[0]);
        let tl = es.drop_first();
        let l = list_enc(es);
        assert(l == e0 + list_enc(tl));
        assert(b.subrange(pos as int, pos as int + e0.len() as int) =~= e0) by {
            lemma_bytes_sub(b, pos, l, 0, e0.len() as int);
            assert(l.subrange(0, e0.len() as int) =~= e0);
        }
        lemma_scan_of_enc(b, pos, es[0]);
        assert(b.subrange(
            pos as int + e0.len() as int,
            pos as int + e0.len() as int + list_enc(tl).len() as int,
        ) =~= list_enc(tl)) by {
            lemma_bytes_sub(b, pos, l, e0.len() as int, l.len() as int);
            assert(l.subrange(e0.len() as int, l.len() as int) =~= list_enc(tl));
        }
        lemma_scan_list_of_enc(b, (pos + e0.len()) as nat, tl);
        assert(seq![es[0]] + tl =~= es);
    }
}

/// Within the encoding of a line frame laid down at `pos`, the scanner finds
/// the terminator exactly at the end of the content.
///
/// The content must carry no terminator bytes; the line must be wholly
/// present, its two terminator bytes standing right after it.
proof fn lemma_line_frame(b: Seq<u8>, pos: nat, c: Seq<u8>)
    requires
        line_ok(c),
        pos + 1 + c.len() + 2 <= b.len(),
        forall|j: int| pos + 1 <= j < pos + 1 + c.len() ==> #[trigger] b[j] == c[j - pos - 1],
        b[pos as int + 1 + c.len() as int] == CR,
        b[pos as int + 1 + c.len() as int + 1] == LF,
    ensures
        crlf_at(b, (pos + 1) as nat) == Some(c.len()),
{
    lemma_crlf_at_found(b, (pos + 1) as nat, (pos + 1 + c.len()) as nat);
}




/// A strict prefix of a line (content then terminator) holds no terminator
/// pair, so the scanner keeps waiting.
proof fn lemma_crlf_none_of_cut(b: Seq<u8>, pos: nat, c: Seq<u8>)
    requires
        line_ok(c),
        pos <= b.len(),
        b.len() <= pos + c.len() + 1,
        forall|j: int| pos <= j < b.len() ==> #[trigger] b[j] == (c + crlf())[j - pos],
    ensures
        crlf_at(b, pos) is None,
{
    if pos + 2 > b.len() {
    } else {
        let i = (b.len() - 1) as nat;
        assert forall|t: int| pos <= t < i implies !(#[trigger] b[t] == CR && b[t + 1] == LF) by {
            assert(b[t] == (c + crlf())[t - pos]);
            assert(t - pos < c.len());
            assert((c + crlf())[t - pos] == c[t - pos]);
        }
        lemma_crlf_at_none(b, pos, i);
    }
}

/// Scanning any strict, possibly empty, prefix of the encoding of a
/// well-formed frame reports that more bytes are needed: never a parse,
/// never a structural violation.
#[verifier::rlimit(100)]
#[verifier::spinoff_prover]
pub proof fn lemma_scan_of_prefix(b: Seq<u8>, pos: nat, f: FrameV, cut: nat)
    requires
        frame_wf(f),
        cut < frame_enc(f).len(),
        b.len() == pos + cut,
        b.subrange(pos as int, b.len() as int) == frame_enc(f).take(cut as int),
    ensures
        scan(b, pos) == Scan::Partial,
    decreases f, 0nat,
{
    let e = frame_enc(f);
    let ec = e.take(cut as int);
    lemma_bytes_at(b, pos, ec);
    if cut == 0 {
    } else {
        assert(b[pos as int] == e[0]);
        let c: Seq<u8> = match f {
            FrameV::Simple(s) => s,
            FrameV::Error(s) => s,
            FrameV::Integer(v) => int_rep(v as int),
            FrameV::Bulk(od) => match od {
                Some(d) => digits_rep(d.len()),
                None => null_rep(),
            },
            FrameV::Array(oes) => match oes {
                Some(es) => digits_rep(es.len()),
                None => null_rep(),
            },
        };
        let hdr = 3 + c.len() as int;
        proof_line_ok_of_content(f, c);
        assert(e.subrange(1, hdr) =~= c + crlf());
        if cut < hdr {
            assert forall|j: int| pos + 1 <= j < b.len() implies #[trigger] b[j] == (c + crlf())[j
                - pos - 1] by {
                assert(b[j] == ec[j - pos]);
                assert(ec[j - pos] == e[j - pos]);
                assert(e.subrange(1, hdr)[j - pos - 1] == e[j - pos]);
            }
            lemma_crlf_none_of_cut(b, (pos + 1) as nat, c);
        } else {
            assert forall|j: int| pos + 1 <= j < pos + hdr implies #[trigger] b[j] == (c + crlf())[
            j - pos - 1] by {
                assert(b[j] == ec[j - pos]);
                assert(ec[j - pos] == e[j - pos]);
                assert(e.subrange(1, hdr)[j - pos - 1] == e[j - pos]);
            }
            assert(b[pos as int + 1 + c.len() as int] == CR && b[pos as int + 2 + c.len() as int]
                == LF) by {
                assert((c + crlf())[c.len() as int] == CR);
                assert((c + crlf())[c.len() as int + 1] == LF);
            }
            assert forall|t: int|
                pos + 1 <= t < pos + 1 + c.len() implies !(#[trigger] b[t] == CR && b[t + 1]
                == LF) by {
                assert(b[t] == (c + crlf())[t - pos - 1]);
                assert((c + crlf())[t - pos - 1] == c[t - pos - 1]);
            }
            lemma_crlf_at_found(b, (pos + 1) as nat, (pos + 1 + c.len()) as nat);
            assert(b.subrange(pos as int + 1, pos as int + 1 + c.len() as int) =~= c);
            match f {
                FrameV::Bulk(od) => {
                    let d = od.unwrap();
                    lemma_len_rep_val(d.len());
                },
                FrameV::Array(oes) => {
                    let es = oes.unwrap();
                    lemma_len_rep_val(es.len());
                    let l = list_enc(es);
                    assert(e.subrange(hdr, e.len() as int) =~= l);
                    let cut2 = cut - hdr;
                    assert(b.subrange(pos as int + hdr, b.len() as int) =~= l.take(cut2)) by {
                        assert forall|m: int| 0 <= m < cut2 implies b.subrange(
                            pos as int + hdr,
                            b.len() as int,
                        )[m] == l.take(cut2)[m] by {
                            assert(b[pos + hdr + m] == ec[hdr + m]);
                            assert(ec[hdr + m] == e[hdr + m]);
                            assert(e.subrange(hdr, e.len() as int)[m] == e[hdr + m]);
                        }
                    }
                    assert(forall|i: int| 0 <= i < es.len() ==> frame_wf(#[trigger] es[i]));
                    lemma_scan_list_of_prefix(b, (pos + hdr) as nat, es, (cut2) as nat);
                },
                _ => {
                    assert(false);
                },
            }
        }
    }
}

/// The contents named by `proof_line_ok_of_content` carry no terminator
/// bytes, and a length-prefixed frame's header line is never cut here.
proof fn proof_line_ok_of_content(f: FrameV, c: Seq<u8>)
    requires
        frame_wf(f),
        c == (match f {
            FrameV::Simple(s) => s,
            FrameV::Error(s) => s,
            FrameV::Integer(v) => int_rep(v as int),
            FrameV::Bulk(od) => match od {
                Some(d) => digits_rep(d.len()),
                None => null_rep(),
            },
            FrameV::Array(oes) => match oes {
                Some(es) => digits_rep(es.len()),
                None => null_rep(),
            },
        }),
    ensures
        line_ok(c),
        frame_enc(f).len() >= 3 + c.len(),
        frame_enc(f)[0] == (match f {
            FrameV::Simple(_) => TAG_SIMPLE,
            FrameV::Error(_) => TAG_ERROR,
            FrameV::Integer(_) => TAG_INTEGER,
            FrameV::Bulk(_) => TAG_BULK,
            FrameV::Array(_) => TAG_ARRAY,
        }),
        (f is Simple || f is Error || f is Integer) ==> frame_enc(f).len() == 3 + c.len(),
        f matches FrameV::Bulk(None) ==> frame_enc(f).len() == 3 + c.len(),
        f matches FrameV::Array(None) ==> frame_enc(f).len() == 3 + c.len(),
        f matches FrameV::Bulk(Some(d)) ==> frame_enc(f).len() == 3 + c.len() + d.len() + 2,
        f matches FrameV::Array(Some(es2)) ==> frame_enc(f).len() == 3 + c.len() + list_enc(
            es2,
        ).len(),
{
    match f {
        FrameV::Integer(v) => {
            lemma_int_rep_val(v);
        },
        FrameV::Bulk(od) => match od {
            Some(d) => {
                lemma_digits_rep(d.len());
                lemma_digits_no_crlf(c);
            },
            None => {},
        },
        FrameV::Array(oes) => match oes {
            Some(es) => {
                lemma_digits_rep(es.len());
                lemma_digits_no_crlf(c);
            },
            None => {},
        },
        _ => {},
    }
}

/// Scanning a strict prefix of the concatenated encodings of well-formed
/// frames reports that more bytes are needed.
pub proof fn lemma_scan_list_of_prefix(b: Seq<u8>, pos: nat, es: Seq<FrameV>, cut: nat)
    requires
        forall|i: int| 0 <= i < es.len() ==> frame_wf(#[trigger] es[i]),
        cut < list_enc(es).len(),
        b.len() == pos + cut,
        b.subrange(pos as int, b.len() as int) == list_enc(es).take(cut as int),
    ensures
        scan_list(b, pos, es.len()) == ScanL::PartialL,
    decreases es, 1nat,
{
    assert(es.len() > 0);
    let e0 = frame_enc(es[0]);
    let tl = es.drop_first();
    let l = list_enc(es);
    assert(l == e0 + list_enc(tl));
    lemma_bytes_at(b, pos, l.take(cut as int));
    if cut < e0.len() {
        assert(b.subrange(pos as int, b.len() as int) =~= e0.take(cut as int)) by {
            assert forall|m: int| 0 <= m < cut implies b.subrange(pos as int, b.len() as int)[m]
                == e0.take(cut as int)[m] by {
                assert(b[pos + m] == l.take(cut as int)[m]);
            }
        }
        lemma_scan_of_prefix(b, pos, es[0], cut);
    } else {
        assert(b.subrange(pos as int, pos as int + e0.len() as int) =~= e0) by {
            assert forall|m: int| 0 <= m < e0.len() implies b.subrange(
                pos as int,
                pos as int + e0.len() as int,
            )[m] == e0[m] by {
                assert(b[pos + m] == l.take(cut as int)[m]);
            }
        }
        lemma_scan_of_enc(b, pos, es[0]);
        let cut2 = (cut - e0.len()) as nat;
        assert(forall|i: int| 0 <= i < tl.len() ==> tl[i] == es[i + 1]);
        assert(cut2 < list_enc(tl).len());
        assert(b.subrange(pos as int + e0.len() as int, b.len() as int) =~= list_enc(tl).take(
            cut2 as int,
        )) by {
            assert forall|m: int| 0 <= m < cut2 implies b.subrange(
                pos as int + e0.len() as int,
                b.len() as int,
            )[m] == list_enc(tl).take(cut2 as int)[m] by {
                assert(b[pos + e0.len() + m] == l.take(cut as int)[e0.len() + m]);
                assert(l[e0.len() + m] == list_enc(tl)[m]);
            }
        }
        lemma_scan_list_of_prefix(b, (pos + e0.len()) as nat, tl, cut2);
    }
}


/// Round trip: validating-and-parsing the encoding of any well-formed frame,
/// with arbitrary trailing bytes after it, finds exactly that frame and
/// reports a position exactly at the end of the frame's own bytes; the
/// trailing bytes are untouched.
pub proof fn lemma_round_trip(f: FrameV, rest: Seq<u8>)
    requires
        frame_wf(f),
    ensures
        scan(frame_enc(f) + rest, 0) == Scan::Found(f, frame_enc(f).len()),
{
    let b = frame_enc(f) + rest;
    assert(b.subrange(0, frame_enc(f).len() as int) =~= frame_enc(f));
    lemma_scan_of_enc(b, 0, f);
}

/// Incompleteness monotonicity: on every strict prefix of a well-formed
/// frame's encoding, validation asks for more bytes: never a parse, never a
/// structural violation.
pub proof fn lemma_prefix_incomplete(f: FrameV, cut: nat)
    requires
        frame_wf(f),
        cut < frame_enc(f).len(),
    ensures
        scan(frame_enc(f).take(cut as int), 0) == Scan::Partial,
{
    let b = frame_enc(f).take(cut as int);
    assert(b.subrange(0, b.len() as int) =~= b);
    lemma_scan_of_prefix(b, 0, f, cut);
}

/// An unknown leading type tag is a structural violation at once, never a
/// plea for more bytes.
pub proof fn lemma_unknown_tag(b: Seq<u8>, pos: nat)
    requires
        pos < b.len(),
        b[pos as int] != TAG_SIMPLE,
        b[pos as int] != TAG_ERROR,
        b[pos as int] != TAG_INTEGER,
        b[pos as int] != TAG_BULK,
        b[pos as int] != TAG_ARRAY,
    ensures
        scan(b, pos) == Scan::Bad,
{
}

/// A Bulk string whose declared length runs past the bytes available is
/// never accepted: until the declared bytes and their terminator have all
/// arrived, validation keeps asking for more.
pub proof fn lemma_bulk_needs_data(b: Seq<u8>, pos: nat, k: nat, v: int)
    requires
        pos < b.len(),
        b[pos as int] == TAG_BULK,
        crlf_at(b, (pos + 1) as nat) == Some(k),
        len_line_val(b.subrange(pos as int + 1, pos as int + 1 + k as int)) == Some(v),
        v >= 0,
        pos + k + 3 + v + 2 > b.len(),
    ensures
        scan(b, pos) == Scan::Partial,
{
}

} // verus!
