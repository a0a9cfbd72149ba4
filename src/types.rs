//! Wire-level data types: frames, headers, flags and the error taxonomy.
use vstd::prelude::*;

verus! {

/// The two magic bytes that open every frame ("VT").
pub const VSTP_MAGIC_0: u8 = 0x56;

pub const VSTP_MAGIC_1: u8 = 0x54;

/// The protocol version this library speaks.
pub const VSTP_VERSION: u8 = 1;

/// Flag bit: the sender asks for an acknowledgement.
pub const FLAG_REQ_ACK: u8 = 0x01;

/// Flag bit: a CRC32 trailer follows the payload.
pub const FLAG_CRC: u8 = 0x02;

/// Flag bit: the frame carries one fragment of a larger payload.
pub const FLAG_FRAG: u8 = 0x04;

/// Flag bit: the payload is compressed (no semantics in this version).
pub const FLAG_COMP: u8 = 0x08;

/// Session identifier handed to stream handlers.
pub type SessionId = u128;

/// The kind of a frame.
#[derive(Debug, Clone, Copy, PartialEq, Eq, Structural)]
pub enum FrameType {
    Hello,
    Welcome,
    Data,
    Ping,
    Pong,
    Bye,
    Ack,
    Error,
}

/// The wire byte of each frame type.
pub open spec fn type_code(t: FrameType) -> u8 {
    match t {
        FrameType::Hello => 0x01,
        FrameType::Welcome => 0x02,
        FrameType::Data => 0x03,
        FrameType::Ping => 0x04,
        FrameType::Pong => 0x05,
        FrameType::Bye => 0x06,
        FrameType::Ack => 0x07,
        FrameType::Error => 0x08,
    }
}

/// The frame type a wire byte stands for, if any.
pub open spec fn type_of_code(b: u8) -> Option<FrameType> {
    if b == 0x01 {
        Some(FrameType::Hello)
    } else if b == 0x02 {
        Some(FrameType::Welcome)
    } else if b == 0x03 {
        Some(FrameType::Data)
    } else if b == 0x04 {
        Some(FrameType::Ping)
    } else if b == 0x05 {
        Some(FrameType::Pong)
    } else if b == 0x06 {
        Some(FrameType::Bye)
    } else if b == 0x07 {
        Some(FrameType::Ack)
    } else if b == 0x08 {
        Some(FrameType::Error)
    } else {
        None
    }
}

impl FrameType {
    /// The byte written on the wire for this type.
    pub fn to_u8(self) -> (r: u8)
        ensures
            r == type_code(self),
            type_of_code(r) == Some(self),
    {
        match self {
            FrameType::Hello => 0x01,
            FrameType::Welcome => 0x02,
            FrameType::Data => 0x03,
            FrameType::Ping => 0x04,
            FrameType::Pong => 0x05,
            FrameType::Bye => 0x06,
            FrameType::Ack => 0x07,
            FrameType::Error => 0x08,
        }
    }

    /// The type a wire byte stands for; `None` for an unknown byte.
    pub fn from_u8(b: u8) -> (r: Option<FrameType>)
        ensures
            r == type_of_code(b),
    {
        if b == 0x01 {
            Some(FrameType::Hello)
        } else if b == 0x02 {
            Some(FrameType::Welcome)
        } else if b == 0x03 {
            Some(FrameType::Data)
        } else if b == 0x04 {
            Some(FrameType::Ping)
        } else if b == 0x05 {
            Some(FrameType::Pong)
        } else if b == 0x06 {
            Some(FrameType::Bye)
        } else if b == 0x07 {
            Some(FrameType::Ack)
        } else if b == 0x08 {
            Some(FrameType::Error)
        } else {
            None
        }
    }
}

/// A set of flag bits; bits without a meaning are kept as they are.
#[derive(Debug, Clone, Copy, PartialEq, Eq, Structural)]
pub struct Flags {
    pub bits: u8,
}

impl Flags {
    pub fn empty() -> (r: Flags)
        ensures
            r.bits == 0,
    {
        Flags { bits: 0 }
    }

    pub fn from_bits(bits: u8) -> (r: Flags)
        ensures
            r.bits == bits,
    {
        Flags { bits }
    }

    pub fn bits(&self) -> (r: u8)
        ensures
            r == self.bits,
    {
        self.bits
    }

    pub fn req_ack() -> (r: Flags)
        ensures
            r.bits == FLAG_REQ_ACK,
    {
        Flags { bits: FLAG_REQ_ACK }
    }

    pub fn crc() -> (r: Flags)
        ensures
            r.bits == FLAG_CRC,
    {
        Flags { bits: FLAG_CRC }
    }

    pub fn frag() -> (r: Flags)
        ensures
            r.bits == FLAG_FRAG,
    {
        Flags { bits: FLAG_FRAG }
    }

    pub fn comp() -> (r: Flags)
        ensures
            r.bits == FLAG_COMP,
    {
        Flags { bits: FLAG_COMP }
    }

    /// Whether every bit of `other` is set here.
    pub fn contains(&self, other: Flags) -> (r: bool)
        ensures
            r == (self.bits & other.bits == other.bits),
    {
        self.bits & other.bits == other.bits
    }

    /// These flags with the bits of `other` added.
    pub fn union(&self, other: Flags) -> (r: Flags)
        ensures
            r.bits == self.bits | other.bits,
    {
        Flags { bits: self.bits | other.bits }
    }

    /// These flags with the bits of `other` taken out.
    pub fn without(&self, other: Flags) -> (r: Flags)
        ensures
            r.bits == self.bits & !other.bits,
    {
        Flags { bits: self.bits & !other.bits }
    }
}

/// Whether a flag byte carries the given bit.
pub open spec fn has_flag(bits: u8, flag: u8) -> bool {
    bits & flag == flag
}

/// One binary key/value pair.
#[derive(Debug, Clone, PartialEq, Eq)]
pub struct Header {
    pub key: Vec<u8>,
    pub value: Vec<u8>,
}

pub ghost struct HeaderView {
    pub key: Seq<u8>,
    pub value: Seq<u8>,
}

impl View for Header {
    type V = HeaderView;

    open spec fn view(&self) -> HeaderView {
        HeaderView { key: self.key@, value: self.value@ }
    }
}

/// One protocol message.
#[derive(Debug, Clone, PartialEq, Eq)]
pub struct Frame {
    pub version: u8,
    pub typ: FrameType,
    pub flags: Flags,
    pub headers: Vec<Header>,
    pub payload: Vec<u8>,
}

pub ghost struct FrameView {
    pub version: u8,
    pub typ: FrameType,
    pub flags: u8,
    pub headers: Seq<HeaderView>,
    pub payload: Seq<u8>,
}

pub open spec fn headers_view(hs: Seq<Header>) -> Seq<HeaderView> {
    hs.map_values(|h: Header| h@)
}

impl View for Frame {
    type V = FrameView;

    open spec fn view(&self) -> FrameView {
        FrameView {
            version: self.version,
            typ: self.typ,
            flags: self.flags.bits,
            headers: headers_view(self.headers@),
            payload: self.payload@,
        }
    }
}

/// A fresh vector holding the bytes of a slice.
pub fn copy_bytes(s: &[u8]) -> (r: Vec<u8>)
    ensures
        r@ == s@,
{
    let mut out: Vec<u8> = Vec::with_capacity(s.len());
    let mut i: usize = 0;
    while i < s.len()
        invariant
            i <= s.len(),
            out@ == s@.subrange(0, i as int),
        decreases s.len() - i,
    {
        out.push(s[i]);
        i = i + 1;
        assert(out@ =~= s@.subrange(0, i as int));
    }
    assert(s@.subrange(0, s.len() as int) =~= s@);
    out
}

/// A copy of a header that is equal to it.
pub fn clone_header(h: &Header) -> (r: Header)
    ensures
        r@ == h@,
{
    Header { key: h.key.clone(), value: h.value.clone() }
}

/// A copy of a header list whose view is equal to it.
pub fn clone_headers(hs: &Vec<Header>) -> (r: Vec<Header>)
    ensures
        headers_view(r@) == headers_view(hs@),
{
    let mut out: Vec<Header> = Vec::new();
    let mut i: usize = 0;
    while i < hs.len()
        invariant
            i <= hs.len(),
            out.len() == i,
            forall|j: int| 0 <= j < i ==> out@[j]@ == hs@[j]@,
        decreases hs.len() - i,
    {
        out.push(clone_header(&hs[i]));
        i = i + 1;
    }
    assert(headers_view(out@) =~= headers_view(hs@));
    out
}

impl Frame {
    /// A frame of the given type, current version, no flags, headers or payload.
    pub fn new(typ: FrameType) -> (r: Frame)
        ensures
            r@ == (FrameView {
                version: VSTP_VERSION,
                typ,
                flags: 0,
                headers: Seq::empty(),
                payload: Seq::empty(),
            }),
    {
        let r = Frame {
            version: VSTP_VERSION,
            typ,
            flags: Flags::empty(),
            headers: Vec::new(),
            payload: Vec::new(),
        };
        assert(r@.headers =~= Seq::<HeaderView>::empty());
        r
    }

    /// This frame with one more header at the end.
    pub fn with_header(self, key: &[u8], value: &[u8]) -> (r: Frame)
        ensures
            r@ == (FrameView {
                headers: self@.headers.push(HeaderView { key: key@, value: value@ }),
                ..self@
            }),
    {
        let mut r = self;
        let ghost before = r.headers@;
        r.headers.push(Header { key: copy_bytes(key), value: copy_bytes(value) });
        assert(headers_view(r.headers@) =~= headers_view(before).push(
            HeaderView { key: key@, value: value@ },
        ));
        r
    }

    /// This frame with its payload replaced.
    pub fn with_payload(self, payload: Vec<u8>) -> (r: Frame)
        ensures
            r@ == (FrameView { payload: payload@, ..self@ }),
    {
        let mut r = self;
        r.payload = payload;
        r
    }

    /// This frame with the bits of `flag` set.
    pub fn with_flag(self, flag: Flags) -> (r: Frame)
        ensures
            r@ == (FrameView { flags: self@.flags | flag.bits, ..self@ }),
    {
        let mut r = self;
        r.flags = r.flags.union(flag);
        r
    }
}

/// Everything that can go wrong in the protocol core.
#[derive(Debug, Clone, Copy, PartialEq, Eq, Structural)]
pub enum VstpError {
    Io,
    BadMagic,
    UnsupportedVersion,
    UnknownType,
    MalformedHeader,
    FrameTooLarge,
    CrcMismatch,
    AckTimeout,
    InvalidFragment,
}

impl VstpError {
    /// A short human-readable description.
    pub fn describe(&self) -> (r: &'static str) {
        match self {
            VstpError::Io => "I/O error",
            VstpError::BadMagic => "bad magic bytes",
            VstpError::UnsupportedVersion => "unsupported protocol version",
            VstpError::UnknownType => "unknown frame type",
            VstpError::MalformedHeader => "malformed header section",
            VstpError::FrameTooLarge => "frame too large",
            VstpError::CrcMismatch => "CRC mismatch",
            VstpError::AckTimeout => "acknowledgement timed out",
            VstpError::InvalidFragment => "invalid fragment",
        }
    }
}

} // verus!
