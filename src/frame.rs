//! The bit-exact wire format: encoding a frame and incrementally decoding one.
use vstd::prelude::*;
use crate::types::{
    copy_bytes, has_flag, headers_view, type_code, type_of_code, Flags, Frame, FrameType, FrameView,
    Header, HeaderView, VstpError, FLAG_CRC, VSTP_MAGIC_0, VSTP_MAGIC_1, VSTP_VERSION,
};

verus! {

/// The size of the fixed prefix that opens every frame.
pub const PREFIX_LEN: usize = 12;

/// The default bound on the declared size of an incoming frame.
pub const DEFAULT_MAX_FRAME_SIZE: usize = 65536;

/// The IEEE CRC32 of a byte sequence.
pub uninterp spec fn crc32_of(data: Seq<u8>) -> u32;

/// Relies on `crc32fast::hash`: the IEEE CRC32 (reflected polynomial
/// 0xEDB88320, initial value and final xor 0xFFFFFFFF) of the bytes, which
/// depends on the bytes alone.
#[verifier::external_body]
fn crc32(data: &[u8]) -> (r: u32)
    ensures
        r == crc32_of(data@),
{
    crc32fast::hash(data)
}

// ---- byte-level pieces ----

pub open spec fn u16_le(x: u16) -> Seq<u8> {
    seq![x as u8, (x >> 8u16) as u8]
}

pub open spec fn u32_be(x: u32) -> Seq<u8> {
    seq![(x >> 24u32) as u8, (x >> 16u32) as u8, (x >> 8u32) as u8, x as u8]
}

pub open spec fn read_le16(b: Seq<u8>, i: int) -> u16 {
    (b[i] as u16) | ((b[i + 1] as u16) << 8u16)
}

pub open spec fn read_be32(b: Seq<u8>, i: int) -> u32 {
    ((b[i] as u32) << 24u32) | ((b[i + 1] as u32) << 16u32) | ((b[i + 2] as u32) << 8u32) | (b[i
        + 3] as u32)
}

proof fn lemma_u16_le_read(x: u16)
    ensures
        read_le16(u16_le(x), 0) == x,
{
    let b0 = x as u8;
    let b1 = (x >> 8u16) as u8;
    assert((b0 as u16) | ((b1 as u16) << 8u16) == x) by (bit_vector)
        requires
            b0 == x as u8,
            b1 == (x >> 8u16) as u8,
    ;
}

proof fn lemma_u32_be_read(x: u32)
    ensures
        read_be32(u32_be(x), 0) == x,
{
    let b0 = (x >> 24u32) as u8;
    let b1 = (x >> 16u32) as u8;
    let b2 = (x >> 8u32) as u8;
    let b3 = x as u8;
    assert(((b0 as u32) << 24u32) | ((b1 as u32) << 16u32) | ((b2 as u32) << 8u32) | (b3 as u32)
        == x) by (bit_vector)
        requires
            b0 == (x >> 24u32) as u8,
            b1 == (x >> 16u32) as u8,
            b2 == (x >> 8u32) as u8,
            b3 == x as u8,
    ;
}

// ---- header section ----

/// A header whose key and value each fit a one-byte length.
pub open spec fn header_ok(h: HeaderView) -> bool {
    h.key.len() <= 255 && h.value.len() <= 255
}

/// `KLEN | KEY | VLEN | VALUE` for one header.
pub open spec fn entry_bytes(h: HeaderView) -> Seq<u8> {
    seq![h.key.len() as u8] + h.key + seq![h.value.len() as u8] + h.value
}

/// The header section: the entries concatenated in order.
pub open spec fn headers_bytes(hs: Seq<HeaderView>) -> Seq<u8>
    decreases hs.len(),
{
    if hs.len() == 0 {
        Seq::empty()
    } else {
        headers_bytes(hs.drop_last()) + entry_bytes(hs.last())
    }
}

/// The headers that a header section holds; `None` when it ends in a
/// partial entry.
pub open spec fn parse_headers(s: Seq<u8>) -> Option<Seq<HeaderView>>
    decreases s.len(),
{
    if s.len() == 0 {
        Some(Seq::empty())
    } else {
        let kl = s[0] as int;
        if 2 + kl > s.len() {
            None
        } else {
            let vl = s[1 + kl] as int;
            if 2 + kl + vl > s.len() {
                None
            } else {
                let h = HeaderView {
                    key: s.subrange(1, 1 + kl),
                    value: s.subrange(2 + kl, 2 + kl + vl),
                };
                match parse_headers(s.subrange(2 + kl + vl, s.len() as int)) {
                    Some(rest) => Some(seq![h] + rest),
                    None => None,
                }
            }
        }
    }
}

pub open spec fn prepend(acc: Seq<HeaderView>, o: Option<Seq<HeaderView>>) -> Option<
    Seq<HeaderView>,
> {
    match o {
        Some(r) => Some(acc + r),
        None => None,
    }
}

proof fn lemma_headers_bytes_cons(hs: Seq<HeaderView>)
    requires
        hs.len() > 0,
    ensures
        headers_bytes(hs) == entry_bytes(hs[0]) + headers_bytes(hs.drop_first()),
    decreases hs.len(),
{
    if hs.len() == 1 {
        assert(hs.drop_last() =~= Seq::<HeaderView>::empty());
        assert(hs.drop_first() =~= Seq::<HeaderView>::empty());
        assert(headers_bytes(hs) =~= entry_bytes(hs[0]) + headers_bytes(hs.drop_first()));
    } else {
        lemma_headers_bytes_cons(hs.drop_last());
        assert(hs.drop_last().drop_first() =~= hs.drop_first().drop_last());
        assert(hs.drop_first().last() == hs.last());
        assert(hs.drop_last()[0] == hs[0]);
        assert(headers_bytes(hs) =~= entry_bytes(hs[0]) + headers_bytes(hs.drop_first()));
    }
}

proof fn lemma_parse_entry(h: HeaderView, t: Seq<u8>)
    requires
        header_ok(h),
    ensures
        parse_headers(entry_bytes(h) + t) == prepend(seq![h], parse_headers(t)),
{
    let s = entry_bytes(h) + t;
    let kl = h.key.len() as int;
    let vl = h.value.len() as int;
    assert(s[0] == kl as u8);
    assert(s[1 + kl] == vl as u8);
    assert(s.subrange(1, 1 + kl) =~= h.key);
    assert(s.subrange(2 + kl, 2 + kl + vl) =~= h.value);
    assert(s.subrange(2 + kl + vl, s.len() as int) =~= t);
}

/// A header section that was written from headers is read back as them.
pub proof fn lemma_parse_headers_bytes(hs: Seq<HeaderView>)
    requires
        forall|j: int| 0 <= j < hs.len() ==> header_ok(#[trigger] hs[j]),
    ensures
        parse_headers(headers_bytes(hs)) == Some(hs),
    decreases hs.len(),
{
    if hs.len() == 0 {
        assert(headers_bytes(hs) =~= Seq::<u8>::empty());
        assert(hs =~= Seq::<HeaderView>::empty());
    } else {
        lemma_headers_bytes_cons(hs);
        let rest = hs.drop_first();
        assert forall|j: int| 0 <= j < rest.len() implies header_ok(#[trigger] rest[j]) by {
            assert(rest[j] == hs[j + 1]);
        }
        lemma_parse_headers_bytes(rest);
        assert(header_ok(hs[0]));
        lemma_parse_entry(hs[0], headers_bytes(rest));
        assert(seq![hs[0]] + rest =~= hs);
    }
}

// ---- whole frames ----

/// Whether the encoder accepts a frame: every key and value fits its length
/// byte, the header section its 16-bit field and the payload its 32-bit field.
pub open spec fn encodable(f: FrameView) -> bool {
    &&& forall|j: int| 0 <= j < f.headers.len() ==> header_ok(#[trigger] f.headers[j])
    &&& headers_bytes(f.headers).len() <= 65535
    &&& f.payload.len() <= 4294967295
}

/// The twelve-byte fixed prefix.
pub open spec fn prefix_bytes(f: FrameView) -> Seq<u8> {
    seq![VSTP_MAGIC_0, VSTP_MAGIC_1, f.version, type_code(f.typ), f.flags] + u16_le(
        headers_bytes(f.headers).len() as u16,
    ) + u32_be(f.payload.len() as u32) + seq![0u8]
}

/// The CRC trailer, present exactly when the CRC flag is set.
pub open spec fn trailer_bytes(f: FrameView) -> Seq<u8> {
    if has_flag(f.flags, FLAG_CRC) {
        u32_be(crc32_of(headers_bytes(f.headers) + f.payload))
    } else {
        Seq::empty()
    }
}

/// The bytes of an encoded frame.
pub open spec fn frame_bytes(f: FrameView) -> Seq<u8> {
    prefix_bytes(f) + headers_bytes(f.headers) + f.payload + trailer_bytes(f)
}

/// The size of an encoded frame: `12 + hdr_len + pay_len (+ 4 with CRC)`.
pub open spec fn frame_size(f: FrameView) -> nat {
    12 + headers_bytes(f.headers).len() + f.payload.len() + if has_flag(f.flags, FLAG_CRC) {
        4nat
    } else {
        0nat
    }
}

pub proof fn lemma_frame_size(f: FrameView)
    ensures
        frame_bytes(f).len() == frame_size(f),
{
}

/// What the streaming decoder makes of the front of a buffer.
pub ghost enum DecodeOutcome {
    /// A frame and the number of bytes it took.
    Complete(FrameView, nat),
    /// The buffer is a strict prefix of a frame.
    NeedMore,
    Failed(VstpError),
}

pub open spec fn declared_hdr_len(b: Seq<u8>) -> nat {
    read_le16(b, 5) as nat
}

pub open spec fn declared_pay_len(b: Seq<u8>) -> nat {
    read_be32(b, 7) as nat
}

pub open spec fn declared_total(b: Seq<u8>) -> nat {
    12 + declared_hdr_len(b) + declared_pay_len(b) + if has_flag(b[4], FLAG_CRC) {
        4nat
    } else {
        0nat
    }
}

/// The streaming decoder's verdict on the front of `b`, with `max` the
/// bound on the declared header and payload sizes together.
pub open spec fn decode_spec(b: Seq<u8>, max: nat) -> DecodeOutcome {
    if b.len() < 12 {
        DecodeOutcome::NeedMore
    } else if b[0] != VSTP_MAGIC_0 || b[1] != VSTP_MAGIC_1 {
        DecodeOutcome::Failed(VstpError::BadMagic)
    } else if b[2] != VSTP_VERSION {
        DecodeOutcome::Failed(VstpError::UnsupportedVersion)
    } else if type_of_code(b[3]) is None {
        DecodeOutcome::Failed(VstpError::UnknownType)
    } else if declared_hdr_len(b) + declared_pay_len(b) > max {
        DecodeOutcome::Failed(VstpError::FrameTooLarge)
    } else if b.len() < declared_total(b) {
        DecodeOutcome::NeedMore
    } else {
        let h = declared_hdr_len(b) as int;
        let p = declared_pay_len(b) as int;
        if has_flag(b[4], FLAG_CRC) && read_be32(b, 12 + h + p) != crc32_of(
            b.subrange(12, 12 + h + p),
        ) {
            DecodeOutcome::Failed(VstpError::CrcMismatch)
        } else {
            match parse_headers(b.subrange(12, 12 + h)) {
                None => DecodeOutcome::Failed(VstpError::MalformedHeader),
                Some(hs) => DecodeOutcome::Complete(
                    FrameView {
                        version: b[2],
                        typ: type_of_code(b[3])->Some_0,
                        flags: b[4],
                        headers: hs,
                        payload: b.subrange(12 + h, 12 + h + p),
                    },
                    declared_total(b),
                ),
            }
        }
    }
}

/// Whether an executable decode result says what `o` says.
pub open spec fn decode_agrees(r: Result<Option<(Frame, usize)>, VstpError>, o: DecodeOutcome) -> bool {
    match o {
        DecodeOutcome::Complete(fv, n) => match r {
            Ok(Some((f, m))) => f@ == fv && m == n,
            _ => false,
        },
        DecodeOutcome::NeedMore => r matches Ok(None),
        DecodeOutcome::Failed(e) => match r {
            Err(x) => x == e,
            _ => false,
        },
    }
}

// ---- laws of the codec ----

proof fn lemma_prefix_fields(f: FrameView, b: Seq<u8>)
    requires
        encodable(f),
        b.len() >= 12,
        b.subrange(0, 12) == frame_bytes(f).subrange(0, 12),
    ensures
        b[0] == VSTP_MAGIC_0 && b[1] == VSTP_MAGIC_1,
        b[2] == f.version,
        type_of_code(b[3]) == Some(f.typ),
        b[4] == f.flags,
        declared_hdr_len(b) == headers_bytes(f.headers).len(),
        declared_pay_len(b) == f.payload.len(),
        declared_total(b) == frame_size(f),
{
    let fb = frame_bytes(f);
    let hl = headers_bytes(f.headers).len() as u16;
    let pl = f.payload.len() as u32;
    assert(fb.subrange(0, 12) =~= prefix_bytes(f));
    assert(b[0] == fb.subrange(0, 12)[0]);
    assert(b[1] == fb.subrange(0, 12)[1]);
    assert(b[2] == fb.subrange(0, 12)[2]);
    assert(b[3] == fb.subrange(0, 12)[3]);
    assert(b[4] == fb.subrange(0, 12)[4]);
    assert(b[5] == fb.subrange(0, 12)[5]);
    assert(b[6] == fb.subrange(0, 12)[6]);
    assert(b[7] == fb.subrange(0, 12)[7]);
    assert(b[8] == fb.subrange(0, 12)[8]);
    assert(b[9] == fb.subrange(0, 12)[9]);
    assert(b[10] == fb.subrange(0, 12)[10]);
    lemma_u16_le_read(hl);
    lemma_u32_be_read(pl);
    assert(read_le16(b, 5) == read_le16(u16_le(hl), 0));
    assert(read_be32(b, 7) == read_be32(u32_be(pl), 0));
}

/// Decoding an encoded frame gives the frame back and takes all of its bytes.
pub proof fn lemma_round_trip(f: FrameView, max: nat)
    requires
        encodable(f),
        f.version == VSTP_VERSION,
        headers_bytes(f.headers).len() + f.payload.len() <= max,
    ensures
        decode_spec(frame_bytes(f), max) == DecodeOutcome::Complete(f, frame_bytes(f).len()),
{
    let b = frame_bytes(f);
    let hb = headers_bytes(f.headers);
    let h = hb.len() as int;
    let p = f.payload.len() as int;
    lemma_prefix_fields(f, b);
    assert(b.subrange(12, 12 + h) =~= hb);
    assert(b.subrange(12 + h, 12 + h + p) =~= f.payload);
    assert(b.subrange(12, 12 + h + p) =~= hb + f.payload);
    if has_flag(f.flags, FLAG_CRC) {
        let c = crc32_of(hb + f.payload);
        lemma_u32_be_read(c);
        assert(b.subrange(12 + h + p, 16 + h + p) =~= u32_be(c));
        assert(read_be32(b, 12 + h + p) == read_be32(u32_be(c), 0));
    }
    lemma_parse_headers_bytes(f.headers);
    lemma_frame_size(f);
}

/// Every strict prefix of an encoded frame asks for more bytes.
pub proof fn lemma_prefix_needs_more(f: FrameView, max: nat, k: int)
    requires
        encodable(f),
        f.version == VSTP_VERSION,
        headers_bytes(f.headers).len() + f.payload.len() <= max,
        0 <= k < frame_bytes(f).len(),
    ensures
        decode_spec(frame_bytes(f).subrange(0, k), max) == DecodeOutcome::NeedMore,
{
    let b = frame_bytes(f).subrange(0, k);
    if k >= 12 {
        assert(b.subrange(0, 12) =~= frame_bytes(f).subrange(0, 12));
        lemma_prefix_fields(f, b);
        lemma_frame_size(f);
    }
}

/// Fed one byte at a time, the decoder asks for more until the last byte
/// arrives, then yields the frame and leaves nothing behind, on which it
/// asks for more again.
pub proof fn lemma_streaming(f: FrameView, max: nat)
    requires
        encodable(f),
        f.version == VSTP_VERSION,
        headers_bytes(f.headers).len() + f.payload.len() <= max,
    ensures
        forall|k: int|
            0 <= k < frame_bytes(f).len() ==> #[trigger] decode_spec(
                frame_bytes(f).subrange(0, k),
                max,
            ) == DecodeOutcome::NeedMore,
        decode_spec(frame_bytes(f).subrange(0, frame_bytes(f).len() as int), max)
            == DecodeOutcome::Complete(f, frame_bytes(f).len()),
        frame_bytes(f).subrange(frame_bytes(f).len() as int, frame_bytes(f).len() as int).len()
            == 0,
        decode_spec(Seq::empty(), max) == DecodeOutcome::NeedMore,
{
    assert forall|k: int| 0 <= k < frame_bytes(f).len() implies #[trigger] decode_spec(
        frame_bytes(f).subrange(0, k),
        max,
    ) == DecodeOutcome::NeedMore by {
        lemma_prefix_needs_more(f, max, k);
    }
    assert(frame_bytes(f).subrange(0, frame_bytes(f).len() as int) =~= frame_bytes(f));
    lemma_round_trip(f, max);
}

// ---- executable codec ----

/// Appends the bytes of `s` to `out`.
pub fn append_bytes(out: &mut Vec<u8>, s: &[u8])
    ensures
        final(out)@ == old(out)@ + s@,
{
    let mut i: usize = 0;
    while i < s.len()
        invariant
            i <= s.len(),
            out@ == old(out)@ + s@.subrange(0, i as int),
        decreases s.len() - i,
    {
        out.push(s[i]);
        i = i + 1;
        assert(out@ =~= old(out)@ + s@.subrange(0, i as int));
    }
    assert(s@.subrange(0, s.len() as int) =~= s@);
}

fn push_u32_be(out: &mut Vec<u8>, x: u32)
    ensures
        final(out)@ == old(out)@ + u32_be(x),
{
    out.push((x >> 24u32) as u8);
    out.push((x >> 16u32) as u8);
    out.push((x >> 8u32) as u8);
    out.push(x as u8);
    assert(final(out)@ =~= old(out)@ + u32_be(x));
}

/// The header section of a header list, or `None` when a key or a value is
/// longer than 255 bytes.
pub fn encode_headers(headers: &Vec<Header>) -> (r: Option<Vec<u8>>)
    ensures
        match r {
            Some(hb) => (forall|j: int|
                0 <= j < headers@.len() ==> header_ok(#[trigger] headers_view(headers@)[j]))
                && hb@ == headers_bytes(headers_view(headers@)),
            None => exists|j: int|
                0 <= j < headers@.len() && !header_ok(#[trigger] headers_view(headers@)[j]),
        },
{
    let ghost hv = headers_view(headers@);
    let mut hb: Vec<u8> = Vec::new();
    let mut i: usize = 0;
    while i < headers.len()
        invariant
            i <= headers.len(),
            hv == headers_view(headers@),
            hv.len() == headers@.len(),
            forall|j: int| 0 <= j < i ==> header_ok(#[trigger] hv[j]),
            hb@ == headers_bytes(hv.take(i as int)),
        decreases headers.len() - i,
    {
        let h = &headers[i];
        assert(hv[i as int] == h@);
        if h.key.len() > 255 || h.value.len() > 255 {
            return None;
        }
        let ghost before = hb@;
        hb.push(h.key.len() as u8);
        append_bytes(&mut hb, h.key.as_slice());
        hb.push(h.value.len() as u8);
        append_bytes(&mut hb, h.value.as_slice());
        proof {
            assert(hv.take(i + 1).drop_last() =~= hv.take(i as int));
            assert(hv.take(i + 1).last() == h@);
            assert(hb@ =~= before + entry_bytes(h@));
        }
        i = i + 1;
    }
    assert(hv.take(i as int) =~= hv);
    Some(hb)
}

/// Encodes a frame into a fresh byte vector; `FrameTooLarge` when a header
/// key or value exceeds 255 bytes, the header section 65,535 bytes or the
/// payload 2^32 - 1 bytes.
pub fn encode_frame(frame: &Frame) -> (r: Result<Vec<u8>, VstpError>)
    ensures
        match r {
            Ok(b) => encodable(frame@) && b@ == frame_bytes(frame@),
            Err(e) => !encodable(frame@) && e == VstpError::FrameTooLarge,
        },
{
    let hb = match encode_headers(&frame.headers) {
        Some(hb) => hb,
        None => {
            return Err(VstpError::FrameTooLarge);
        },
    };
    if hb.len() > 65535 || frame.payload.len() > 4294967295 {
        return Err(VstpError::FrameTooLarge);
    }
    let hl: u16 = hb.len() as u16;
    let pl: u32 = frame.payload.len() as u32;
    let mut out: Vec<u8> = Vec::new();
    out.push(VSTP_MAGIC_0);
    out.push(VSTP_MAGIC_1);
    out.push(frame.version);
    out.push(frame.typ.to_u8());
    out.push(frame.flags.bits);
    out.push(hl as u8);
    out.push((hl >> 8u16) as u8);
    push_u32_be(&mut out, pl);
    out.push(0u8);
    assert(out@ =~= prefix_bytes(frame@));
    append_bytes(&mut out, hb.as_slice());
    append_bytes(&mut out, frame.payload.as_slice());
    if frame.flags.bits & FLAG_CRC == FLAG_CRC {
        let mut body: Vec<u8> = Vec::new();
        append_bytes(&mut body, hb.as_slice());
        append_bytes(&mut body, frame.payload.as_slice());
        let c = crc32(body.as_slice());
        push_u32_be(&mut out, c);
    }
    assert(out@ =~= frame_bytes(frame@));
    Ok(out)
}

/// Reads the headers of the header section `b[start..end)`.
fn decode_headers(b: &[u8], start: usize, end: usize) -> (r: Option<Vec<Header>>)
    requires
        start <= end <= b@.len(),
    ensures
        match r {
            Some(hs) => parse_headers(b@.subrange(start as int, end as int)) == Some(
                headers_view(hs@),
            ),
            None => parse_headers(b@.subrange(start as int, end as int)) is None,
        },
{
    let ghost s = b@.subrange(start as int, end as int);
    let mut out: Vec<Header> = Vec::new();
    let mut pos: usize = start;
    while pos < end
        invariant
            start <= pos <= end <= b@.len(),
            s == b@.subrange(start as int, end as int),
            parse_headers(s) == prepend(
                headers_view(out@),
                parse_headers(b@.subrange(pos as int, end as int)),
            ),
        decreases end - pos,
    {
        let ghost t = b@.subrange(pos as int, end as int);
        let kl: usize = b[pos] as usize;
        assert(t[0] == b@[pos as int]);
        if end - pos < 2 + kl {
            return None;
        }
        let vl: usize = b[pos + 1 + kl] as usize;
        assert(t[1 + kl] == b@[pos + 1 + kl]);
        if end - pos < 2 + kl + vl {
            return None;
        }
        let key = copy_bytes(&b[pos + 1..pos + 1 + kl]);
        let value = copy_bytes(&b[pos + 2 + kl..pos + 2 + kl + vl]);
        let ghost before = headers_view(out@);
        let h = Header { key, value };
        proof {
            assert(t.subrange(1, 1 + kl) =~= key@);
            assert(t.subrange(2 + kl, 2 + kl + vl) =~= value@);
            assert(t.subrange(2 + kl + vl, t.len() as int) =~= b@.subrange(
                pos + 2 + kl + vl,
                end as int,
            ));
        }
        out.push(h);
        proof {
            assert(headers_view(out@) =~= before.push(h@));
            match parse_headers(b@.subrange(pos + 2 + kl + vl, end as int)) {
                Some(rest) => {
                    assert(before + (seq![h@] + rest) =~= before.push(h@) + rest);
                },
                None => {},
            }
        }
        pos = pos + 2 + kl + vl;
    }
    assert(b@.subrange(pos as int, end as int) =~= Seq::<u8>::empty());
    assert(headers_view(out@) + Seq::<HeaderView>::empty() =~= headers_view(out@));
    Some(out)
}

/// Decodes one frame from the front of `b` without consuming anything:
/// the frame and its size, `None` when `b` is a strict prefix of a frame,
/// or the error.
pub fn decode_frame(b: &[u8], max_frame_size: usize) -> (r: Result<Option<(Frame, usize)>, VstpError>)
    ensures
        decode_agrees(r, decode_spec(b@, max_frame_size as nat)),
{
    if b.len() < PREFIX_LEN {
        return Ok(None);
    }
    if b[0] != VSTP_MAGIC_0 || b[1] != VSTP_MAGIC_1 {
        return Err(VstpError::BadMagic);
    }
    if b[2] != VSTP_VERSION {
        return Err(VstpError::UnsupportedVersion);
    }
    let typ = match FrameType::from_u8(b[3]) {
        Some(t) => t,
        None => {
            return Err(VstpError::UnknownType);
        },
    };
    let flags: u8 = b[4];
    let hl: u16 = (b[5] as u16) | ((b[6] as u16) << 8u16);
    let pl: u32 = ((b[7] as u32) << 24u32) | ((b[8] as u32) << 16u32) | ((b[9] as u32) << 8u32)
        | (b[10] as u32);
    assert(hl == read_le16(b@, 5));
    assert(pl == read_be32(b@, 7));
    let has_crc = flags & FLAG_CRC == FLAG_CRC;
    let hp: u64 = hl as u64 + pl as u64;
    if hp > max_frame_size as u64 {
        return Err(VstpError::FrameTooLarge);
    }
    let total: u64 = if has_crc {
        12 + hp + 4
    } else {
        12 + hp
    };
    if (b.len() as u64) < total {
        return Ok(None);
    }
    let h: usize = hl as usize;
    let p: usize = pl as usize;
    if has_crc {
        let want: u32 = ((b[12 + h + p] as u32) << 24u32) | ((b[13 + h + p] as u32) << 16u32) | ((b[14
            + h + p] as u32) << 8u32) | (b[15 + h + p] as u32);
        assert(want == read_be32(b@, 12 + h + p));
        let got = crc32(&b[12..12 + h + p]);
        if want != got {
            return Err(VstpError::CrcMismatch);
        }
    }
    let headers = match decode_headers(b, 12, 12 + h) {
        Some(hs) => hs,
        None => {
            return Err(VstpError::MalformedHeader);
        },
    };
    let payload = copy_bytes(&b[12 + h..12 + h + p]);
    let frame = Frame { version: b[2], typ, flags: Flags { bits: flags }, headers, payload };
    Ok(Some((frame, total as usize)))
}

/// The streaming decoder: takes one frame off the front of `buf` when a
/// whole one is there, leaves `buf` as it was when more bytes are needed or
/// the bytes are in error.
pub fn try_decode_frame(buf: &mut Vec<u8>, max_frame_size: usize) -> (r: Result<Option<Frame>, VstpError>)
    ensures
        match decode_spec(old(buf)@, max_frame_size as nat) {
            DecodeOutcome::Complete(fv, n) => (r matches Ok(Some(f)) && f@ == fv) && final(buf)@
                == old(buf)@.subrange(n as int, old(buf)@.len() as int),
            DecodeOutcome::NeedMore => r matches Ok(None) && final(buf)@ == old(buf)@,
            DecodeOutcome::Failed(e) => r == Err::<Option<Frame>, VstpError>(e) && final(buf)@
                == old(buf)@,
        },
{
    let res = decode_frame(buf.as_slice(), max_frame_size);
    match res {
        Ok(Some((frame, n))) => {
            let rest = copy_bytes(&buf.as_slice()[n..buf.len()]);
            *buf = rest;
            Ok(Some(frame))
        },
        Ok(None) => Ok(None),
        Err(e) => Err(e),
    }
}

} // verus!
