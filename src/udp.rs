//! The datagram binding's decisions: what a received datagram yields (a
//! frame to deliver, an acknowledgement to send back), what datagrams a
//! frame is sent as, and when a sender waiting for an acknowledgement
//! retransmits or gives up.
use vstd::prelude::*;
use crate::decimal::{
    dec_digits, lemma_dec_len_u64, lemma_parse_dec_digits, parse_dec, parse_u64_dec, u64_to_dec,
};
use crate::fragment::{
    concat_payloads, frag_count, frag_headers, fragment_frame, fragmentable, fragments_of,
    key_frag_id, key_frag_index, key_frag_total, lemma_fragments_exact,
};
use crate::frame::{
    decode_frame, encodable, encode_frame, entry_bytes, frame_bytes, frame_size,
    headers_bytes, lemma_frame_size, DecodeOutcome, decode_spec, DEFAULT_MAX_FRAME_SIZE,
};
use crate::reassembly::{
    add_spec, arrivals, concat_chunks, deliver_seq, find_from, groups_valid,
    is_permutation, lemma_duplicate_ignored, lemma_reassembly_any_order, live, surfaced, FragmentInfo, FragmentView,
    GroupView, PeerAddr, ReassemblyManager, DEFAULT_MAX_GROUPS,
};
use crate::types::{
    clone_header, copy_bytes, has_flag, headers_view, Flags, Frame, FrameType, FrameView, Header,
    HeaderView, VstpError, FLAG_FRAG, FLAG_REQ_ACK, VSTP_VERSION,
};

verus! {

/// How long a sender waits for an acknowledgement, in milliseconds.
pub const ACK_TIMEOUT_MS: u64 = 2000;

/// How many times a sender transmits a frame before giving up.
pub const ACK_MAX_ATTEMPTS: u32 = 3;

/// Settings of a datagram server.
#[derive(Debug, Clone)]
pub struct UdpServerConfig {
    /// Whether to use CRC validation.
    pub use_crc: bool,
    /// Whether to allow fragmentation.
    pub allow_frag: bool,
    /// Maximum number of concurrent reassembly groups.
    pub max_reassembly_sessions: usize,
}

impl Default for UdpServerConfig {
    fn default() -> (r: Self)
        ensures
            r.use_crc,
            r.allow_frag,
            r.max_reassembly_sessions == DEFAULT_MAX_GROUPS,
    {
        UdpServerConfig { use_crc: true, allow_frag: true, max_reassembly_sessions: DEFAULT_MAX_GROUPS }
    }
}

// ---- reading reserved headers ----

pub open spec fn key_msg_id() -> Seq<u8> {
    seq![109u8, 115, 103, 45, 105, 100]
}

pub fn msg_id_key() -> (r: Vec<u8>)
    ensures
        r@ == key_msg_id(),
{
    let r = vec![109u8, 115, 103, 45, 105, 100];
    assert(r@ =~= key_msg_id());
    r
}

/// The number carried by the first header with key `key` whose value reads
/// as a decimal number.
pub open spec fn find_dec(hs: Seq<HeaderView>, key: Seq<u8>) -> Option<u64>
    decreases hs.len(),
{
    if hs.len() == 0 {
        None
    } else if hs[0].key == key && parse_dec(hs[0].value) is Some {
        parse_dec(hs[0].value)
    } else {
        find_dec(hs.drop_first(), key)
    }
}

/// Whether two byte strings are equal.
pub fn bytes_eq(a: &[u8], b: &[u8]) -> (r: bool)
    ensures
        r == (a@ == b@),
{
    if a.len() != b.len() {
        return false;
    }
    let mut i: usize = 0;
    while i < a.len()
        invariant
            i <= a.len() == b.len(),
            a@.subrange(0, i as int) == b@.subrange(0, i as int),
        decreases a.len() - i,
    {
        if a[i] != b[i] {
            assert(a@[i as int] != b@[i as int]);
            return false;
        }
        assert(a@.subrange(0, i + 1) =~= a@.subrange(0, i as int).push(a@[i as int]));
        assert(b@.subrange(0, i + 1) =~= b@.subrange(0, i as int).push(b@[i as int]));
        i = i + 1;
    }
    assert(a@ =~= a@.subrange(0, i as int));
    assert(b@ =~= b@.subrange(0, i as int));
    true
}

/// Looks up a header holding a decimal number.
pub fn header_u64(headers: &Vec<Header>, key: &[u8]) -> (r: Option<u64>)
    ensures
        r == find_dec(headers_view(headers@), key@),
{
    let ghost hv = headers_view(headers@);
    assert(hv.skip(0) =~= hv);
    let mut i: usize = 0;
    while i < headers.len()
        invariant
            i <= headers@.len() == hv.len(),
            hv == headers_view(headers@),
            find_dec(hv, key@) == find_dec(hv.skip(i as int), key@),
        decreases headers@.len() - i,
    {
        let h = &headers[i];
        assert(hv.skip(i as int)[0] == h@);
        assert(hv.skip(i as int).drop_first() =~= hv.skip(i + 1));
        if bytes_eq(h.key.as_slice(), key) {
            let v = parse_u64_dec(h.value.as_slice());
            if v.is_some() {
                return v;
            }
        }
        i = i + 1;
    }
    assert(hv.skip(i as int) =~= Seq::<HeaderView>::empty());
    None
}

/// The `msg-id` a frame carries, if any.
pub fn extract_msg_id(frame: &Frame) -> (r: Option<u64>)
    ensures
        r == find_dec(frame@.headers, key_msg_id()),
{
    let k = msg_id_key();
    header_u64(&frame.headers, k.as_slice())
}

/// The fragment that a fragment frame carries; `None` when one of the three
/// fragment headers is missing or malformed or the index is not below the count.
pub open spec fn fragment_info_spec(f: FrameView) -> Option<FragmentView> {
    match (
        find_dec(f.headers, key_frag_id()),
        find_dec(f.headers, key_frag_index()),
        find_dec(f.headers, key_frag_total()),
    ) {
        (Some(id), Some(ix), Some(tot)) => if ix < tot && tot <= usize::MAX {
            Some(
                FragmentView {
                    frag_id: id,
                    index: ix as nat,
                    total: tot as nat,
                    data: f.payload,
                    req_ack: has_flag(f.flags, FLAG_REQ_ACK),
                },
            )
        } else {
            None
        },
        _ => None,
    }
}

/// Reads the fragment headers of a frame.
pub fn extract_fragment_info(frame: &Frame) -> (r: Option<FragmentInfo>)
    ensures
        match r {
            Some(fi) => fragment_info_spec(frame@) == Some(fi@) && fi.index < fi.total,
            None => fragment_info_spec(frame@) is None,
        },
{
    let k_id = crate::fragment::frag_id_key();
    let k_ix = crate::fragment::frag_index_key();
    let k_tot = crate::fragment::frag_total_key();
    let id = header_u64(&frame.headers, k_id.as_slice());
    let ix = header_u64(&frame.headers, k_ix.as_slice());
    let tot = header_u64(&frame.headers, k_tot.as_slice());
    match (id, ix, tot) {
        (Some(id), Some(ix), Some(tot)) => {
            if ix < tot && tot <= usize::MAX as u64 {
                Some(
                    FragmentInfo {
                        frag_id: id,
                        index: ix as usize,
                        total: tot as usize,
                        data: copy_bytes(frame.payload.as_slice()),
                        req_ack: frame.flags.bits & FLAG_REQ_ACK == FLAG_REQ_ACK,
                    },
                )
            } else {
                None
            }
        },
        _ => None,
    }
}

// ---- dropping the fragment headers from a reassembled frame ----

pub open spec fn is_frag_key(k: Seq<u8>) -> bool {
    k == key_frag_id() || k == key_frag_index() || k == key_frag_total()
}

/// The headers without the three fragment headers, in their order.
pub open spec fn strip_frag(hs: Seq<HeaderView>) -> Seq<HeaderView>
    decreases hs.len(),
{
    if hs.len() == 0 {
        hs
    } else if is_frag_key(hs.last().key) {
        strip_frag(hs.drop_last())
    } else {
        strip_frag(hs.drop_last()).push(hs.last())
    }
}

fn strip_fragment_headers(headers: &Vec<Header>) -> (r: Vec<Header>)
    ensures
        headers_view(r@) == strip_frag(headers_view(headers@)),
{
    let ghost hv = headers_view(headers@);
    let k_id = crate::fragment::frag_id_key();
    let k_ix = crate::fragment::frag_index_key();
    let k_tot = crate::fragment::frag_total_key();
    let mut out: Vec<Header> = Vec::new();
    let mut i: usize = 0;
    while i < headers.len()
        invariant
            i <= headers@.len() == hv.len(),
            hv == headers_view(headers@),
            k_id@ == key_frag_id(),
            k_ix@ == key_frag_index(),
            k_tot@ == key_frag_total(),
            headers_view(out@) == strip_frag(hv.take(i as int)),
        decreases headers@.len() - i,
    {
        let h = &headers[i];
        assert(hv.take(i + 1).drop_last() =~= hv.take(i as int));
        assert(hv.take(i + 1).last() == h@);
        let skip = bytes_eq(h.key.as_slice(), k_id.as_slice()) || bytes_eq(
            h.key.as_slice(),
            k_ix.as_slice(),
        ) || bytes_eq(h.key.as_slice(), k_tot.as_slice());
        if !skip {
            let ghost before = headers_view(out@);
            out.push(clone_header(h));
            assert(headers_view(out@) =~= before.push(h@));
        }
        i = i + 1;
    }
    assert(hv.take(i as int) =~= hv);
    out
}

// ---- acknowledgements ----

/// The acknowledgement of message `msg_id`: an ACK frame, no flags, one
/// `msg-id` header, empty payload.
pub open spec fn ack_view(msg_id: u64) -> FrameView {
    FrameView {
        version: VSTP_VERSION,
        typ: FrameType::Ack,
        flags: 0,
        headers: seq![HeaderView { key: key_msg_id(), value: dec_digits(msg_id as nat) }],
        payload: Seq::empty(),
    }
}

/// Builds the acknowledgement of message `msg_id`.
pub fn ack_frame(msg_id: u64) -> (r: Frame)
    ensures
        r@ == ack_view(msg_id),
{
    let mut headers: Vec<Header> = Vec::new();
    headers.push(Header { key: msg_id_key(), value: u64_to_dec(msg_id) });
    let r = Frame {
        version: VSTP_VERSION,
        typ: FrameType::Ack,
        flags: Flags { bits: 0 },
        headers,
        payload: Vec::new(),
    };
    assert(r@.headers =~= ack_view(msg_id).headers);
    assert(r@.payload =~= Seq::<u8>::empty());
    r
}

proof fn lemma_ack_encodable(msg_id: u64)
    ensures
        encodable(ack_view(msg_id)),
{
    let f = ack_view(msg_id);
    lemma_dec_len_u64(msg_id as nat);
    assert(f.headers.drop_last() =~= Seq::<HeaderView>::empty());
    assert(headers_bytes(f.headers.drop_last()).len() == 0);
    assert(f.headers.last() == f.headers[0]);
    assert(headers_bytes(f.headers).len() == entry_bytes(f.headers[0]).len());
}

/// The acknowledgement, encoded, that a delivered frame calls for: one when
/// the frame asks for it and carries a readable `msg-id`.
pub open spec fn ack_spec(f: FrameView) -> Option<Seq<u8>> {
    if has_flag(f.flags, FLAG_REQ_ACK) {
        match find_dec(f.headers, key_msg_id()) {
            Some(id) => Some(frame_bytes(ack_view(id))),
            None => None,
        }
    } else {
        None
    }
}

/// The encoded acknowledgement of message `msg_id`.
pub fn encode_ack(msg_id: u64) -> (r: Vec<u8>)
    ensures
        r@ == frame_bytes(ack_view(msg_id)),
{
    let f = ack_frame(msg_id);
    proof {
        lemma_ack_encodable(msg_id);
    }
    match encode_frame(&f) {
        Ok(b) => b,
        Err(_) => Vec::new(),
    }
}

/// The acknowledgement that `frame` calls for, encoded.
pub fn ack_for(frame: &Frame) -> (r: Option<Vec<u8>>)
    ensures
        match r {
            Some(b) => ack_spec(frame@) == Some(b@),
            None => ack_spec(frame@) is None,
        },
{
    if frame.flags.bits & FLAG_REQ_ACK == FLAG_REQ_ACK {
        match extract_msg_id(frame) {
            Some(id) => Some(encode_ack(id)),
            None => None,
        }
    } else {
        None
    }
}

/// Whether `frame` acknowledges message `msg_id`.
pub open spec fn acknowledges(f: FrameView, msg_id: u64) -> bool {
    f.typ == FrameType::Ack && find_dec(f.headers, key_msg_id()) == Some(msg_id)
}

pub fn is_ack_for(frame: &Frame, msg_id: u64) -> (r: bool)
    ensures
        r == acknowledges(frame@, msg_id),
{
    match frame.typ {
        FrameType::Ack => match extract_msg_id(frame) {
            Some(id) => id == msg_id,
            None => false,
        },
        _ => false,
    }
}

/// This frame with a `msg-id` header added at the end.
pub fn with_msg_id(frame: Frame, msg_id: u64) -> (r: Frame)
    ensures
        r@ == (FrameView {
            headers: frame@.headers.push(
                HeaderView { key: key_msg_id(), value: dec_digits(msg_id as nat) },
            ),
            ..frame@
        }),
{
    let mut r = frame;
    let ghost before = headers_view(r.headers@);
    r.headers.push(Header { key: msg_id_key(), value: u64_to_dec(msg_id) });
    assert(headers_view(r.headers@) =~= before.push(
        HeaderView { key: key_msg_id(), value: dec_digits(msg_id as nat) },
    ));
    r
}

// ---- receiving ----

/// The frame that a completed group is delivered as: the last fragment's
/// frame without FRAG and the fragment headers, with the joined payload, and
/// with REQ_ACK exactly when a fragment of the group asked for it.
pub open spec fn reassembled_view(f: FrameView, payload: Seq<u8>, req_ack: bool) -> FrameView {
    FrameView {
        flags: (f.flags & !(FLAG_FRAG | FLAG_REQ_ACK)) | if req_ack {
            FLAG_REQ_ACK
        } else {
            0u8
        },
        headers: strip_frag(f.headers),
        payload,
        ..f
    }
}

/// What a datagram received from `peer` at `now` does: the reassembly
/// groups afterwards and the frame, if any, that is delivered.
pub open spec fn receive_spec(
    s: Seq<GroupView>,
    max: nat,
    ttl: nat,
    peer: PeerAddr,
    data: Seq<u8>,
    now: nat,
) -> (Seq<GroupView>, Option<FrameView>) {
    match decode_spec(data, DEFAULT_MAX_FRAME_SIZE as nat) {
        DecodeOutcome::Complete(f, _) => if has_flag(f.flags, FLAG_FRAG) {
            match fragment_info_spec(f) {
                None => (s, None),
                Some(fr) => {
                    let (s2, out) = add_spec(s, max, ttl, peer, fr, now);
                    match out {
                        Some((p, a)) => (s2, Some(reassembled_view(f, p, a))),
                        None => (s2, None),
                    }
                },
            }
        } else {
            (s, Some(f))
        },
        _ => (s, None),
    }
}

/// What the server does with one datagram.
pub struct DatagramOutcome {
    /// The frame to hand to the application.
    pub frame: Option<Frame>,
    /// The encoded acknowledgement to send back to the peer first.
    pub ack: Option<Vec<u8>>,
}

pub open spec fn frame_opt_view(o: Option<Frame>) -> Option<FrameView> {
    match o {
        Some(f) => Some(f@),
        None => None,
    }
}

/// Handles one datagram from `peer` received at `now_ms`: decodes it, runs
/// fragments through the reassembly table, and says what to deliver and
/// what to acknowledge. Datagrams in error, incomplete frames and invalid
/// fragments are dropped.
pub fn handle_datagram(
    reassembly: &mut ReassemblyManager,
    peer: PeerAddr,
    data: &[u8],
    now_ms: u64,
) -> (r: DatagramOutcome)
    requires
        old(reassembly).wf(),
    ensures
        final(reassembly).wf(),
        final(reassembly).max_spec() == old(reassembly).max_spec(),
        final(reassembly).ttl_spec() == old(reassembly).ttl_spec(),
        (final(reassembly).groups_spec(), frame_opt_view(r.frame)) == receive_spec(
            old(reassembly).groups_spec(),
            old(reassembly).max_spec(),
            old(reassembly).ttl_spec(),
            peer,
            data@,
            now_ms as nat,
        ),
        match r.frame {
            Some(f) => match r.ack {
                Some(b) => ack_spec(f@) == Some(b@),
                None => ack_spec(f@) is None,
            },
            None => r.ack is None,
        },
{
    let frame = match decode_frame(data, DEFAULT_MAX_FRAME_SIZE) {
        Ok(Some((f, _))) => f,
        _ => {
            return DatagramOutcome { frame: None, ack: None };
        },
    };
    let delivered = if frame.flags.bits & FLAG_FRAG == FLAG_FRAG {
        match extract_fragment_info(&frame) {
            None => {
                return DatagramOutcome { frame: None, ack: None };
            },
            Some(fi) => match reassembly.add_fragment(peer, fi, now_ms) {
                None => {
                    return DatagramOutcome { frame: None, ack: None };
                },
                Some((payload, req_ack)) => {
                    let headers = strip_fragment_headers(&frame.headers);
                    let keep: u8 = frame.flags.bits & !(FLAG_FRAG | FLAG_REQ_ACK);
                    let bits: u8 = if req_ack {
                        keep | FLAG_REQ_ACK
                    } else {
                        keep | 0u8
                    };
                    Frame {
                        version: frame.version,
                        typ: frame.typ,
                        flags: Flags { bits },
                        headers,
                        payload,
                    }
                },
            },
        }
    } else {
        frame
    };
    let ack = ack_for(&delivered);
    DatagramOutcome { frame: Some(delivered), ack }
}

// ---- sending ----

/// The datagrams that carry `f`: its encoding when that fits `max`, else the
/// encodings of its fragments in index order.
pub open spec fn datagrams_spec(f: FrameView, frag_id: u64, max: nat) -> Seq<Seq<u8>> {
    if frame_size(f) <= max {
        seq![frame_bytes(f)]
    } else {
        fragments_of(f, frag_id, max).map_values(|g: FrameView| frame_bytes(g))
    }
}

/// Whether `f` can be sent in datagrams of `max` bytes.
pub open spec fn sendable(f: FrameView, frag_id: u64, max: nat) -> bool {
    encodable(f) && (frame_size(f) <= max || fragmentable(f, frag_id, max))
}

/// Encodes `frame` for datagrams of at most `max_datagram` bytes,
/// fragmenting it under `frag_id` when it does not fit one.
pub fn plan_datagrams(frame: &Frame, frag_id: u64, max_datagram: usize) -> (r: Result<
    Vec<Vec<u8>>,
    VstpError,
>)
    ensures
        match r {
            Ok(v) => sendable(frame@, frag_id, max_datagram as nat) && v@.len() == datagrams_spec(
                frame@,
                frag_id,
                max_datagram as nat,
            ).len() && forall|i: int|
                0 <= i < v@.len() ==> #[trigger] v@[i]@ == datagrams_spec(
                    frame@,
                    frag_id,
                    max_datagram as nat,
                )[i],
            Err(e) => !sendable(frame@, frag_id, max_datagram as nat) && e
                == VstpError::FrameTooLarge,
        },
{
    let whole = match encode_frame(frame) {
        Ok(b) => b,
        Err(e) => {
            return Err(e);
        },
    };
    proof {
        lemma_frame_size(frame@);
    }
    if whole.len() <= max_datagram {
        let mut v: Vec<Vec<u8>> = Vec::new();
        v.push(whole);
        return Ok(v);
    }
    let frags = match fragment_frame(frame, frag_id, max_datagram) {
        Ok(fs) => fs,
        Err(e) => {
            return Err(e);
        },
    };
    let ghost fs = fragments_of(frame@, frag_id, max_datagram as nat);
    proof {
        lemma_fragments_exact(frame@, frag_id, max_datagram as nat);
    }
    let mut out: Vec<Vec<u8>> = Vec::new();
    let mut i: usize = 0;
    while i < frags.len()
        invariant
            i <= frags@.len() == fs.len(),
            fs == fragments_of(frame@, frag_id, max_datagram as nat),
            forall|j: int| 0 <= j < frags@.len() ==> #[trigger] frags@[j]@ == fs[j],
            forall|j: int| 0 <= j < fs.len() ==> encodable(#[trigger] fs[j]),
            out@.len() == i,
            forall|j: int| 0 <= j < i ==> #[trigger] out@[j]@ == frame_bytes(fs[j]),
        decreases frags@.len() - i,
    {
        assert(encodable(fs[i as int]));
        match encode_frame(&frags[i]) {
            Ok(b) => {
                out.push(b);
            },
            Err(e) => {
                return Err(e);
            },
        }
        i = i + 1;
    }
    Ok(out)
}

/// A sender's wait for the acknowledgement of one message.
pub struct AckWait {
    pub msg_id: u64,
    /// Transmissions made so far.
    pub attempts: u32,
    pub max_attempts: u32,
}

impl AckWait {
    /// The wait after the first transmission.
    pub fn new(msg_id: u64, max_attempts: u32) -> (r: AckWait)
        ensures
            r.msg_id == msg_id,
            r.attempts == 1,
            r.max_attempts == max_attempts,
    {
        AckWait { msg_id, attempts: 1, max_attempts }
    }

    /// Whether a received frame ends the wait.
    pub fn on_frame(&self, frame: &Frame) -> (r: bool)
        ensures
            r == acknowledges(frame@, self.msg_id),
    {
        is_ack_for(frame, self.msg_id)
    }

    /// The timeout elapsed: `Ok` to retransmit, counting the new attempt, or
    /// `AckTimeout` when every attempt has been made.
    pub fn on_timeout(&mut self) -> (r: Result<(), VstpError>)
        ensures
            old(self).attempts < old(self).max_attempts ==> r is Ok && final(self).attempts
                == old(self).attempts + 1,
            old(self).attempts >= old(self).max_attempts ==> r == Err::<(), VstpError>(
                VstpError::AckTimeout,
            ) && final(self).attempts == old(self).attempts,
            final(self).msg_id == old(self).msg_id,
            final(self).max_attempts == old(self).max_attempts,
    {
        if self.attempts < self.max_attempts {
            self.attempts = self.attempts + 1;
            Ok(())
        } else {
            Err(VstpError::AckTimeout)
        }
    }
}

// ---- fragments read back ----

/// Whether no header uses one of the three fragment keys.
pub open spec fn no_frag_keys(hs: Seq<HeaderView>) -> bool {
    forall|j: int| 0 <= j < hs.len() ==> !is_frag_key(#[trigger] hs[j].key)
}

proof fn lemma_find_dec_skip(a: Seq<HeaderView>, b: Seq<HeaderView>, key: Seq<u8>)
    requires
        forall|j: int| 0 <= j < a.len() ==> (#[trigger] a[j]).key != key,
    ensures
        find_dec(a + b, key) == find_dec(b, key),
    decreases a.len(),
{
    if a.len() == 0 {
        assert(a + b =~= b);
    } else {
        assert((a + b)[0] == a[0]);
        assert((a + b).drop_first() =~= a.drop_first() + b);
        assert forall|j: int| 0 <= j < a.drop_first().len() implies (#[trigger] a.drop_first()[j]).key != key by {
            assert(a.drop_first()[j] == a[j + 1]);
        }
        lemma_find_dec_skip(a.drop_first(), b, key);
    }
}

proof fn lemma_frag_keys_differ()
    ensures
        key_frag_id() != key_frag_index(),
        key_frag_id() != key_frag_total(),
        key_frag_index() != key_frag_total(),
{
    assert(key_frag_id().len() != key_frag_index().len());
    assert(key_frag_id().len() != key_frag_total().len());
    assert(key_frag_index()[6] != key_frag_total()[6]);
}

/// Reading the fragment headers of fragment `i` gives back the group id,
/// `i`, the fragment count and the fragment's chunk, where the frame's own
/// headers use no fragment key.
pub proof fn lemma_fragment_info_of_fragment(f: FrameView, frag_id: u64, max: nat, i: int)
    requires
        fragmentable(f, frag_id, max),
        no_frag_keys(f.headers),
        0 <= i < frag_count(f, frag_id, max),
    ensures
        fragment_info_spec(fragments_of(f, frag_id, max)[i]) == Some(
            FragmentView {
                frag_id,
                index: i as nat,
                total: frag_count(f, frag_id, max),
                data: fragments_of(f, frag_id, max)[i].payload,
                req_ack: has_flag(fragments_of(f, frag_id, max)[i].flags, FLAG_REQ_ACK),
            },
        ),
{
    let n = frag_count(f, frag_id, max);
    let g = fragments_of(f, frag_id, max)[i];
    let fh = frag_headers(frag_id, i as nat, n);
    lemma_fragments_exact(f, frag_id, max);
    lemma_frag_keys_differ();
    assert(n <= f.payload.len()) by (nonlinear_arith)
        requires
            n == frag_count(f, frag_id, max),
            f.payload.len() >= 1,
            crate::fragment::chunk_size(f, frag_id, max) >= 1,
            n == ((f.payload.len() + crate::fragment::chunk_size(f, frag_id, max) - 1)
                / crate::fragment::chunk_size(f, frag_id, max) as int) as nat,
    ;
    lemma_parse_dec_digits(frag_id);
    lemma_parse_dec_digits(i as u64);
    lemma_parse_dec_digits(n as u64);
    lemma_find_dec_skip(f.headers, fh, key_frag_id());
    lemma_find_dec_skip(f.headers, fh, key_frag_index());
    lemma_find_dec_skip(f.headers, fh, key_frag_total());
    assert(f.payload.len() <= 4294967295);
    assert((i as u64) as nat == i as nat);
    assert((n as u64) as nat == n);
    let t1 = fh.drop_first();
    let t2 = t1.drop_first();
    assert(t1[0] == fh[1]);
    assert(t2[0] == fh[2]);
    assert(fh[0].key != key_frag_index());
    assert(find_dec(fh, key_frag_index()) == find_dec(t1, key_frag_index()));
    assert(t1[0].key == key_frag_index());
    assert(parse_dec(t1[0].value) == Some(i as u64));
    assert(fh[0].key != key_frag_total());
    assert(t1[0].key != key_frag_total());
    assert(find_dec(fh, key_frag_total()) == find_dec(t1, key_frag_total()));
    assert(find_dec(t1, key_frag_total()) == find_dec(t2, key_frag_total()));
    assert(t2[0].key == key_frag_total());
    assert(parse_dec(t2[0].value) == Some(n as u64));
    assert(find_dec(fh, key_frag_id()) == Some(frag_id));
    assert(find_dec(fh, key_frag_index()) == Some(i as u64));
    assert(find_dec(fh, key_frag_total()) == Some(n as u64));
}

proof fn lemma_concat_chunks_payloads(fs: Seq<FrameView>)
    ensures
        concat_chunks(Seq::new(fs.len(), |i: int| fs[i].payload)) == concat_payloads(fs),
    decreases fs.len(),
{
    if fs.len() > 0 {
        lemma_concat_chunks_payloads(fs.drop_last());
        assert(Seq::new(fs.len(), |i: int| fs[i].payload).drop_last() =~= Seq::new(
            fs.drop_last().len(),
            |i: int| fs.drop_last()[i].payload,
        ));
    }
}

/// The fragments of a frame, read back and delivered in any order at one
/// moment to a table that holds no group of theirs, surface nothing until
/// the last one, which surfaces the frame's payload.
pub proof fn lemma_fragments_reassemble(
    f: FrameView,
    frag_id: u64,
    max_datagram: nat,
    perm: Seq<int>,
    s: Seq<GroupView>,
    max_groups: nat,
    ttl: nat,
    peer: PeerAddr,
    now: nat,
)
    requires
        fragmentable(f, frag_id, max_datagram),
        no_frag_keys(f.headers),
        is_permutation(perm, frag_count(f, frag_id, max_datagram)),
        groups_valid(s),
        find_from(live(s, now, ttl), peer, frag_id, 0) is None,
    ensures
        ({
            let n = frag_count(f, frag_id, max_datagram);
            let infos = Seq::new(
                n,
                |j: int| fragment_info_spec(fragments_of(f, frag_id, max_datagram)[perm[j]])->Some_0,
            );
            let outs = deliver_seq(s, max_groups, ttl, peer, infos, now).1;
            &&& forall|j: int| 0 <= j < n ==> #[trigger] fragment_info_spec(
                fragments_of(f, frag_id, max_datagram)[perm[j]],
            ) is Some
            &&& outs.len() == n
            &&& forall|j: int| 0 <= j < n - 1 ==> (#[trigger] outs[j]) is None
            &&& surfaced(outs[n - 1], f.payload)
        }),
{
    let n = frag_count(f, frag_id, max_datagram);
    let fs = fragments_of(f, frag_id, max_datagram);
    let chunks = Seq::new(n, |i: int| fs[i].payload);
    let acks = Seq::new(n, |i: int| has_flag(fs[i].flags, FLAG_REQ_ACK));
    let infos = Seq::new(n, |j: int| fragment_info_spec(fs[perm[j]])->Some_0);
    lemma_fragments_exact(f, frag_id, max_datagram);
    assert forall|j: int| 0 <= j < n implies #[trigger] fragment_info_spec(fs[perm[j]]) is Some
        && infos[j] == arrivals(frag_id, chunks, acks, perm)[j] by {
        lemma_fragment_info_of_fragment(f, frag_id, max_datagram, perm[j]);
    }
    assert(infos =~= arrivals(frag_id, chunks, acks, perm));
    lemma_reassembly_any_order(s, max_groups, ttl, peer, frag_id, chunks, acks, perm, now);
    lemma_concat_chunks_payloads(fs);
    assert(Seq::new(fs.len(), |i: int| fs[i].payload) =~= chunks);
}

/// A fragment datagram received a second time from the same peer at the
/// same moment changes no group and delivers nothing, where the first one
/// delivered nothing.
pub proof fn lemma_duplicate_datagram_ignored(
    s: Seq<GroupView>,
    max: nat,
    ttl: nat,
    peer: PeerAddr,
    data: Seq<u8>,
    now: nat,
)
    requires
        groups_valid(s),
        decode_spec(data, DEFAULT_MAX_FRAME_SIZE as nat) matches DecodeOutcome::Complete(f, _)
            && has_flag(f.flags, FLAG_FRAG),
        receive_spec(s, max, ttl, peer, data, now).1 is None,
    ensures
        receive_spec(receive_spec(s, max, ttl, peer, data, now).0, max, ttl, peer, data, now) == (
            receive_spec(s, max, ttl, peer, data, now).0,
            None::<FrameView>,
        ),
{
    let f = decode_spec(data, DEFAULT_MAX_FRAME_SIZE as nat)->Complete_0;
    match fragment_info_spec(f) {
        None => {},
        Some(fr) => {
            lemma_duplicate_ignored(s, max, ttl, peer, fr, now);
        },
    }
}

} // verus!
