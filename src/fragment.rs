//! Splitting a frame that is too large for one datagram into fragment frames.
use vstd::prelude::*;
use crate::decimal::{dec_digits, lemma_dec_len_mono, lemma_dec_len_u64, u64_to_dec};
use crate::frame::{encodable, entry_bytes, frame_size, header_ok, headers_bytes};
use crate::types::{
    clone_headers, copy_bytes, has_flag, headers_view, Flags, Frame, FrameView, Header, HeaderView,
    VstpError, FLAG_CRC, FLAG_FRAG, FLAG_REQ_ACK,
};

verus! {

/// The byte budget of one datagram.
pub const MAX_DATAGRAM_SIZE: usize = 1200;

pub open spec fn key_frag_id() -> Seq<u8> {
    seq![102u8, 114, 97, 103, 45, 105, 100]
}

pub open spec fn key_frag_index() -> Seq<u8> {
    seq![102u8, 114, 97, 103, 45, 105, 110, 100, 101, 120]
}

pub open spec fn key_frag_total() -> Seq<u8> {
    seq![102u8, 114, 97, 103, 45, 116, 111, 116, 97, 108]
}

pub fn frag_id_key() -> (r: Vec<u8>)
    ensures
        r@ == key_frag_id(),
{
    let r = vec![102u8, 114, 97, 103, 45, 105, 100];
    assert(r@ =~= key_frag_id());
    r
}

pub fn frag_index_key() -> (r: Vec<u8>)
    ensures
        r@ == key_frag_index(),
{
    let r = vec![102u8, 114, 97, 103, 45, 105, 110, 100, 101, 120];
    assert(r@ =~= key_frag_index());
    r
}

pub fn frag_total_key() -> (r: Vec<u8>)
    ensures
        r@ == key_frag_total(),
{
    let r = vec![102u8, 114, 97, 103, 45, 116, 111, 116, 97, 108];
    assert(r@ =~= key_frag_total());
    r
}

/// The size of the three fragment headers when index and count are written
/// with at most `d` digits each.
pub open spec fn frag_headers_bound(frag_id: u64, d: nat) -> nat {
    (9 + dec_digits(frag_id as nat).len()) + (12 + d) + (12 + d)
}

/// Everything in a fragment but its chunk, with index and count bounded by
/// the digits of the payload length.
pub open spec fn frag_overhead(f: FrameView, frag_id: u64) -> nat {
    12 + headers_bytes(f.headers).len() + frag_headers_bound(
        frag_id,
        dec_digits(f.payload.len()).len(),
    ) + if has_flag(f.flags, FLAG_CRC) {
        4nat
    } else {
        0nat
    }
}

/// Whether the fragmenter can split `f` for datagrams of `max` bytes.
pub open spec fn fragmentable(f: FrameView, frag_id: u64, max: nat) -> bool {
    &&& encodable(f)
    &&& f.payload.len() > 0
    &&& frag_overhead(f, frag_id) < max
    &&& headers_bytes(f.headers).len() + frag_headers_bound(
        frag_id,
        dec_digits(f.payload.len()).len(),
    ) <= 65535
}

/// The payload bytes carried by each fragment.
pub open spec fn chunk_size(f: FrameView, frag_id: u64, max: nat) -> nat {
    (max - frag_overhead(f, frag_id)) as nat
}

/// The number of fragments: the least count of chunks that covers the payload.
pub open spec fn frag_count(f: FrameView, frag_id: u64, max: nat) -> nat {
    let c = chunk_size(f, frag_id, max);
    ((f.payload.len() + c - 1) / c as int) as nat
}

pub open spec fn chunk_start(i: nat, c: nat, len: nat) -> int {
    if i * c <= len {
        (i * c) as int
    } else {
        len as int
    }
}

/// The flags of fragment `i` of `n`: FRAG set, REQ_ACK kept on the last only.
pub open spec fn frag_flags(bits: u8, i: nat, n: nat) -> u8 {
    if i + 1 == n {
        bits | FLAG_FRAG
    } else {
        (bits | FLAG_FRAG) & !FLAG_REQ_ACK
    }
}

/// The three headers that mark fragment `i` of `n`.
pub open spec fn frag_headers(frag_id: u64, i: nat, n: nat) -> Seq<HeaderView> {
    seq![
        HeaderView { key: key_frag_id(), value: dec_digits(frag_id as nat) },
        HeaderView { key: key_frag_index(), value: dec_digits(i) },
        HeaderView { key: key_frag_total(), value: dec_digits(n) },
    ]
}

/// Fragment `i` of `f`.
pub open spec fn fragment_view(f: FrameView, frag_id: u64, max: nat, i: nat) -> FrameView {
    let c = chunk_size(f, frag_id, max);
    let n = frag_count(f, frag_id, max);
    let len = f.payload.len();
    FrameView {
        version: f.version,
        typ: f.typ,
        flags: frag_flags(f.flags, i, n),
        headers: f.headers + frag_headers(frag_id, i, n),
        payload: f.payload.subrange(chunk_start(i, c, len), chunk_start(i + 1, c, len)),
    }
}

/// All fragments of `f`, in index order.
pub open spec fn fragments_of(f: FrameView, frag_id: u64, max: nat) -> Seq<FrameView> {
    Seq::new(frag_count(f, frag_id, max), |i: int| fragment_view(f, frag_id, max, i as nat))
}

/// The payloads of a sequence of frames, concatenated in order.
pub open spec fn concat_payloads(s: Seq<FrameView>) -> Seq<u8>
    decreases s.len(),
{
    if s.len() == 0 {
        Seq::empty()
    } else {
        concat_payloads(s.drop_last()) + s.last().payload
    }
}

proof fn lemma_headers_bytes_append(a: Seq<HeaderView>, b: Seq<HeaderView>)
    ensures
        headers_bytes(a + b) == headers_bytes(a) + headers_bytes(b),
    decreases b.len(),
{
    if b.len() == 0 {
        assert(a + b =~= a);
        assert(headers_bytes(a) + headers_bytes(b) =~= headers_bytes(a));
    } else {
        lemma_headers_bytes_append(a, b.drop_last());
        assert((a + b).drop_last() =~= a + b.drop_last());
        assert((a + b).last() == b.last());
        assert(headers_bytes(a + b) =~= headers_bytes(a) + headers_bytes(b));
    }
}

proof fn lemma_frag_headers_len(frag_id: u64, i: nat, n: nat)
    ensures
        headers_bytes(frag_headers(frag_id, i, n)).len() == (9 + dec_digits(frag_id as nat).len())
            + (12 + dec_digits(i).len()) + (12 + dec_digits(n).len()),
{
    let hs = frag_headers(frag_id, i, n);
    let h2 = hs.drop_last();
    let h1 = h2.drop_last();
    let h0 = h1.drop_last();
    assert(h0 =~= Seq::<HeaderView>::empty());
    assert(headers_bytes(h0).len() == 0);
    assert(h1.last() == hs[0]);
    assert(h2.last() == hs[1]);
    assert(headers_bytes(h1).len() == headers_bytes(h0).len() + entry_bytes(hs[0]).len());
    assert(headers_bytes(h2).len() == headers_bytes(h1).len() + entry_bytes(hs[1]).len());
    assert(headers_bytes(hs).len() == headers_bytes(h2).len() + entry_bytes(hs[2]).len());
}

proof fn lemma_frag_flags(bits: u8)
    ensures
        has_flag(bits | FLAG_FRAG, FLAG_CRC) == has_flag(bits, FLAG_CRC),
        has_flag((bits | FLAG_FRAG) & !FLAG_REQ_ACK, FLAG_CRC) == has_flag(bits, FLAG_CRC),
        has_flag(bits | FLAG_FRAG, FLAG_FRAG),
        has_flag((bits | FLAG_FRAG) & !FLAG_REQ_ACK, FLAG_FRAG),
        !has_flag((bits | FLAG_FRAG) & !FLAG_REQ_ACK, FLAG_REQ_ACK),
        has_flag(bits | FLAG_FRAG, FLAG_REQ_ACK) == has_flag(bits, FLAG_REQ_ACK),
{
    assert(((bits | 4u8) & 2u8 == 2u8) == (bits & 2u8 == 2u8)) by (bit_vector);
    assert((((bits | 4u8) & !1u8) & 2u8 == 2u8) == (bits & 2u8 == 2u8)) by (bit_vector);
    assert((bits | 4u8) & 4u8 == 4u8) by (bit_vector);
    assert(((bits | 4u8) & !1u8) & 4u8 == 4u8) by (bit_vector);
    assert(((bits | 4u8) & !1u8) & 1u8 != 1u8) by (bit_vector);
    assert(((bits | 4u8) & 1u8 == 1u8) == (bits & 1u8 == 1u8)) by (bit_vector);
}

proof fn lemma_chunks_concat(f: FrameView, frag_id: u64, max: nat, k: nat)
    requires
        fragmentable(f, frag_id, max),
        k <= frag_count(f, frag_id, max),
    ensures
        concat_payloads(fragments_of(f, frag_id, max).take(k as int)) == f.payload.subrange(
            0,
            chunk_start(k, chunk_size(f, frag_id, max), f.payload.len()),
        ),
    decreases k,
{
    let c = chunk_size(f, frag_id, max);
    let len = f.payload.len();
    let fs = fragments_of(f, frag_id, max);
    if k == 0 {
        assert(fs.take(0) =~= Seq::<FrameView>::empty());
        assert(f.payload.subrange(0, 0) =~= Seq::<u8>::empty());
        assert(0 * c == 0) by (nonlinear_arith);
        assert(concat_payloads(fs.take(0)) == Seq::<u8>::empty());
    } else {
        lemma_chunks_concat(f, frag_id, max, (k - 1) as nat);
        assert(fs.take(k as int).drop_last() =~= fs.take(k - 1));
        assert(fs.take(k as int).last() == fragment_view(f, frag_id, max, (k - 1) as nat));
        assert(concat_payloads(fs.take(k as int)) == concat_payloads(fs.take(k - 1)) + fs.take(
            k as int,
        ).last().payload);
        assert(((k - 1) as nat) * c <= k * c) by (nonlinear_arith)
            requires
                k >= 1,
        ;
        assert((k - 1 + 1) as nat == k);
        assert(chunk_start((k - 1) as nat, c, len) <= chunk_start(k, c, len));
        assert(fs.take(k as int).last().payload == f.payload.subrange(
            chunk_start((k - 1) as nat, c, len),
            chunk_start(k, c, len),
        ));
        assert(f.payload.subrange(0, chunk_start((k - 1) as nat, c, len)) + f.payload.subrange(
            chunk_start((k - 1) as nat, c, len),
            chunk_start(k, c, len),
        ) =~= f.payload.subrange(0, chunk_start(k, c, len)));
        assert(concat_payloads(fs.take(k as int)) == f.payload.subrange(0, chunk_start(k, c, len)));
    }
}

proof fn lemma_count_covers(len: nat, c: nat)
    requires
        c >= 1,
        len >= 1,
    ensures
        ({
            let n = ((len + c - 1) / c as int) as nat;
            &&& n * c >= len
            &&& n >= 1
            &&& n <= len
            &&& (n - 1) * c < len
        }),
{
    let n = ((len + c - 1) / c as int) as nat;
    assert(n * c >= len && n >= 1 && n <= len && (n - 1) * c < len) by (nonlinear_arith)
        requires
            c >= 1,
            len >= 1,
            n == (len + c - 1) / (c as int),
    ;
}

/// Concatenating the payloads of all fragments in index order gives back
/// the payload; every fragment can be encoded and fits one datagram; and
/// every fragment carries the frame's own headers first.
pub proof fn lemma_fragments_exact(f: FrameView, frag_id: u64, max: nat)
    requires
        fragmentable(f, frag_id, max),
    ensures
        concat_payloads(fragments_of(f, frag_id, max)) == f.payload,
        forall|i: int|
            0 <= i < frag_count(f, frag_id, max) ==> {
                let g = #[trigger] fragments_of(f, frag_id, max)[i];
                &&& encodable(g)
                &&& frame_size(g) <= max
                &&& g.payload.len() >= 1
                &&& g.headers.subrange(0, f.headers.len() as int) == f.headers
            },
{
    let c = chunk_size(f, frag_id, max);
    let n = frag_count(f, frag_id, max);
    let len = f.payload.len();
    let fs = fragments_of(f, frag_id, max);
    let d = dec_digits(len).len();
    lemma_count_covers(len, c);
    lemma_chunks_concat(f, frag_id, max, n);
    assert(fs.take(n as int) =~= fs);
    assert(f.payload.subrange(0, len as int) =~= f.payload);
    assert forall|i: int| 0 <= i < n implies {
        let g = #[trigger] fs[i];
        &&& encodable(g)
        &&& frame_size(g) <= max
        &&& g.payload.len() >= 1
        &&& g.headers.subrange(0, f.headers.len() as int) == f.headers
    } by {
        let g = fs[i];
        let fh = frag_headers(frag_id, i as nat, n);
        lemma_frag_flags(f.flags);
        lemma_headers_bytes_append(f.headers, fh);
        lemma_frag_headers_len(frag_id, i as nat, n);
        lemma_dec_len_mono(i as nat, len);
        lemma_dec_len_mono(n, len);
        assert(g.headers.subrange(0, f.headers.len() as int) =~= f.headers);
        assert forall|j: int| 0 <= j < g.headers.len() implies header_ok(#[trigger] g.headers[j]) by {
            if j < f.headers.len() {
                assert(g.headers[j] == f.headers[j]);
            } else {
                lemma_dec_len_u64(frag_id as nat);
                lemma_dec_len_u64(i as nat);
                lemma_dec_len_u64(n);
            }
        }
        assert(i * c < len) by (nonlinear_arith)
            requires
                0 <= i < n,
                (n - 1) * c < len,
                c >= 1,
        ;
        assert((i + 1) * c == i * c + c) by (nonlinear_arith);
        assert(g.payload.len() <= c);
        assert(g.payload.len() >= 1);
        assert(headers_bytes(g.headers).len() <= 65535);
        assert(encodable(g));
        assert(frame_size(g) <= max);
    }
}

/// Splits `frame` into fragments of at most `max_datagram` encoded bytes,
/// tagged with `frag_id`; `FrameTooLarge` when the frame cannot be encoded,
/// has an empty payload, or leaves no room for payload in a fragment.
pub fn fragment_frame(frame: &Frame, frag_id: u64, max_datagram: usize) -> (r: Result<
    Vec<Frame>,
    VstpError,
>)
    ensures
        match r {
            Ok(v) => fragmentable(frame@, frag_id, max_datagram as nat) && v@.len() == frag_count(
                frame@,
                frag_id,
                max_datagram as nat,
            ) && forall|i: int|
                0 <= i < v@.len() ==> #[trigger] v@[i]@ == fragment_view(
                    frame@,
                    frag_id,
                    max_datagram as nat,
                    i as nat,
                ),
            Err(e) => !fragmentable(frame@, frag_id, max_datagram as nat) && e
                == VstpError::FrameTooLarge,
        },
{
    let ghost fv = frame@;
    let hb = match crate::frame::encode_headers(&frame.headers) {
        Some(hb) => hb,
        None => {
            return Err(VstpError::FrameTooLarge);
        },
    };
    let len = frame.payload.len();
    if hb.len() > 65535 || len > 4294967295 || len == 0 {
        return Err(VstpError::FrameTooLarge);
    }
    let id_text = u64_to_dec(frag_id);
    let len_text = u64_to_dec(len as u64);
    proof {
        lemma_dec_len_u64(frag_id as nat);
        lemma_dec_len_u64(len as nat);
    }
    let fh: usize = (9 + id_text.len()) + (12 + len_text.len()) + (12 + len_text.len());
    let crc_len: usize = if frame.flags.bits & FLAG_CRC == FLAG_CRC {
        4
    } else {
        0
    };
    let overhead: usize = 12 + hb.len() + fh + crc_len;
    if hb.len() + fh > 65535 || overhead >= max_datagram {
        return Err(VstpError::FrameTooLarge);
    }
    assert(fragmentable(fv, frag_id, max_datagram as nat));
    let c: usize = max_datagram - overhead;
    let n: usize = (len - 1) / c + 1;
    assert(n == frag_count(fv, frag_id, max_datagram as nat)) by (nonlinear_arith)
        requires
            c >= 1,
            len >= 1,
            n == (len - 1) / (c as int) + 1,
            frag_count(fv, frag_id, max_datagram as nat) == ((len + c - 1) / c as int) as nat,
    ;
    proof {
        lemma_count_covers(len as nat, c as nat);
    }
    let n_text = u64_to_dec(n as u64);
    let mut out: Vec<Frame> = Vec::new();
    let mut i: usize = 0;
    while i < n
        invariant
            fv == frame@,
            fragmentable(fv, frag_id, max_datagram as nat),
            c as nat == chunk_size(fv, frag_id, max_datagram as nat),
            n as nat == frag_count(fv, frag_id, max_datagram as nat),
            (n - 1) * c < len,
            len == fv.payload.len(),
            1 <= n <= len,
            id_text@ == dec_digits(frag_id as nat),
            n_text@ == dec_digits(n as nat),
            i <= n,
            out@.len() == i,
            forall|j: int|
                0 <= j < i ==> #[trigger] out@[j]@ == fragment_view(
                    fv,
                    frag_id,
                    max_datagram as nat,
                    j as nat,
                ),
        decreases n - i,
    {
        assert(i * c <= len) by (nonlinear_arith)
            requires
                i < n,
                (n - 1) * c < len,
        ;
        let start: usize = i * c;
        let end: usize = if len - start <= c {
            len
        } else {
            start + c
        };
        proof {
            assert((i + 1) * c == i * c + c) by (nonlinear_arith);
        }
        let flags: u8 = if i + 1 == n {
            frame.flags.bits | FLAG_FRAG
        } else {
            (frame.flags.bits | FLAG_FRAG) & !FLAG_REQ_ACK
        };
        let mut headers = clone_headers(&frame.headers);
        let ghost base = headers_view(headers@);
        headers.push(Header { key: frag_id_key(), value: copy_bytes(id_text.as_slice()) });
        headers.push(Header { key: frag_index_key(), value: u64_to_dec(i as u64) });
        headers.push(Header { key: frag_total_key(), value: copy_bytes(n_text.as_slice()) });
        let payload = copy_bytes(&frame.payload.as_slice()[start..end]);
        let g = Frame {
            version: frame.version,
            typ: frame.typ,
            flags: Flags { bits: flags },
            headers,
            payload,
        };
        assert(headers_view(g.headers@) =~= fv.headers + frag_headers(frag_id, i as nat, n as nat));
        assert(g@ == fragment_view(fv, frag_id, max_datagram as nat, i as nat));
        out.push(g);
        i = i + 1;
    }
    Ok(out)
}

} // verus!
