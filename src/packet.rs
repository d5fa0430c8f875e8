use vstd::prelude::*;
use vstd::utf8::*;
use vstd::string::*;
use crate::error::IoError;
use crate::request::Request;

verus! {

broadcast use vstd::utf8::group_utf8_lib;

/// Supported transfer size of HID protocol
pub const IO_SIZE: usize = 64;

/// K64 start of message (alternating 0, 1)
pub const PREAMBLE: [u8; IO_SIZE] = [
    0, 1, 0, 1, 0, 1, 0, 1, 0, 1, 0, 1, 0, 1, 0, 1, 0, 1, 0, 1, 0, 1, 0, 1, 0,
    1, 0, 1, 0, 1, 0, 1, 0, 1, 0, 1, 0, 1, 0, 1, 0, 1, 0, 1, 0, 1, 0, 1, 0, 1,
    0, 1, 0, 1, 0, 1, 0, 1, 0, 1, 0, 1, 0, 1,
];

/// An ACK packet ("ACK" followed by zeros)
pub const ACK: [u8; IO_SIZE] = [
    65, 67, 75, 0, 0, 0, 0, 0, 0, 0, 0, 0, 0, 0, 0, 0, 0, 0, 0, 0, 0, 0, 0, 0,
    0, 0, 0, 0, 0, 0, 0, 0, 0, 0, 0, 0, 0, 0, 0, 0, 0, 0, 0, 0, 0, 0, 0, 0, 0,
    0, 0, 0, 0, 0, 0, 0, 0, 0, 0, 0, 0, 0, 0, 0,
];

/// One fixed-size unit of transfer.
pub type Frame = [u8; IO_SIZE];

/// A length frame and the content frames that follow it.
pub type Packets = ([u8; IO_SIZE], Vec<[u8; IO_SIZE]>);

/// The length that a length frame carries: its first two bytes, little endian.
pub open spec fn length_of(f: Seq<u8>) -> nat {
    f[0] as nat + 256 * (f[1] as nat)
}

/// How many frames hold `n` bytes: the ceiling of `n / 64`.
pub open spec fn chunk_count(n: nat) -> nat {
    if n % 64 == 0 {
        n / 64
    } else {
        n / 64 + 1
    }
}

/// The length frame for `n`: byte 0 is `n mod 256`, byte 1 is `(n / 256) mod 256`, the rest zero.
pub open spec fn length_frame(n: nat) -> Seq<u8> {
    Seq::new(
        64,
        |i: int|
            if i == 0 {
                (n % 256) as u8
            } else if i == 1 {
                ((n / 256) % 256) as u8
            } else {
                0u8
            },
    )
}

/// The `k`-th content frame of payload `b`: its bytes `64k ..`, zero-padded to 64.
pub open spec fn chunk_frame(b: Seq<u8>, k: int) -> Seq<u8> {
    Seq::new(64, |j: int| if 64 * k + j < b.len() { b[64 * k + j] } else { 0u8 })
}

/// `len` and `frames` are the framing of payload `b`.
pub open spec fn is_framing_of(len: Frame, frames: Seq<Frame>, b: Seq<u8>) -> bool {
    &&& len@ == length_frame(b.len())
    &&& frames.len() == chunk_count(b.len())
    &&& forall|k: int| 0 <= k < frames.len() ==> #[trigger] frames[k]@ == chunk_frame(b, k)
}

/// Drop the NUL characters at the end.
pub open spec fn trim_nul(cs: Seq<char>) -> Seq<char>
    decreases cs.len(),
{
    if cs.len() > 0 && cs.last() == '\0' {
        trim_nul(cs.drop_last())
    } else {
        cs
    }
}

/// The text that one frame carries: its UTF-8 decoding without trailing NULs.
pub open spec fn frame_text(f: Seq<u8>) -> Seq<char> {
    trim_nul(decode_utf8(f))
}

/// Every frame is valid UTF-8.
pub open spec fn frames_utf8(fs: Seq<Seq<u8>>) -> bool {
    forall|i: int| 0 <= i < fs.len() ==> valid_utf8(#[trigger] fs[i])
}

/// The bytes of each frame.
pub open spec fn frames_view(p: Seq<Frame>) -> Seq<Seq<u8>> {
    Seq::new(p.len(), |i: int| p[i]@)
}

/// The text of a sequence of frames: the texts of the frames, concatenated.
pub open spec fn frames_text(fs: Seq<Seq<u8>>) -> Seq<char>
    decreases fs.len(),
{
    if fs.len() == 0 {
        seq![]
    } else {
        frames_text(fs.drop_last()) + frame_text(fs.last())
    }
}

/// Relies on std::str::from_utf8: it succeeds exactly on valid UTF-8, and the string slice
/// it returns holds the given bytes.
#[verifier::external_body]
fn utf8_text(bytes: &[u8]) -> (r: Option<&str>)
    ensures
        r is Some <==> valid_utf8(bytes@),
        r matches Some(s) ==> s.spec_bytes() == bytes@,
{
    std::str::from_utf8(bytes).ok()
}

/// Take a length packet and convert into usable number
pub fn to_len(packet: &[u8; IO_SIZE]) -> (r: usize)
    ensures
        r == length_of(packet@),
{
    packet[0] as usize + 256 * (packet[1] as usize)
}

/// Take a length packet and calculate how many chunks
pub fn to_len_chunks(packet: &[u8; IO_SIZE]) -> (r: (usize, usize))
    ensures
        r.0 == length_of(packet@),
        r.1 == chunk_count(r.0 as nat),
{
    let size = to_len(packet);
    let chunks = if size % IO_SIZE == 0 {
        size / IO_SIZE
    } else {
        size / IO_SIZE + 1
    };
    (size, chunks)
}

/// Prepare a length for transmit in packet frame (lengths of 65536 and more are truncated)
pub fn from_len(l: usize) -> (r: [u8; IO_SIZE])
    ensures
        r@ == length_frame(l as nat),
{
    let mut u: [u8; IO_SIZE] = [0u8; 64];
    u[0] = (l % 256) as u8;
    u[1] = ((l / 256) % 256) as u8;
    assert(u@ =~= length_frame(l as nat));
    u
}

/// Split a payload into a length frame and zero-padded 64 byte content frames
pub fn from_bytes(b: &[u8]) -> (r: Packets)
    ensures
        is_framing_of(r.0, r.1@, b@),
{
    let rlen = b.len();
    let len = from_len(rlen);
    let n: usize = if rlen % IO_SIZE == 0 {
        rlen / IO_SIZE
    } else {
        rlen / IO_SIZE + 1
    };
    let mut p: Vec<[u8; IO_SIZE]> = Vec::new();
    let mut k: usize = 0;
    while k < n
        invariant
            rlen == b@.len(),
            n == chunk_count(rlen as nat),
            k <= n,
            p@.len() == k,
            forall|i: int| 0 <= i < k ==> #[trigger] p@[i]@ == chunk_frame(b@, i),
        decreases n - k,
    {
        assert(64 * k < rlen) by (nonlinear_arith)
            requires
                k < n,
                n == chunk_count(rlen as nat),
        ;
        let start: usize = k * IO_SIZE;
        let mut v: [u8; IO_SIZE] = [0u8; 64];
        let mut j: usize = 0;
        while j < IO_SIZE
            invariant
                rlen == b@.len(),
                start == 64 * k,
                start < rlen,
                j <= 64,
                forall|i: int| 0 <= i < j ==> #[trigger] v@[i] == chunk_frame(b@, k as int)[i],
                forall|i: int| j <= i < 64 ==> #[trigger] v@[i] == 0,
            decreases 64 - j,
        {
            if j < rlen - start {
                v[j] = b[start + j];
            }
            j = j + 1;
        }
        assert(v@ =~= chunk_frame(b@, k as int));
        p.push(v);
        k = k + 1;
    }
    (len, p)
}

/// We have a string and want some packets
pub fn from_str(s: &str) -> (r: Packets)
    ensures
        is_framing_of(r.0, r.1@, s.spec_bytes()),
{
    from_bytes(s.as_bytes())
}

/// Convert a request into packets for transfer
pub fn from_request(r: &Request) -> (p: Packets)
    ensures
        is_framing_of(p.0, p.1@, encode_utf8(r.wire())),
{
    let s = r.format_with_null_terminators();
    from_str(s.as_str())
}

/// Split collected frames into the first (the length frame) and the rest
pub fn from_vec(v: Vec<[u8; IO_SIZE]>) -> (r: Packets)
    requires
        v@.len() > 0,
    ensures
        r.0 == v@[0],
        r.1@ == v@.drop_first(),
{
    let mut p: Vec<[u8; IO_SIZE]> = Vec::new();
    let mut i: usize = 1;
    while i < v.len()
        invariant
            1 <= i <= v@.len(),
            p@ == v@.subrange(1, i as int),
        decreases v@.len() - i,
    {
        p.push(v[i]);
        i = i + 1;
        assert(p@ =~= v@.subrange(1, i as int));
    }
    assert(p@ =~= v@.drop_first());
    (v[0], p)
}

/// The string of one frame: decoded as UTF-8, trailing NULs dropped
fn frame_to_string(f: &[u8; IO_SIZE]) -> (r: Option<String>)
    ensures
        r is Some <==> valid_utf8(f@),
        r matches Some(s) ==> s@ == frame_text(f@),
{
    let t = utf8_text(f.as_slice());
    match t {
        None => None,
        Some(s) => {
            proof {
                encode_utf8_decode_utf8(s@);
            }
            let n = s.unicode_len();
            let mut k: usize = n;
            assert(s@.subrange(0, n as int) =~= s@);
            while k > 0 && s.get_char(k - 1) == '\0'
                invariant
                    k <= n,
                    n == s@.len(),
                    trim_nul(s@) == trim_nul(s@.subrange(0, k as int)),
                decreases k,
            {
                assert(s@.subrange(0, k as int).drop_last() =~= s@.subrange(0, k - 1));
                k = k - 1;
            }
            let piece = s.substring_char(0, k);
            Some(piece.to_owned())
        },
    }
}

/// We have some packets and want a string
pub fn to_string(p: &Vec<[u8; IO_SIZE]>) -> (r: Result<String, IoError>)
    ensures
        r is Ok <==> frames_utf8(frames_view(p@)),
        r matches Ok(s) ==> s@ == frames_text(frames_view(p@)),
        r matches Err(e) ==> e is Parser,
{
    let mut out = String::new();
    let mut i: usize = 0;
    while i < p.len()
        invariant
            i <= p@.len(),
            frames_utf8(frames_view(p@).subrange(0, i as int)),
            out@ == frames_text(frames_view(p@).subrange(0, i as int)),
        decreases p@.len() - i,
    {
        match frame_to_string(&p[i]) {
            None => {
                assert(frames_view(p@)[i as int] == p@[i as int]@);
                return Err(IoError::Parser("bad utf8".to_string()));
            },
            Some(s) => {
                let ghost before = frames_view(p@).subrange(0, i as int);
                out.append(s.as_str());
                i = i + 1;
                assert(frames_view(p@).subrange(0, i as int).drop_last() =~= before);
                assert(frames_utf8(frames_view(p@).subrange(0, i as int)));
            },
        }
    }
    assert(frames_view(p@).subrange(0, p@.len() as int) =~= frames_view(p@));
    Ok(out)
}


// ---------------------------------------------------------------------------------------------
// Laws of the codec
// ---------------------------------------------------------------------------------------------

/// A length survives its frame: decoding the length frame of `n` gives `n` back, for every
/// length that two bytes hold.
pub proof fn lemma_length_round_trip(n: nat)
    requires
        n <= 65535,
    ensures
        length_of(length_frame(n)) == n,
{
    let f = length_frame(n);
    assert(f[0] == (n % 256) as u8);
    assert(f[1] == ((n / 256) % 256) as u8);
    assert(n / 256 < 256);
}

/// `n` zero bytes.
pub open spec fn zeros(n: nat) -> Seq<u8> {
    Seq::new(n, |i: int| 0u8)
}

/// `n` NUL characters.
pub open spec fn nuls(n: nat) -> Seq<char> {
    Seq::new(n, |i: int| '\0')
}

/// The bytes of payload `b` that the `k`-th content frame carries.
pub open spec fn chunk_bytes(b: Seq<u8>, k: int) -> Seq<u8> {
    b.subrange(64 * k, if 64 * k + 64 < b.len() { 64 * k + 64 } else { b.len() as int })
}

proof fn lemma_zeros_decode(n: nat)
    ensures
        valid_utf8(zeros(n)),
        decode_utf8(zeros(n)) == nuls(n),
    decreases n,
{
    if n > 0 {
        let z = zeros(n);
        assert(0u8 & 0x7fu8 == 0u8) by (bit_vector);
        assert(pop_first_scalar(z) =~= zeros((n - 1) as nat));
        lemma_zeros_decode((n - 1) as nat);
        assert(decode_utf8(z) =~= nuls(n));
    }
}

proof fn lemma_decode_concat(b1: Seq<u8>, b2: Seq<u8>)
    requires
        valid_utf8(b1),
        valid_utf8(b2),
    ensures
        valid_utf8(b1 + b2),
        decode_utf8(b1 + b2) == decode_utf8(b1) + decode_utf8(b2),
    decreases b1.len(),
{
    if b1.len() == 0 {
        assert(b1 + b2 =~= b2);
        assert(decode_utf8(b1) =~= seq![]);
        assert(decode_utf8(b1) + decode_utf8(b2) =~= decode_utf8(b2));
    } else {
        let rest = pop_first_scalar(b1);
        assert(rest.len() < b1.len());
        lemma_decode_concat(rest, b2);
        assert(pop_first_scalar(b1 + b2) =~= rest + b2);
        assert(decode_utf8(b1 + b2) =~= decode_utf8(b1) + decode_utf8(b2));
    }
}

proof fn lemma_trim_nuls(d: Seq<char>, n: nat)
    ensures
        trim_nul(d + nuls(n)) == trim_nul(d),
    decreases n,
{
    if n == 0 {
        assert(d + nuls(0) =~= d);
    } else {
        assert((d + nuls(n)).drop_last() =~= d + nuls((n - 1) as nat));
        lemma_trim_nuls(d, (n - 1) as nat);
    }
}

proof fn lemma_decode_no_nul(c: Seq<u8>)
    requires
        valid_utf8(c),
        forall|i: int| 0 <= i < c.len() ==> c[i] != 0,
    ensures
        forall|i: int| 0 <= i < decode_utf8(c).len() ==> decode_utf8(c)[i] != '\0',
    decreases c.len(),
{
    if c.len() > 0 {
        let rest = pop_first_scalar(c);
        assert(rest.len() < c.len());
        lemma_decode_no_nul(rest);
        let x = decode_first_scalar(c);
        decode_utf8_first_scalar(c);
        if (x as char) == '\0' {
            assert(0u32 & 0x7fu32 == 0u32) by (bit_vector);
            assert(encode_scalar(0u32) =~= seq![0u8]);
            assert(take_first_scalar(c)[0] == c[0]);
        }
        assert(decode_utf8(c) == seq![x as char] + decode_utf8(rest));
    }
}

proof fn lemma_chunk_frame(b: Seq<u8>, k: int)
    requires
        0 <= k,
        64 * k < b.len(),
    ensures
        chunk_frame(b, k) =~= chunk_bytes(b, k) + zeros((64 - chunk_bytes(b, k).len()) as nat),
{
}

proof fn lemma_frame_text_of_chunk(b: Seq<u8>, k: int)
    requires
        0 <= k,
        64 * k < b.len(),
        valid_utf8(chunk_bytes(b, k)),
        forall|i: int| 0 <= i < b.len() ==> b[i] != 0,
    ensures
        valid_utf8(chunk_frame(b, k)),
        frame_text(chunk_frame(b, k)) == decode_utf8(chunk_bytes(b, k)),
{
    let c = chunk_bytes(b, k);
    let n = (64 - c.len()) as nat;
    lemma_chunk_frame(b, k);
    lemma_zeros_decode(n);
    lemma_decode_concat(c, zeros(n));
    lemma_trim_nuls(decode_utf8(c), n);
    lemma_decode_no_nul(c);
    let d = decode_utf8(c);
    if d.len() > 0 {
        assert(d.last() != '\0');
    }
}

proof fn lemma_chunk_text(b: Seq<u8>, k: int)
    requires
        0 <= k,
        64 * k < b.len(),
        valid_utf8(chunk_bytes(b, k)),
    ensures
        valid_utf8(chunk_frame(b, k)),
        frame_text(chunk_frame(b, k)) == trim_nul(decode_utf8(chunk_bytes(b, k))),
{
    let c = chunk_bytes(b, k);
    let n = (64 - c.len()) as nat;
    lemma_chunk_frame(b, k);
    lemma_zeros_decode(n);
    lemma_decode_concat(c, zeros(n));
    lemma_trim_nuls(decode_utf8(c), n);
}

/// The text that the first `n` content frames of payload `b` carry: each chunk decoded, with
/// its trailing NULs dropped.
pub open spec fn chunks_text(b: Seq<u8>, n: int) -> Seq<char>
    decreases n,
{
    if n <= 0 {
        seq![]
    } else {
        chunks_text(b, n - 1) + trim_nul(decode_utf8(chunk_bytes(b, n - 1)))
    }
}

proof fn lemma_chunks_prefix(len: Frame, frames: Seq<Frame>, b: Seq<u8>, m: int)
    requires
        is_framing_of(len, frames, b),
        0 <= m <= frames.len(),
        forall|k: int| 0 <= k < frames.len() ==> valid_utf8(#[trigger] chunk_bytes(b, k)),
    ensures
        frames_utf8(frames_view(frames.take(m))),
        frames_text(frames_view(frames.take(m))) == chunks_text(b, m),
    decreases m,
{
    if m == 0 {
        assert(frames_view(frames.take(0)) =~= seq![]);
    } else {
        let k = m - 1;
        lemma_chunks_prefix(len, frames, b, k);
        assert(64 * k < b.len()) by (nonlinear_arith)
            requires
                k < frames.len(),
                frames.len() == chunk_count(b.len()),
        ;
        lemma_chunk_text(b, k);
        assert(frames[k]@ == chunk_frame(b, k));
        assert(frames_view(frames.take(m)).drop_last() =~= frames_view(frames.take(k)));
        assert(frames_view(frames.take(m)).last() == chunk_frame(b, k));
        assert forall|i: int| 0 <= i < m implies valid_utf8(
            #[trigger] frames_view(frames.take(m))[i],
        ) by {
            if i < k {
                assert(frames_view(frames.take(k))[i] == frames[i]@);
            }
        }
    }
}

/// Framing a payload and decoding the frames gives each 64-byte chunk's text back, with the
/// NULs at the end of each chunk dropped, for every payload whose chunks are each valid UTF-8
/// (NULs inside a chunk stay).
pub proof fn lemma_payload_chunks(len: Frame, frames: Seq<Frame>, b: Seq<u8>)
    requires
        is_framing_of(len, frames, b),
        forall|k: int| 0 <= k < chunk_count(b.len()) ==> valid_utf8(#[trigger] chunk_bytes(b, k)),
    ensures
        frames_utf8(frames_view(frames)),
        frames_text(frames_view(frames)) == chunks_text(b, frames.len() as int),
{
    let n = frames.len() as int;
    lemma_chunks_prefix(len, frames, b, n);
    assert(frames.take(n) =~= frames);
}

proof fn lemma_frames_prefix(len: Frame, frames: Seq<Frame>, b: Seq<u8>, m: int)
    requires
        is_framing_of(len, frames, b),
        0 <= m <= frames.len(),
        forall|k: int| 0 <= k < frames.len() ==> valid_utf8(#[trigger] chunk_bytes(b, k)),
        forall|i: int| 0 <= i < b.len() ==> b[i] != 0,
    ensures
        frames_utf8(frames_view(frames.take(m))),
        valid_utf8(b.take(if 64 * m < b.len() { 64 * m } else { b.len() as int })),
        frames_text(frames_view(frames.take(m))) == decode_utf8(
            b.take(if 64 * m < b.len() { 64 * m } else { b.len() as int }),
        ),
    decreases m,
{
    if m == 0 {
        assert(frames_view(frames.take(0)) =~= seq![]);
        assert(b.take(0) =~= seq![]);
        assert(decode_utf8(seq![]) =~= seq![]);
    } else {
        let k = m - 1;
        lemma_frames_prefix(len, frames, b, k);
        assert(64 * k < b.len()) by (nonlinear_arith)
            requires
                k < frames.len(),
                frames.len() == chunk_count(b.len()),
        ;
        lemma_frame_text_of_chunk(b, k);
        assert(frames[k]@ == chunk_frame(b, k));
        assert(frames_view(frames.take(m)).drop_last() =~= frames_view(frames.take(k)));
        assert(frames_view(frames.take(m)).last() == chunk_frame(b, k));
        assert forall|i: int| 0 <= i < m implies valid_utf8(
            #[trigger] frames_view(frames.take(m))[i],
        ) by {
            if i < k {
                assert(frames_view(frames.take(k))[i] == frames[i]@);
            }
        }
        let e = if 64 * m < b.len() { 64 * m } else { b.len() as int };
        assert(b.take(e) =~= b.take(64 * k) + chunk_bytes(b, k));
        lemma_decode_concat(b.take(64 * k), chunk_bytes(b, k));
    }
}

/// Framing a payload and decoding the frames gives the payload's text back, for every payload
/// whose 64-byte chunks are each valid UTF-8 and which holds no NUL byte (a NUL at the end of
/// a chunk would be taken for padding).
pub proof fn lemma_payload_round_trip(len: Frame, frames: Seq<Frame>, b: Seq<u8>)
    requires
        is_framing_of(len, frames, b),
        forall|k: int| 0 <= k < chunk_count(b.len()) ==> valid_utf8(#[trigger] chunk_bytes(b, k)),
        forall|i: int| 0 <= i < b.len() ==> b[i] != 0,
    ensures
        frames_utf8(frames_view(frames)),
        frames_text(frames_view(frames)) == decode_utf8(b),
        length_of(len@) == b.len() % 65536,
{
    let n = frames.len() as int;
    lemma_frames_prefix(len, frames, b, n);
    assert(frames_view(frames.take(n)) =~= frames_view(frames));
    assert(64 * n >= b.len()) by (nonlinear_arith)
        requires
            n == chunk_count(b.len()),
    ;
    assert(b.take(b.len() as int) =~= b);
    assert(length_of(len@) == b.len() % 65536) by (nonlinear_arith)
        requires
            len@[0] == (b.len() % 256) as u8,
            len@[1] == ((b.len() / 256) % 256) as u8,
            length_of(len@) == len@[0] as nat + 256 * (len@[1] as nat),
    ;
}


/// The payload that a length frame and content frames carry: the first `length` bytes of
/// the content frames, in order.
pub open spec fn unframe(len: Frame, frames: Seq<Frame>) -> Seq<u8> {
    Seq::new(length_of(len@), |i: int| frames[i / 64]@[i % 64])
}

/// A text cut at each NUL character.
pub open spec fn split_nul(cs: Seq<char>) -> Seq<Seq<char>>
    decreases cs.len(),
{
    if cs.len() == 0 {
        seq![seq![]]
    } else if cs[0] == '\0' {
        seq![seq![]] + split_nul(cs.drop_first())
    } else {
        let rest = split_nul(cs.drop_first());
        rest.update(0, seq![cs[0]] + rest[0])
    }
}

/// No NUL character.
pub open spec fn nul_free(cs: Seq<char>) -> bool {
    forall|i: int| 0 <= i < cs.len() ==> cs[i] != '\0'
}

/// The fields of a request: method, path, and for `Post` the body.
pub open spec fn request_fields(r: Request) -> Seq<Seq<char>> {
    match r {
        Request::Get(p) => seq![crate::request::get_chars(), p@],
        Request::Post(p, b) => seq![crate::request::post_chars(), p@, b@],
        Request::Delete(p) => seq![crate::request::delete_chars(), p@],
    }
}

/// A request is valid for the wire when neither path nor body holds a NUL.
pub open spec fn wire_safe(r: Request) -> bool {
    match r {
        Request::Get(p) => nul_free(p@),
        Request::Post(p, b) => nul_free(p@) && nul_free(b@),
        Request::Delete(p) => nul_free(p@),
    }
}

proof fn lemma_split_nul_len(cs: Seq<char>)
    ensures
        split_nul(cs).len() >= 1,
    decreases cs.len(),
{
    if cs.len() > 0 {
        lemma_split_nul_len(cs.drop_first());
    }
}

proof fn lemma_split_field(a: Seq<char>, rest: Seq<char>)
    requires
        nul_free(a),
    ensures
        split_nul(a + seq!['\0'] + rest) == seq![a] + split_nul(rest),
        split_nul(a) == seq![a],
    decreases a.len(),
{
    if a.len() == 0 {
        assert(a + seq!['\0'] + rest =~= seq!['\0'] + rest);
        assert((seq!['\0'] + rest).drop_first() =~= rest);
        assert(a =~= seq![]);
    } else {
        let t = a.drop_first();
        lemma_split_field(t, rest);
        assert((a + seq!['\0'] + rest).drop_first() =~= t + seq!['\0'] + rest);
        lemma_split_nul_len(rest);
        lemma_split_nul_len(t);
        assert(seq![a[0]] + t =~= a);
        assert(split_nul(a + seq!['\0'] + rest) =~= seq![a] + split_nul(rest));
        assert(split_nul(a) =~= seq![a]);
    }
}

proof fn lemma_unframe(len: Frame, frames: Seq<Frame>, b: Seq<u8>)
    requires
        is_framing_of(len, frames, b),
        b.len() <= 65535,
    ensures
        unframe(len, frames) == b,
{
    lemma_length_round_trip(b.len());
    assert forall|i: int| 0 <= i < b.len() implies #[trigger] unframe(len, frames)[i] == b[i] by {
        let k = i / 64;
        let j = i % 64;
        assert(0 <= k < frames.len() && 0 <= j < 64 && 64 * k + j == i) by (nonlinear_arith)
            requires
                0 <= i < b.len(),
                k == i / 64,
                j == i % 64,
                frames.len() == chunk_count(b.len()),
        ;
        assert(frames[k]@ == chunk_frame(b, k));
    }
    assert(unframe(len, frames) =~= b);
}

/// A request survives its frames: the payload that the frames carry is valid UTF-8, and
/// cutting its text at NULs gives the request's method, path and body, for every request
/// whose fields hold no NUL and whose wire form fits a length frame.
pub proof fn lemma_request_round_trip(r: Request, len: Frame, frames: Seq<Frame>)
    requires
        wire_safe(r),
        encode_utf8(r.wire()).len() <= 65535,
        is_framing_of(len, frames, encode_utf8(r.wire())),
    ensures
        valid_utf8(unframe(len, frames)),
        split_nul(decode_utf8(unframe(len, frames))) == request_fields(r),
{
    lemma_unframe(len, frames, encode_utf8(r.wire()));
    let g = crate::request::get_chars();
    let po = crate::request::post_chars();
    let d = crate::request::delete_chars();
    assert(nul_free(g));
    assert(nul_free(po));
    assert(nul_free(d));
    match r {
        Request::Get(p) => {
            lemma_split_field(g, p@);
            lemma_split_field(p@, seq![]);
        },
        Request::Post(p, b) => {
            lemma_split_field(g, p@);
            lemma_split_field(p@, b@);
            lemma_split_field(b@, seq![]);
            lemma_split_field(po, p@ + seq!['\0'] + b@);
            assert(po + seq!['\0'] + p@ + seq!['\0'] + b@ =~= po + seq!['\0'] + (p@ + seq!['\0']
                + b@));
        },
        Request::Delete(p) => {
            lemma_split_field(d, p@);
            lemma_split_field(p@, seq![]);
        },
    }
}

} // verus!
