use vstd::prelude::*;
use vstd::string::*;
use vstd::utf8::*;
use crate::driver::{Reader, ReaderWriter, Transcript, Transfer, Writer};
use crate::error::{ApiError, IoError, UsbError};
use crate::about::{about_sid, AboutResponse};
use crate::json::{json_of, parse_json, JsonValue};
use crate::packet::{
    chunk_count, chunk_frame, frames_text, frames_utf8, frames_view, from_request, length_frame,
    length_of, to_len_chunks, to_string, Frame, ACK, IO_SIZE, PREAMBLE,
};
use crate::request::Request;

verus! {

/// How many times a failed attempt is tried again.
pub const MAX_RETRY: u8 = 3;

/// How many stale frames a flush reads at most before it gives up draining.
pub const FLUSH_LIMIT: usize = 4096;

// ---------------------------------------------------------------------------------------------
// Error envelopes
// ---------------------------------------------------------------------------------------------

pub open spec fn error_key() -> Seq<char> {
    seq!['e', 'r', 'r', 'o', 'r']
}

/// The API error that a numeric error code stands for (`None`: code 200, no error).
pub open spec fn api_error_for(code: Option<i64>) -> Option<ApiError> {
    match code {
        Some(c) => if c == 200 {
            None
        } else if c == 400 {
            Some(ApiError::Linq400)
        } else if c == 403 {
            Some(ApiError::Linq403)
        } else if c == 404 {
            Some(ApiError::Linq404)
        } else if c == 500 {
            Some(ApiError::Linq500)
        } else if c == 504 {
            Some(ApiError::Linq504)
        } else {
            Some(ApiError::LinqUnknown)
        },
        None => Some(ApiError::LinqUnknown),
    }
}

/// The API error that a parsed reply carries: a reply is an error envelope when it is an
/// object whose one key is `"error"` and whose value there is a number.
pub open spec fn api_error_of(j: Option<JsonValue>) -> Option<ApiError> {
    match j {
        Some(JsonValue::Object(m)) => if m@.len() == 1 && m@[0].0@ == error_key()
            && m@[0].1 is Number {
            api_error_for(m@[0].1->Number_0)
        } else {
            None
        },
        _ => None,
    }
}

fn api_error_for_code(code: Option<i64>) -> (r: Option<ApiError>)
    ensures
        r == api_error_for(code),
{
    match code {
        Some(200) => None,
        Some(400) => Some(ApiError::Linq400),
        Some(403) => Some(ApiError::Linq403),
        Some(404) => Some(ApiError::Linq404),
        Some(500) => Some(ApiError::Linq500),
        Some(504) => Some(ApiError::Linq504),
        _ => Some(ApiError::LinqUnknown),
    }
}

/// The API error that a parsed reply carries, if it is an error envelope.
pub fn error_of_json(j: &Option<JsonValue>) -> (r: Option<ApiError>)
    ensures
        r == api_error_of(*j),
{
    match j {
        Some(JsonValue::Object(m)) => {
            if m.len() != 1 {
                return None;
            }
            let key = String::from_str("error");
            proof {
                reveal_strlit("error");
            }
            assert(key@ =~= error_key());
            if !(m[0].0 == key) {
                return None;
            }
            match &m[0].1 {
                JsonValue::Number(c) => api_error_for_code(*c),
                _ => None,
            }
        },
        _ => None,
    }
}

/// Usb protocol does not support transmitting the error code with the response. So we peek
/// at the response and parse it to see if it is an {"error": code} object. If it is, we
/// turn this Ok into an Err to present sane behavior to caller.
pub fn translate_error(response: String) -> (r: Result<String, IoError>)
    ensures
        match api_error_of(json_of(response@)) {
            Some(e) => r == Err::<String, IoError>(IoError::ApiError(e)),
            None => r matches Ok(s) && s@ == response@,
        },
{
    let j = parse_json(response.as_str());
    match error_of_json(&j) {
        Some(e) => Err(IoError::ApiError(e)),
        None => Ok(response),
    }
}

// ---------------------------------------------------------------------------------------------
// The session protocol, as a machine over what the peer gave back
// ---------------------------------------------------------------------------------------------

/// How an attempt, or a whole request, ended.
pub enum Outcome {
    /// The decoded reply.
    Text(Seq<char>),
    /// The peer's own failure, passed on.
    Peer(IoError),
    /// A frame that should have been an acknowledge was not.
    Protocol,
    /// A reply frame was not valid UTF-8.
    Parse,
    /// The reply was an error envelope.
    Api(ApiError),
}

/// The frames that a request is sent as.
pub struct Plan {
    pub len: Seq<u8>,
    pub frames: Seq<Seq<u8>>,
}

pub open spec fn plan_of(r: Request) -> Plan {
    plan_for(encode_utf8(r.wire()))
}

/// The frames that carry payload `b`.
pub open spec fn plan_for(b: Seq<u8>) -> Plan {
    Plan {
        len: length_frame(b.len()),
        frames: Seq::new(chunk_count(b.len()), |k: int| chunk_frame(b, k)),
    }
}

/// Where an attempt stands: what it does next.
pub enum Stage {
    /// write the preamble
    Preamble,
    /// read an acknowledge of the preamble
    PreambleAck,
    /// write the length frame
    Length,
    /// read an acknowledge before content frame `i`
    Ack(int),
    /// write content frame `i`
    Content(int),
    /// read the first reply frame
    First,
    /// write an acknowledge of a long reply's preamble
    LongAck,
    /// read a long reply's length frame
    LongLength,
    /// write an acknowledge before the next of `n` chunks, some received
    ChunkAck(int, Seq<Seq<u8>>),
    /// read the next of `n` chunks
    Chunk(int, Seq<Seq<u8>>),
    /// the attempt is over
    Ended(Outcome),
    /// the calls left the protocol
    Off,
}

/// The outcome of decoding reply frames.
pub open spec fn decoded(fs: Seq<Seq<u8>>) -> Outcome {
    if frames_utf8(fs) {
        Outcome::Text(frames_text(fs))
    } else {
        Outcome::Parse
    }
}

/// After a write of `expected`, go on to `next`, unless the write failed.
pub open spec fn after_write(t: Transfer, expected: Seq<u8>, next: Stage) -> Stage {
    match t {
        Transfer::Wrote(f, w) => if f == expected {
            match w {
                Err(e) => Stage::Ended(Outcome::Peer(e)),
                Ok(_) => next,
            }
        } else {
            Stage::Off
        },
        Transfer::Read(..) => Stage::Off,
    }
}

/// What is wrong with a read that must bring a full acknowledge (`None`: nothing).
pub open spec fn ack_fault(t: Transfer) -> Option<Outcome> {
    match t {
        Transfer::Read(rr, f) => match rr {
            Err(e) => Some(Outcome::Peer(e)),
            Ok(n) => if n == IO_SIZE && f == ACK@ {
                None
            } else {
                Some(Outcome::Protocol)
            },
        },
        Transfer::Wrote(..) => None,
    }
}

/// After a read that must bring a full acknowledge, go on to `next`.
pub open spec fn after_ack(t: Transfer, next: Stage) -> Stage {
    match t {
        Transfer::Read(..) => match ack_fault(t) {
            Some(o) => Stage::Ended(o),
            None => next,
        },
        Transfer::Wrote(..) => Stage::Off,
    }
}

/// One step of an attempt.
pub open spec fn step(p: Plan, s: Stage, t: Transfer) -> Stage {
    match s {
        Stage::Preamble => after_write(t, PREAMBLE@, Stage::PreambleAck),
        Stage::PreambleAck => after_ack(t, Stage::Length),
        Stage::Length => after_write(
            t,
            p.len,
            if p.frames.len() > 0 {
                Stage::Ack(0)
            } else {
                Stage::First
            },
        ),
        Stage::Ack(i) => after_ack(t, Stage::Content(i)),
        Stage::Content(i) => if 0 <= i < p.frames.len() {
            after_write(
                t,
                p.frames[i],
                if i + 1 < p.frames.len() {
                    Stage::Ack(i + 1)
                } else {
                    Stage::First
                },
            )
        } else {
            Stage::Off
        },
        Stage::First => match t {
            Transfer::Read(rr, f) => match rr {
                Err(e) => Stage::Ended(Outcome::Peer(e)),
                Ok(_) => if f != PREAMBLE@ {
                    Stage::Ended(decoded(seq![f]))
                } else {
                    Stage::LongAck
                },
            },
            Transfer::Wrote(..) => Stage::Off,
        },
        Stage::LongAck => after_write(t, ACK@, Stage::LongLength),
        Stage::LongLength => match t {
            Transfer::Read(rr, f) => match rr {
                Err(e) => Stage::Ended(Outcome::Peer(e)),
                Ok(_) => if chunk_count(length_of(f)) == 0 {
                    Stage::Ended(decoded(seq![]))
                } else {
                    Stage::ChunkAck(chunk_count(length_of(f)) as int, seq![])
                },
            },
            Transfer::Wrote(..) => Stage::Off,
        },
        Stage::ChunkAck(n, got) => after_write(t, ACK@, Stage::Chunk(n, got)),
        Stage::Chunk(n, got) => match t {
            Transfer::Read(rr, f) => match rr {
                Err(e) => Stage::Ended(Outcome::Peer(e)),
                Ok(_) => if got.len() + 1 >= n {
                    Stage::Ended(decoded(got.push(f)))
                } else {
                    Stage::ChunkAck(n, got.push(f))
                },
            },
            Transfer::Wrote(..) => Stage::Off,
        },
        Stage::Ended(_) => Stage::Off,
        Stage::Off => Stage::Off,
    }
}

/// Where an attempt stands after the calls `t`, from stage `s`.
pub open spec fn attempt_from(p: Plan, s: Stage, t: Seq<Transfer>) -> Stage
    decreases t.len(),
{
    if t.len() == 0 {
        s
    } else {
        step(p, attempt_from(p, s, t.drop_last()), t.last())
    }
}

/// The outcome of an attempt once a decoded reply has been checked for an error envelope.
pub open spec fn enveloped(o: Outcome) -> Outcome {
    match o {
        Outcome::Text(s) => match api_error_of(json_of(s)) {
            Some(a) => Outcome::Api(a),
            None => Outcome::Text(s),
        },
        _ => o,
    }
}

/// The device asked to be tried again later.
pub open spec fn is_busy(o: Outcome) -> bool {
    o == Outcome::Api(ApiError::Linq504) || o == Outcome::Peer(IoError::ApiError(ApiError::Linq504))
}

/// The transfer failed in a way that stale frames may explain.
pub open spec fn is_transport_fault(o: Outcome) -> bool {
    o is Protocol || (o matches Outcome::Peer(e) && e is Usb)
}

/// Where a whole request stands.
pub enum Session {
    /// in an attempt, after `k` retries
    Trying(Stage, int),
    /// draining stale frames (`c` so far) after a fault, after `k` retries
    Flushing(int, Outcome, int),
    /// the request is over
    Finished(Outcome),
    /// the calls left the protocol
    Off,
}

/// What follows an attempt that ended with `o` after `k` retries.
pub open spec fn settle(k: int, o: Outcome) -> Session {
    if o is Text {
        Session::Finished(o)
    } else if is_busy(o) {
        if k + 1 > MAX_RETRY {
            Session::Finished(o)
        } else {
            Session::Trying(Stage::Preamble, k + 1)
        }
    } else if is_transport_fault(o) {
        Session::Flushing(0, o, k + 1)
    } else {
        Session::Finished(o)
    }
}

/// What follows a flush.
pub open spec fn resume(k: int, o: Outcome) -> Session {
    if k > MAX_RETRY {
        Session::Finished(o)
    } else {
        Session::Trying(Stage::Preamble, k)
    }
}

/// One step of a request.
pub open spec fn advance(p: Plan, s: Session, t: Transfer) -> Session {
    match s {
        Session::Trying(st, k) => match step(p, st, t) {
            Stage::Ended(o) => settle(k, enveloped(o)),
            Stage::Off => Session::Off,
            next => Session::Trying(next, k),
        },
        Session::Flushing(c, o, k) => match t {
            Transfer::Read(rr, _) => if rr is Err || c + 1 >= FLUSH_LIMIT {
                resume(k, o)
            } else {
                Session::Flushing(c + 1, o, k)
            },
            Transfer::Wrote(..) => Session::Off,
        },
        _ => Session::Off,
    }
}

/// Where a request stands after the calls `t`, from `s`.
pub open spec fn session_from(p: Plan, s: Session, t: Seq<Transfer>) -> Session
    decreases t.len(),
{
    if t.len() == 0 {
        s
    } else {
        advance(p, session_from(p, s, t.drop_last()), t.last())
    }
}

/// `r` is what a function returning `Result<String, IoError>` gives for outcome `o`.
pub open spec fn conforms(r: Result<String, IoError>, o: Outcome) -> bool {
    match o {
        Outcome::Text(s) => r matches Ok(x) && x@ == s,
        Outcome::Peer(e) => r == Err::<String, IoError>(e),
        Outcome::Protocol => r matches Err(IoError::Usb(UsbError::Protocol(_))),
        Outcome::Parse => r matches Err(IoError::Parser(_)),
        Outcome::Api(a) => r == Err::<String, IoError>(IoError::ApiError(a)),
    }
}

/// The calls that took a peer's history from `h0` to `h1`.
pub open spec fn new_calls(h0: Seq<Transfer>, h1: Seq<Transfer>) -> Seq<Transfer> {
    h1.subrange(h0.len() as int, h1.len() as int)
}

/// History `h1` extends `h0`.
pub open spec fn grew(h0: Seq<Transfer>, h1: Seq<Transfer>) -> bool {
    h0.len() <= h1.len() && h1.subrange(0, h0.len() as int) == h0
}

/// One attempt at sending plan `p`, answered by the calls `u`, ends with `out`.
pub open spec fn attempt_answers(p: Plan, u: Seq<Transfer>, out: Result<String, IoError>) -> bool {
    attempt_from(p, Stage::Preamble, u) matches Stage::Ended(o) && conforms(out, o)
}

/// A request sent as plan `p`, with its retries, answered by the calls `u`, ends with `out`.
pub open spec fn request_answers(p: Plan, u: Seq<Transfer>, out: Result<String, IoError>) -> bool {
    session_from(p, Session::Trying(Stage::Preamble, 0), u) matches Session::Finished(o) && conforms(
        out,
        o,
    )
}

proof fn lemma_attempt_push(p: Plan, s: Stage, t: Seq<Transfer>, e: Transfer)
    ensures
        attempt_from(p, s, t.push(e)) == step(p, attempt_from(p, s, t), e),
{
    assert(t.push(e).drop_last() =~= t);
}

proof fn lemma_session_push(p: Plan, s: Session, t: Seq<Transfer>, e: Transfer)
    ensures
        session_from(p, s, t.push(e)) == advance(p, session_from(p, s, t), e),
{
    assert(t.push(e).drop_last() =~= t);
}

/// Once an attempt has ended or left the protocol, further calls leave it off.
proof fn lemma_attempt_stays_off(p: Plan, s: Stage, t: Seq<Transfer>, u: Seq<Transfer>)
    requires
        u.len() > 0,
        attempt_from(p, s, t) is Ended || attempt_from(p, s, t) is Off,
    ensures
        attempt_from(p, s, t + u) is Off,
    decreases u.len(),
{
    assert((t + u).drop_last() =~= t + u.drop_last());
    if u.len() > 1 {
        lemma_attempt_stays_off(p, s, t, u.drop_last());
    } else {
        assert(t + u.drop_last() =~= t);
    }
}

/// An attempt's calls, made inside a request, move the request as they move the attempt.
proof fn lemma_lift(p: Plan, s0: Session, t: Seq<Transfer>, k: int, u: Seq<Transfer>)
    requires
        session_from(p, s0, t) == Session::Trying(Stage::Preamble, k),
        !(attempt_from(p, Stage::Preamble, u) is Ended),
        !(attempt_from(p, Stage::Preamble, u) is Off),
    ensures
        session_from(p, s0, t + u) == Session::Trying(attempt_from(p, Stage::Preamble, u), k),
    decreases u.len(),
{
    if u.len() == 0 {
        assert(t + u =~= t);
    } else {
        let v = u.drop_last();
        let prev = attempt_from(p, Stage::Preamble, v);
        if prev is Ended || prev is Off {
            assert(v + seq![u.last()] =~= u);
            lemma_attempt_stays_off(p, Stage::Preamble, v, seq![u.last()]);
        }
        lemma_lift(p, s0, t, k, v);
        assert((t + u).drop_last() =~= t + v);
    }
}

proof fn lemma_lift_end(p: Plan, s0: Session, t: Seq<Transfer>, k: int, u: Seq<Transfer>, o: Outcome)
    requires
        session_from(p, s0, t) == Session::Trying(Stage::Preamble, k),
        attempt_from(p, Stage::Preamble, u) == Stage::Ended(o),
    ensures
        session_from(p, s0, t + u) == settle(k, enveloped(o)),
{
    assert(u.len() > 0);
    let v = u.drop_last();
    let prev = attempt_from(p, Stage::Preamble, v);
    if prev is Ended || prev is Off {
        assert(v + seq![u.last()] =~= u);
        lemma_attempt_stays_off(p, Stage::Preamble, v, seq![u.last()]);
    }
    lemma_lift(p, s0, t, k, v);
    assert((t + u).drop_last() =~= t + v);
}


/// One attempt that a peer breaks by answering the acknowledge before the first content frame
/// with a preamble, followed by the failed read that ends the flush after it.
pub open spec fn missing_ack_round(p: Plan, e: IoError, f: Seq<u8>) -> Seq<Transfer> {
    seq![
        Transfer::Wrote(PREAMBLE@, Ok(64)),
        Transfer::Read(Ok(64), ACK@),
        Transfer::Wrote(p.len, Ok(64)),
        Transfer::Read(Ok(64), PREAMBLE@),
        Transfer::Read(Err(e), f),
    ]
}

/// `n` such rounds, one after the other.
pub open spec fn missing_ack_rounds(p: Plan, e: IoError, f: Seq<u8>, n: nat) -> Seq<Transfer>
    decreases n,
{
    if n == 0 {
        seq![]
    } else {
        missing_ack_rounds(p, e, f, (n - 1) as nat) + missing_ack_round(p, e, f)
    }
}

proof fn lemma_missing_ack_round(p: Plan, e: IoError, f: Seq<u8>, t: Seq<Transfer>, k: int)
    requires
        p.frames.len() >= 1,
        session_from(p, Session::Trying(Stage::Preamble, 0), t) == Session::Trying(
            Stage::Preamble,
            k,
        ),
        0 <= k <= MAX_RETRY,
    ensures
        session_from(p, Session::Trying(Stage::Preamble, 0), t + missing_ack_round(p, e, f))
            == resume(k + 1, Outcome::Protocol),
{
    let s0 = Session::Trying(Stage::Preamble, 0);
    let r = missing_ack_round(p, e, f);
    let a = r.take(4);
    lemma_attempt_push(p, Stage::Preamble, seq![], r[0]);
    assert(seq![].push(r[0]) =~= a.take(1));
    lemma_attempt_push(p, Stage::Preamble, a.take(1), r[1]);
    assert(a.take(1).push(r[1]) =~= a.take(2));
    lemma_attempt_push(p, Stage::Preamble, a.take(2), r[2]);
    assert(a.take(2).push(r[2]) =~= a.take(3));
    lemma_attempt_push(p, Stage::Preamble, a.take(3), r[3]);
    assert(a.take(3).push(r[3]) =~= a);
    assert(ACK@ != PREAMBLE@) by {
        assert(ACK@[0] != PREAMBLE@[0]);
    }
    assert(attempt_from(p, Stage::Preamble, a) == Stage::Ended(Outcome::Protocol));
    lemma_lift_end(p, s0, t, k, a, Outcome::Protocol);
    lemma_session_push(p, s0, t + a, r[4]);
    assert((t + a).push(r[4]) =~= t + r);
}

/// A peer that answers a preamble where the acknowledge before the first content frame
/// belongs, on every attempt, makes the request fail with a protocol violation after
/// `1 + MAX_RETRY` attempts, each followed by a flush.
pub proof fn lemma_missing_ack_fails(p: Plan, e: IoError, f: Seq<u8>)
    requires
        p.frames.len() >= 1,
    ensures
        session_from(
            p,
            Session::Trying(Stage::Preamble, 0),
            missing_ack_rounds(p, e, f, (MAX_RETRY + 1) as nat),
        ) == Session::Finished(Outcome::Protocol),
{
    let s0 = Session::Trying(Stage::Preamble, 0);
    assert(session_from(p, s0, missing_ack_rounds(p, e, f, 0)) == s0);
    lemma_missing_ack_round(p, e, f, missing_ack_rounds(p, e, f, 0), 0);
    assert(session_from(p, s0, missing_ack_rounds(p, e, f, 1)) == Session::Trying(Stage::Preamble, 1));
    lemma_missing_ack_round(p, e, f, missing_ack_rounds(p, e, f, 1), 1);
    assert(session_from(p, s0, missing_ack_rounds(p, e, f, 2)) == Session::Trying(Stage::Preamble, 2));
    lemma_missing_ack_round(p, e, f, missing_ack_rounds(p, e, f, 2), 2);
    assert(session_from(p, s0, missing_ack_rounds(p, e, f, 3)) == Session::Trying(Stage::Preamble, 3));
    lemma_missing_ack_round(p, e, f, missing_ack_rounds(p, e, f, 3), 3);
}

proof fn lemma_attempt_concat(p: Plan, s: Stage, t: Seq<Transfer>, u: Seq<Transfer>)
    ensures
        attempt_from(p, s, t + u) == attempt_from(p, attempt_from(p, s, t), u),
    decreases u.len(),
{
    if u.len() == 0 {
        assert(t + u =~= t);
    } else {
        lemma_attempt_concat(p, s, t, u.drop_last());
        assert((t + u).drop_last() =~= t + u.drop_last());
    }
}

/// The calls that send a request's frames when every write succeeds and every acknowledge
/// comes: the preamble, its acknowledge, the length frame, then an acknowledge and a content
/// frame for each of the first `n` content frames.
pub open spec fn sent_frames(p: Plan, n: nat) -> Seq<Transfer>
    decreases n,
{
    if n == 0 {
        seq![
            Transfer::Wrote(PREAMBLE@, Ok(64)),
            Transfer::Read(Ok(64), ACK@),
            Transfer::Wrote(p.len, Ok(64)),
        ]
    } else {
        sent_frames(p, (n - 1) as nat) + seq![
            Transfer::Read(Ok(64), ACK@),
            Transfer::Wrote(p.frames[n - 1], Ok(64)),
        ]
    }
}

/// The calls that take a long reply: its preamble, an acknowledge, its length frame `lf`,
/// then an acknowledge and a chunk for each of the first `n` chunks `cs`.
pub open spec fn long_reply(lf: Seq<u8>, cs: Seq<Seq<u8>>, n: nat) -> Seq<Transfer>
    decreases n,
{
    if n == 0 {
        seq![
            Transfer::Read(Ok(64), PREAMBLE@),
            Transfer::Wrote(ACK@, Ok(64)),
            Transfer::Read(Ok(64), lf),
        ]
    } else {
        long_reply(lf, cs, (n - 1) as nat) + seq![
            Transfer::Wrote(ACK@, Ok(64)),
            Transfer::Read(Ok(64), cs[n - 1]),
        ]
    }
}

proof fn lemma_sent_frames(p: Plan, n: nat)
    requires
        1 <= p.frames.len(),
        n <= p.frames.len(),
    ensures
        attempt_from(p, Stage::Preamble, sent_frames(p, n)) == (if n < p.frames.len() {
            Stage::Ack(n as int)
        } else {
            Stage::First
        }),
    decreases n,
{
    assert(ACK@ != PREAMBLE@) by {
        assert(ACK@[0] != PREAMBLE@[0]);
    }
    let t = sent_frames(p, n);
    if n == 0 {
        lemma_attempt_push(p, Stage::Preamble, seq![], t[0]);
        assert(seq![].push(t[0]) =~= t.take(1));
        lemma_attempt_push(p, Stage::Preamble, t.take(1), t[1]);
        assert(t.take(1).push(t[1]) =~= t.take(2));
        lemma_attempt_push(p, Stage::Preamble, t.take(2), t[2]);
        assert(t.take(2).push(t[2]) =~= t);
    } else {
        let prev = sent_frames(p, (n - 1) as nat);
        lemma_sent_frames(p, (n - 1) as nat);
        let ev0 = Transfer::Read(Ok(64), ACK@);
        let ev1 = Transfer::Wrote(p.frames[n - 1], Ok(64));
        lemma_attempt_push(p, Stage::Preamble, prev, ev0);
        lemma_attempt_push(p, Stage::Preamble, prev.push(ev0), ev1);
        assert(prev.push(ev0).push(ev1) =~= t);
    }
}

proof fn lemma_long_reply(p: Plan, lf: Seq<u8>, cs: Seq<Seq<u8>>, n: nat)
    requires
        lf.len() >= 2,
        cs.len() == chunk_count(length_of(lf)),
        cs.len() > 0,
        n <= cs.len(),
    ensures
        attempt_from(p, Stage::First, long_reply(lf, cs, n)) == (if n < cs.len() {
            Stage::ChunkAck(cs.len() as int, cs.take(n as int))
        } else {
            Stage::Ended(decoded(cs))
        }),
    decreases n,
{
    let t = long_reply(lf, cs, n);
    if n == 0 {
        lemma_attempt_push(p, Stage::First, seq![], t[0]);
        assert(seq![].push(t[0]) =~= t.take(1));
        lemma_attempt_push(p, Stage::First, t.take(1), t[1]);
        assert(t.take(1).push(t[1]) =~= t.take(2));
        lemma_attempt_push(p, Stage::First, t.take(2), t[2]);
        assert(t.take(2).push(t[2]) =~= t);
        assert(cs.take(0) =~= seq![]);
    } else {
        let prev = long_reply(lf, cs, (n - 1) as nat);
        lemma_long_reply(p, lf, cs, (n - 1) as nat);
        let ev0 = Transfer::Wrote(ACK@, Ok(64));
        let ev1 = Transfer::Read(Ok(64), cs[n - 1]);
        lemma_attempt_push(p, Stage::First, prev, ev0);
        lemma_attempt_push(p, Stage::First, prev.push(ev0), ev1);
        assert(prev.push(ev0).push(ev1) =~= t);
        assert(cs.take(n - 1).push(cs[n - 1]) =~= cs.take(n as int));
        assert(cs.take(cs.len() as int) =~= cs);
    }
}

/// A long reply decoded end to end: when every write succeeds, every acknowledge comes, and
/// the device answers with a preamble, the length frame `lf` and then its chunks `cs`, the
/// request settles on the decoded chunks after its first attempt (a text that is no error
/// envelope ends it with that text). With the framing laws, chunks framed from a text give
/// that text back.
pub proof fn lemma_long_reply_decoded(p: Plan, lf: Seq<u8>, cs: Seq<Seq<u8>>)
    requires
        p.frames.len() >= 1,
        lf.len() >= 2,
        cs.len() == chunk_count(length_of(lf)),
        cs.len() > 0,
    ensures
        session_from(
            p,
            Session::Trying(Stage::Preamble, 0),
            sent_frames(p, p.frames.len()) + long_reply(lf, cs, cs.len()),
        ) == settle(0, enveloped(decoded(cs))),
        enveloped(decoded(cs)) is Text ==> session_from(
            p,
            Session::Trying(Stage::Preamble, 0),
            sent_frames(p, p.frames.len()) + long_reply(lf, cs, cs.len()),
        ) == Session::Finished(Outcome::Text(frames_text(cs))),
{
    let a = sent_frames(p, p.frames.len());
    let b = long_reply(lf, cs, cs.len());
    lemma_sent_frames(p, p.frames.len());
    lemma_long_reply(p, lf, cs, cs.len());
    lemma_attempt_concat(p, Stage::Preamble, a, b);
    assert(session_from(p, Session::Trying(Stage::Preamble, 0), seq![]) == Session::Trying(
        Stage::Preamble,
        0,
    ));
    assert(seq![] + (a + b) =~= a + b);
    lemma_lift_end(p, Session::Trying(Stage::Preamble, 0), seq![], 0, a + b, decoded(cs));
}

// ---------------------------------------------------------------------------------------------
// Driving the peer
// ---------------------------------------------------------------------------------------------

proof fn lemma_extend(h0: Seq<Transfer>, t: Seq<Transfer>, e: Transfer)
    ensures
        (h0 + t).push(e) == h0 + t.push(e),
{
    assert((h0 + t).push(e) =~= h0 + t.push(e));
}

/// Calls appended to a history are the new calls.
pub proof fn lemma_new_calls(h0: Seq<Transfer>, t: Seq<Transfer>)
    ensures
        grew(h0, h0 + t),
        new_calls(h0, h0 + t) == t,
{
    assert((h0 + t).subrange(0, h0.len() as int) =~= h0);
    assert(new_calls(h0, h0 + t) =~= t);
}

fn send<T: Writer>(ctx: &mut T, sid: &str, f: &Frame) -> (r: Result<usize, IoError>)
    ensures
        final(ctx).history() == old(ctx).history().push(Transfer::Wrote(f@, r)),
{
    ctx.write(sid, f.as_slice())
}

fn receive<T: Reader>(ctx: &mut T, sid: &str) -> (r: (Result<usize, IoError>, Frame))
    ensures
        final(ctx).history() == old(ctx).history().push(Transfer::Read(r.0, r.1@)),
{
    let mut buf: Frame = [0u8; 64];
    let res = ctx.read(sid, vstd::array::ref_mut_array_unsizing_coercion(&mut buf));
    (res, buf)
}

fn frame_eq(a: &Frame, b: &Frame) -> (r: bool)
    ensures
        r == (a@ == b@),
{
    let mut i: usize = 0;
    while i < IO_SIZE
        invariant
            i <= 64,
            forall|j: int| 0 <= j < i ==> a@[j] == b@[j],
        decreases 64 - i,
    {
        if a[i] != b[i] {
            return false;
        }
        i = i + 1;
    }
    assert(a@ =~= b@);
    true
}

fn protocol_error(sid: &str, what: &str) -> (r: IoError)
    ensures
        r matches IoError::Usb(UsbError::Protocol(_)),
{
    let mut e = String::from_str("[");
    e.append(sid);
    e.append("] failed to receive ");
    e.append(what);
    IoError::Usb(UsbError::Protocol(e))
}

/// The failure outcomes, for a step that returns no value.
pub open spec fn conforms_unit(r: Result<(), IoError>, o: Outcome) -> bool {
    match o {
        Outcome::Peer(e) => r == Err::<(), IoError>(e),
        Outcome::Protocol => r matches Err(IoError::Usb(UsbError::Protocol(_))),
        _ => false,
    }
}

/// Helper to make sure we have a valid ack: read one frame, which must be a full ACK.
fn read_ack<T: Reader>(ctx: &mut T, sid: &str) -> (r: Result<(), IoError>)
    ensures
        final(ctx).history().len() == old(ctx).history().len() + 1,
        final(ctx).history().drop_last() == old(ctx).history(),
        final(ctx).history().last() is Read,
        match ack_fault(final(ctx).history().last()) {
            Some(o) => conforms_unit(r, o),
            None => r is Ok,
        },
{
    let (res, f) = receive(ctx, sid);
    proof {
        assert(ctx.history().drop_last() =~= old(ctx).history());
    }
    match res {
        Err(e) => Err(e),
        Ok(l) => {
            if l == IO_SIZE && frame_eq(&f, &ACK) {
                Ok(())
            } else {
                Err(protocol_error(sid, "acknowledge!"))
            }
        },
    }
}

fn decode_reply(v: &Vec<Frame>) -> (r: Result<String, IoError>)
    ensures
        conforms(r, decoded(frames_view(v@))),
{
    to_string(v)
}

/// One attempt at a request: send its frames, then take the reply in short or long mode.
fn exchange<T: ReaderWriter>(
    ctx: &mut T,
    sid: &str,
    len: &Frame,
    frames: &Vec<Frame>,
    Ghost(p): Ghost<Plan>,
) -> (r: (Result<String, IoError>, Ghost<Seq<Transfer>>, Ghost<Outcome>))
    requires
        len@ == p.len,
        frames@.len() == p.frames.len(),
        forall|k: int| 0 <= k < frames@.len() ==> #[trigger] frames@[k]@ == p.frames[k],
    ensures
        final(ctx).history() == old(ctx).history() + r.1@,
        attempt_from(p, Stage::Preamble, r.1@) == Stage::Ended(r.2@),
        conforms(r.0, r.2@),
{
    let ghost h0 = ctx.history();
    let ghost mut t: Seq<Transfer> = seq![];
    let ghost mut st: Stage = Stage::Preamble;
    assert(h0 + t =~= h0);

    let w = send(ctx, sid, &PREAMBLE);
    let ghost ev = Transfer::Wrote(PREAMBLE@, w);
    proof {
        lemma_attempt_push(p, Stage::Preamble, t, ev);
        lemma_extend(h0, t, ev);
        t = t.push(ev);
        st = step(p, st, ev);
    }
    if let Err(e) = w {
        return (Err(e), Ghost(t), Ghost(Outcome::Peer(e)));
    }
    let a = read_ack(ctx, sid);
    let ghost ev = ctx.history().last();
    proof {
        assert(ctx.history() =~= (h0 + t).push(ev));
        lemma_attempt_push(p, Stage::Preamble, t, ev);
        lemma_extend(h0, t, ev);
        t = t.push(ev);
        st = step(p, st, ev);
    }
    if let Err(e) = a {
        return (Err(e), Ghost(t), Ghost(ack_fault(ev)->Some_0));
    }
    let w = send(ctx, sid, len);
    let ghost ev = Transfer::Wrote(len@, w);
    proof {
        lemma_attempt_push(p, Stage::Preamble, t, ev);
        lemma_extend(h0, t, ev);
        t = t.push(ev);
        st = step(p, st, ev);
    }
    if let Err(e) = w {
        return (Err(e), Ghost(t), Ghost(Outcome::Peer(e)));
    }
    let n = frames.len();
    let mut i: usize = 0;
    while i < n
        invariant
            n == frames@.len(),
            n == p.frames.len(),
            forall|k: int| 0 <= k < frames@.len() ==> #[trigger] frames@[k]@ == p.frames[k],
            i <= n,
            st == (if i < n { Stage::Ack(i as int) } else { Stage::First }),
            attempt_from(p, Stage::Preamble, t) == st,
            h0 == old(ctx).history(),
            ctx.history() == h0 + t,
        decreases n - i,
    {
        let a = read_ack(ctx, sid);
        let ghost ev = ctx.history().last();
        proof {
            assert(ctx.history() =~= (h0 + t).push(ev));
            lemma_attempt_push(p, Stage::Preamble, t, ev);
            lemma_extend(h0, t, ev);
            t = t.push(ev);
            st = step(p, st, ev);
        }
        if let Err(e) = a {
            return (Err(e), Ghost(t), Ghost(ack_fault(ev)->Some_0));
        }
        let w = send(ctx, sid, &frames[i]);
        let ghost ev = Transfer::Wrote(frames@[i as int]@, w);
        proof {
            lemma_attempt_push(p, Stage::Preamble, t, ev);
            lemma_extend(h0, t, ev);
            t = t.push(ev);
            st = step(p, st, ev);
        }
        if let Err(e) = w {
            return (Err(e), Ghost(t), Ghost(Outcome::Peer(e)));
        }
        i = i + 1;
    }
    let (res, f) = receive(ctx, sid);
    let ghost ev = Transfer::Read(res, f@);
    proof {
        lemma_attempt_push(p, Stage::Preamble, t, ev);
        lemma_extend(h0, t, ev);
        t = t.push(ev);
        st = step(p, st, ev);
    }
    if let Err(e) = res {
        return (Err(e), Ghost(t), Ghost(Outcome::Peer(e)));
    }
    if !frame_eq(&f, &PREAMBLE) {
        // Short mode: the frame is the whole reply
        let v = vec![f];
        assert(frames_view(v@) =~= seq![f@]);
        let out = decode_reply(&v);
        return (out, Ghost(t), Ghost(decoded(frames_view(v@))));
    }
    // Long mode: acknowledge, then take the length and the chunks
    let w = send(ctx, sid, &ACK);
    let ghost ev = Transfer::Wrote(ACK@, w);
    proof {
        lemma_attempt_push(p, Stage::Preamble, t, ev);
        lemma_extend(h0, t, ev);
        t = t.push(ev);
        st = step(p, st, ev);
    }
    if let Err(e) = w {
        return (Err(e), Ghost(t), Ghost(Outcome::Peer(e)));
    }
    let (res, f) = receive(ctx, sid);
    let ghost ev = Transfer::Read(res, f@);
    proof {
        lemma_attempt_push(p, Stage::Preamble, t, ev);
        lemma_extend(h0, t, ev);
        t = t.push(ev);
        st = step(p, st, ev);
    }
    if let Err(e) = res {
        return (Err(e), Ghost(t), Ghost(Outcome::Peer(e)));
    }
    let (_, chunks) = to_len_chunks(&f);
    let mut v: Vec<Frame> = Vec::new();
    assert(frames_view(v@) =~= seq![]);
    if chunks == 0 {
        let out = decode_reply(&v);
        return (out, Ghost(t), Ghost(decoded(frames_view(v@))));
    }
    loop
        invariant
            chunks > 0,
            v@.len() < chunks,
            st == Stage::ChunkAck(chunks as int, frames_view(v@)),
            attempt_from(p, Stage::Preamble, t) == st,
            h0 == old(ctx).history(),
            ctx.history() == h0 + t,
        decreases chunks - v@.len(),
    {
        let w = send(ctx, sid, &ACK);
        let ghost ev = Transfer::Wrote(ACK@, w);
        proof {
            lemma_attempt_push(p, Stage::Preamble, t, ev);
            lemma_extend(h0, t, ev);
            t = t.push(ev);
            st = step(p, st, ev);
        }
        if let Err(e) = w {
            return (Err(e), Ghost(t), Ghost(Outcome::Peer(e)));
        }
        let (res, f) = receive(ctx, sid);
        let ghost ev = Transfer::Read(res, f@);
        proof {
            lemma_attempt_push(p, Stage::Preamble, t, ev);
            lemma_extend(h0, t, ev);
            t = t.push(ev);
            st = step(p, st, ev);
        }
        if let Err(e) = res {
            return (Err(e), Ghost(t), Ghost(Outcome::Peer(e)));
        }
        let ghost got = frames_view(v@);
        v.push(f);
        assert(frames_view(v@) =~= got.push(f@));
        if v.len() >= chunks {
            let out = decode_reply(&v);
            return (out, Ghost(t), Ghost(decoded(frames_view(v@))));
        }
    }
}

/// The request's frames are the plan of the request.
proof fn lemma_plan(r: Request, len: Frame, frames: Seq<Frame>)
    requires
        crate::packet::is_framing_of(len, frames, encode_utf8(r.wire())),
    ensures
        len@ == plan_of(r).len,
        frames.len() == plan_of(r).frames.len(),
        forall|k: int| 0 <= k < frames.len() ==> #[trigger] frames[k]@ == plan_of(r).frames[k],
{
}

/// Attempt to make a request: one exchange, with no error envelope check and no retry. The
/// result is the one that the protocol gives for the calls actually made on `ctx`.
pub fn make_request<T: ReaderWriter>(ctx: &mut T, sid: &str, r: &Request) -> (result: Result<
    String,
    IoError,
>)
    ensures
        grew(old(ctx).history(), final(ctx).history()),
        attempt_answers(plan_of(*r), new_calls(old(ctx).history(), final(ctx).history()), result),
{
    let (len, packets) = from_request(r);
    proof {
        lemma_plan(*r, len, packets@);
    }
    let (res, Ghost(t), Ghost(o)) = exchange(ctx, sid, &len, &packets, Ghost(plan_of(*r)));
    proof {
        lemma_new_calls(old(ctx).history(), t);
    }
    res
}

/// NOTE The USB on the OS level can have cached incoming bytes. This will flush out what
/// ever is pending so we can start from a fresh state: read until a read fails (at most
/// `FLUSH_LIMIT` frames).
fn flush<T: Reader>(
    ctx: &mut T,
    sid: &str,
    Ghost(p): Ghost<Plan>,
    Ghost(s0): Ghost<Session>,
    Ghost(h0): Ghost<Seq<Transfer>>,
    Ghost(t0): Ghost<Seq<Transfer>>,
    Ghost(o): Ghost<Outcome>,
    Ghost(k): Ghost<int>,
) -> (t: Ghost<Seq<Transfer>>)
    requires
        old(ctx).history() == h0 + t0,
        session_from(p, s0, t0) == Session::Flushing(0, o, k),
    ensures
        final(ctx).history() == h0 + t@,
        session_from(p, s0, t@) == resume(k, o),
{
    let ghost mut t = t0;
    let mut count: usize = 0;
    loop
        invariant
            count < FLUSH_LIMIT,
            session_from(p, s0, t) == Session::Flushing(count as int, o, k),
            ctx.history() == h0 + t,
        decreases FLUSH_LIMIT - count,
    {
        let (res, f) = receive(ctx, sid);
        let ghost ev = Transfer::Read(res, f@);
        proof {
            lemma_session_push(p, s0, t, ev);
            lemma_extend(h0, t, ev);
            t = t.push(ev);
        }
        if res.is_err() || count + 1 >= FLUSH_LIMIT {
            return Ghost(t);
        }
        count = count + 1;
    }
}

/// Drive some packets and make a request to a K64 USB device: try again (at most
/// `MAX_RETRY` times) when the device is busy, and flush first after a transport fault. The
/// result is the one that the protocol gives for the calls actually made on `ctx`.
pub fn request_raw<T: ReaderWriter>(ctx: &mut T, sid: &str, r: Request) -> (result: Result<
    String,
    IoError,
>)
    ensures
        grew(old(ctx).history(), final(ctx).history()),
        request_answers(plan_of(r), new_calls(old(ctx).history(), final(ctx).history()), result),
{
    let ghost h0 = ctx.history();
    let (len, packets) = from_request(&r);
    let ghost p = plan_of(r);
    proof {
        lemma_plan(r, len, packets@);
    }
    let ghost s0 = Session::Trying(Stage::Preamble, 0);
    let ghost mut t: Seq<Transfer> = seq![];
    assert(h0 + t =~= h0);
    let mut retry: u8 = 0;
    loop
        invariant
            retry <= MAX_RETRY,
            p == plan_of(r),
            s0 == Session::Trying(Stage::Preamble, 0),
            h0 == old(ctx).history(),
            len@ == p.len,
            packets@.len() == p.frames.len(),
            forall|k: int| 0 <= k < packets@.len() ==> #[trigger] packets@[k]@ == p.frames[k],
            session_from(p, s0, t) == Session::Trying(Stage::Preamble, retry as int),
            ctx.history() == h0 + t,
        decreases MAX_RETRY - retry,
    {
        let (res, Ghost(u), Ghost(o)) = exchange(ctx, sid, &len, &packets, Ghost(p));
        proof {
            lemma_lift_end(p, s0, t, retry as int, u, o);
            assert(h0 + t + u =~= h0 + (t + u));
            t = t + u;
        }
        let result = match res {
            Ok(s) => translate_error(s),
            Err(e) => Err(e),
        };
        let ghost q = enveloped(o);
        assert(conforms(result, q));
        match result {
            Ok(s) => {
                assert(q is Text);
                assert(settle(retry as int, q) == Session::Finished(q));
                proof {
                    lemma_new_calls(h0, t);
                }
                return Ok(s);
            },
            Err(e) => {
                if matches!(e, IoError::ApiError(ApiError::Linq504)) {
                    assert(is_busy(q));
                    if retry + 1 > MAX_RETRY {
                        assert(!(q is Text));
                        assert(settle(retry as int, q) == Session::Finished(q));
                        proof {
                            lemma_new_calls(h0, t);
                        }
                        return Err(e);
                    }
                    retry = retry + 1;
                } else if matches!(e, IoError::Usb(_)) {
                    assert(!is_busy(q) && is_transport_fault(q));
                    let Ghost(t1) = flush(
                        ctx,
                        sid,
                        Ghost(p),
                        Ghost(s0),
                        Ghost(h0),
                        Ghost(t),
                        Ghost(q),
                        Ghost(retry + 1),
                    );
                    proof {
                        t = t1;
                    }
                    retry = retry + 1;
                    if retry > MAX_RETRY {
                        proof {
                            lemma_new_calls(h0, t);
                        }
                        return Err(e);
                    }
                } else {
                    assert(!is_busy(q) && !is_transport_fault(q));
                    assert(!(q is Text));
                    assert(settle(retry as int, q) == Session::Finished(q));
                    proof {
                        lemma_new_calls(h0, t);
                    }
                    return Err(e);
                }
            },
        }
    }
}

// ---------------------------------------------------------------------------------------------
// Opening a device
// ---------------------------------------------------------------------------------------------

/// The wire form of the request for a device's description.
pub open spec fn about_wire() -> Seq<char> {
    crate::request::get_chars() + seq!['\0'] + "/ATX/about"@
}

/// The frames of the request for a device's description.
pub open spec fn about_plan() -> Plan {
    plan_for(encode_utf8(about_wire()))
}

/// The session id that a reply to the request for a description gives, if any.
pub open spec fn about_id(out: Result<String, IoError>) -> Option<Seq<char>> {
    match out {
        Ok(s) => about_sid(json_of(s@)),
        Err(_) => None,
    }
}

/// The calls of several requests, one after the other.
pub open spec fn joined(segs: Seq<Seq<Transfer>>) -> Seq<Transfer>
    decreases segs.len(),
{
    if segs.len() == 0 {
        seq![]
    } else {
        joined(segs.drop_last()) + segs.last()
    }
}

/// `r` is what opening gives when its requests for a description were answered by the calls
/// `segs` and returned `outs`: it asks until a reply gives a session id, at most
/// `1 + MAX_RETRY` times, and otherwise fails with the last failure.
pub open spec fn open_result(
    segs: Seq<Seq<Transfer>>,
    outs: Seq<Result<String, IoError>>,
    r: Result<String, IoError>,
) -> bool {
    &&& 1 <= segs.len() <= MAX_RETRY + 1
    &&& outs.len() == segs.len()
    &&& forall|i: int| 0 <= i < segs.len() ==> request_answers(about_plan(), #[trigger] segs[i], outs[i])
    &&& forall|i: int| 0 <= i < segs.len() - 1 ==> #[trigger] about_id(outs[i]) is None
    &&& match r {
        Ok(id) => about_id(outs.last()) == Some(id@),
        Err(e) => {
            &&& segs.len() == MAX_RETRY + 1
            &&& about_id(outs.last()) is None
            &&& (outs.last() matches Err(x) ==> x == e)
            &&& (outs.last() is Ok ==> e matches IoError::Usb(UsbError::Parser(_)))
        },
    }
}

/// `r` is what opening gives for the calls `u` actually made on the peer.
pub open spec fn open_answers(u: Seq<Transfer>, r: Result<String, IoError>) -> bool {
    exists|segs: Seq<Seq<Transfer>>, outs: Seq<Result<String, IoError>>|
        joined(segs) == u && #[trigger] open_result(segs, outs, r)
}

proof fn lemma_open_answers(
    u: Seq<Transfer>,
    segs: Seq<Seq<Transfer>>,
    outs: Seq<Result<String, IoError>>,
    r: Result<String, IoError>,
)
    requires
        joined(segs) == u,
        open_result(segs, outs, r),
    ensures
        open_answers(u, r),
{
}

pub proof fn lemma_joined_push(segs: Seq<Seq<Transfer>>, u: Seq<Transfer>)
    ensures
        joined(segs.push(u)) == joined(segs) + u,
{
    assert(segs.push(u).drop_last() =~= segs);
}

/// Ask a K64 device for its description, trying again on any failure (at most `MAX_RETRY`
/// times), and return the session id that it reports.
pub fn open<T: ReaderWriter>(ctx: &mut T, sid: &str) -> (r: Result<String, IoError>)
    ensures
        grew(old(ctx).history(), final(ctx).history()),
        open_answers(new_calls(old(ctx).history(), final(ctx).history()), r),
{
    let ghost h0 = ctx.history();
    let ghost mut segs: Seq<Seq<Transfer>> = seq![];
    let ghost mut outs: Seq<Result<String, IoError>> = seq![];
    assert(h0 + joined(segs) =~= h0);
    let mut retry: u8 = 0;
    loop
        invariant
            retry <= MAX_RETRY,
            h0 == old(ctx).history(),
            ctx.history() == h0 + joined(segs),
            segs.len() == retry,
            outs.len() == retry,
            forall|i: int| 0 <= i < segs.len() ==> request_answers(about_plan(), #[trigger] segs[i], outs[i]),
            forall|i: int| 0 <= i < segs.len() ==> #[trigger] about_id(outs[i]) is None,
        decreases MAX_RETRY - retry,
    {
        let q = Request::get("/ATX/about");
        assert(plan_of(q) == about_plan()) by {
            assert(q.wire() =~= about_wire());
        }
        let ghost hb = ctx.history();
        let response = request_raw(ctx, sid, q);
        let ghost resp = response;
        let ghost u = new_calls(hb, ctx.history());
        proof {
            assert(ctx.history() =~= hb + u);
            lemma_joined_push(segs, u);
            assert(h0 + joined(segs) + u =~= h0 + (joined(segs) + u));
            segs = segs.push(u);
            outs = outs.push(resp);
        }
        let failure = match response {
            Ok(s) => {
                let j = parse_json(s.as_str());
                match j {
                    Some(v) => match AboutResponse::from_json(&v) {
                        Some(a) => {
                            proof {
                                lemma_new_calls(h0, joined(segs));
                                lemma_open_answers(joined(segs), segs, outs, Ok(a.about.sid));
                            }
                            return Ok(a.about.sid);
                        },
                        None => IoError::Usb(UsbError::Parser("bad about document".to_string())),
                    },
                    None => IoError::Usb(UsbError::Parser("reply is not JSON".to_string())),
                }
            },
            Err(e) => e,
        };
        assert(about_id(resp) is None);
        retry = retry + 1;
        if retry > MAX_RETRY {
            proof {
                lemma_new_calls(h0, joined(segs));
                lemma_open_answers(joined(segs), segs, outs, Err(failure));
            }
            return Err(failure);
        }
    }
}

} // verus!
