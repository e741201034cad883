//! The stream framer: extracts `\n`-terminated records from a growing byte
//! buffer, enforces a maximum record length, recovers from over-length
//! records by discarding up to the next delimiter, and converts between
//! records and structured messages.

use vstd::prelude::*;
use vstd::slice::slice_index_get;
use vstd::slice::slice_subrange;
use vstd::string::StrSliceExecFns;
use vstd::utf8::decode_utf8;
use vstd::utf8::encode_utf8;
use vstd::utf8::valid_utf8;

use crate::wire::RawMsg;

verus! {

// ---------------------------------------------------------------------------
// The byte buffer, trusted at its boundary
// ---------------------------------------------------------------------------

#[verifier::external_type_specification]
#[verifier::external_body]
pub struct ExBytesMut(bytes::BytesMut);

/// The bytes the buffer holds, front to back.
pub uninterp spec fn buf_bytes(b: bytes::BytesMut) -> Seq<u8>;

/// Relies on bytes::BytesMut::len: the number of bytes the buffer holds.
#[verifier::external_body]
fn buf_len(b: &bytes::BytesMut) -> (n: usize)
    ensures
        n == buf_bytes(*b).len(),
{
    b.len()
}

/// Relies on indexing through bytes::BytesMut's Deref to `[u8]`.
#[verifier::external_body]
fn buf_get(b: &bytes::BytesMut, i: usize) -> (r: u8)
    requires
        i < buf_bytes(*b).len(),
    ensures
        r == buf_bytes(*b)[i as int],
{
    b[i]
}

/// Relies on bytes::Buf::advance: it discards exactly the first `n` bytes,
/// and panics when `n` exceeds what the buffer holds.
#[verifier::external_body]
fn buf_advance(b: &mut bytes::BytesMut, n: usize)
    requires
        n <= buf_bytes(*old(b)).len(),
    ensures
        buf_bytes(*final(b)) == buf_bytes(*old(b)).skip(n as int),
{
    bytes::Buf::advance(b, n);
}

/// Relies on bytes::BytesMut::extend_from_slice: it appends the bytes.
#[verifier::external_body]
fn buf_extend(b: &mut bytes::BytesMut, s: &[u8])
    ensures
        buf_bytes(*final(b)) == buf_bytes(*old(b)) + s@,
{
    b.extend_from_slice(s);
}

/// Relies on str::from_utf8: it succeeds exactly on well-formed UTF-8 and
/// yields the decoded text.
#[verifier::external_body]
fn utf8(v: &[u8]) -> (r: Option<String>)
    ensures
        r is Some <==> valid_utf8(v@),
        (r matches Some(s) ==> s@ == decode_utf8(v@)),
{
    match core::str::from_utf8(v) {
        Ok(s) => Some(s.to_owned()),
        Err(_) => None,
    }
}

// ---------------------------------------------------------------------------
// What one decode call does, as a function of the state and the buffer
// ---------------------------------------------------------------------------

pub open spec fn spec_min(a: int, b: int) -> int {
    if a <= b {
        a
    } else {
        b
    }
}

/// First index in `[lo, hi)` at which `b` holds the delimiter byte `\n`,
/// or `hi` if there is none.
pub open spec fn nl_at(b: Seq<u8>, lo: int, hi: int) -> int
    decreases hi - lo,
{
    if lo >= hi {
        hi
    } else if b[lo] == 10u8 {
        lo
    } else {
        nl_at(b, lo + 1, hi)
    }
}

pub proof fn lemma_nl_at(b: Seq<u8>, lo: int, hi: int)
    requires
        0 <= lo <= hi <= b.len(),
    ensures
        lo <= nl_at(b, lo, hi) <= hi,
        forall|j: int| lo <= j < nl_at(b, lo, hi) ==> b[j] != 10u8,
        nl_at(b, lo, hi) < hi ==> b[nl_at(b, lo, hi)] == 10u8,
    decreases hi - lo,
{
    if lo < hi && b[lo] != 10u8 {
        lemma_nl_at(b, lo + 1, hi);
    }
}

pub proof fn lemma_nl_at_is(b: Seq<u8>, lo: int, hi: int, i: int)
    requires
        0 <= lo <= i <= hi <= b.len(),
        forall|j: int| lo <= j < i ==> b[j] != 10u8,
        i < hi ==> b[i] == 10u8,
    ensures
        nl_at(b, lo, hi) == i,
    decreases hi - lo,
{
    if lo < hi && b[lo] != 10u8 {
        lemma_nl_at_is(b, lo + 1, hi, i);
    }
}

/// One decode call of the framer on buffer `b` in state (`ni`, `d`) with
/// length limit `m`: the new scan index, the new discarding flag, the
/// remaining buffer, and the outcome.  `None`: no complete record yet;
/// `Some(Ok(r))`: the bytes of one record, delimiter excluded;
/// `Some(Err(()))`: the length limit was exceeded.
pub open spec fn frame_step(ni: nat, d: bool, m: nat, b: Seq<u8>) -> (
    nat,
    bool,
    Seq<u8>,
    Option<Result<Seq<u8>, ()>>,
)
    decreases b.len(),
{
    let read_to = spec_min(m as int + 1, b.len() as int);
    let lo = spec_min(ni as int, read_to);
    let nl = nl_at(b, lo, read_to);
    if 0 <= nl < read_to {
        if d {
            // Delimiter found while discarding: resynchronise and go on.
            frame_step(0, false, m, b.skip(nl + 1))
        } else {
            // A complete record.
            (0 as nat, false, b.skip(nl + 1), Some(Ok(b.subrange(0, nl))))
        }
    } else {
        if d {
            if read_to < b.len() {
                // Drop the searched window and keep discarding.
                frame_step(0, true, m, b.skip(read_to))
            } else {
                // The whole buffer was discarded: report the overrun.
                (0 as nat, true, b.skip(read_to), Some(Err(())))
            }
        } else {
            if b.len() > m {
                // Threshold crossed without a delimiter: start discarding.
                (ni, true, b, Some(Err(())))
            } else {
                // Partial data: remember where scanning stopped.
                (read_to as nat, false, b, None)
            }
        }
    }
}

/// Law: an over-length record is not fatal — the framer resynchronises.
/// While discarding with the scan cursor inside the unscanned text, one
/// decode call on a buffer holding the rest of the over-length text, its
/// delimiter, and one complete record whose body fits the limit, yields
/// exactly that record, with the framer back in its normal state and the
/// record's bytes consumed.
pub proof fn lemma_frame_resync(ni: nat, m: nat, junk: Seq<u8>, body: Seq<u8>, rest: Seq<u8>)
    requires
        ni <= junk.len(),
        forall|j: int| 0 <= j < junk.len() ==> junk[j] != 10u8,
        forall|j: int| 0 <= j < body.len() ==> body[j] != 10u8,
        body.len() <= m,
    ensures
        ({
            let b = junk + seq![10u8] + body + seq![10u8] + rest;
            frame_step(ni, true, m, b) == (
                0 as nat,
                false,
                rest,
                Some(Result::<Seq<u8>, ()>::Ok(body)),
            )
        }),
    decreases junk.len(),
{
    let b = junk + seq![10u8] + body + seq![10u8] + rest;
    let read_to = spec_min(m as int + 1, b.len() as int);
    let lo = spec_min(ni as int, read_to);
    assert(b.len() >= junk.len() + 2);
    assert(read_to >= 1);
    if junk.len() < read_to {
        // The delimiter of the over-length record is inside the window:
        // this call resynchronises and scans on.
        assert forall|j: int| lo <= j < junk.len() implies b[j] != 10u8 by {
            assert(b[j] == junk[j]);
        }
        assert(b[junk.len() as int] == 10u8);
        lemma_nl_at_is(b, lo, read_to, junk.len() as int);
        let b2 = b.skip(junk.len() as int + 1);
        assert(b2 =~= body + seq![10u8] + rest);
        // The normal scan that follows finds the record's delimiter.
        let read_to2 = spec_min(m as int + 1, b2.len() as int);
        assert(read_to2 > body.len());
        assert forall|j: int| 0 <= j < body.len() implies b2[j] != 10u8 by {
            assert(b2[j] == body[j]);
        }
        assert(b2[body.len() as int] == 10u8);
        lemma_nl_at_is(b2, 0, read_to2, body.len() as int);
        assert(b2.skip(body.len() as int + 1) =~= rest);
        assert(b2.subrange(0, body.len() as int) =~= body);
        assert(frame_step(0, false, m, b2) == (
            0 as nat,
            false,
            rest,
            Some(Result::<Seq<u8>, ()>::Ok(body)),
        ));
    } else {
        // No delimiter in the window: this call drops the window's bytes
        // and keeps discarding what is left of the over-length text.
        assert forall|j: int| lo <= j < read_to implies b[j] != 10u8 by {
            assert(b[j] == junk[j]);
        }
        lemma_nl_at_is(b, lo, read_to, read_to);
        assert(read_to < b.len());
        let junk2 = junk.skip(read_to);
        assert(b.skip(read_to) =~= junk2 + seq![10u8] + body + seq![10u8] + rest);
        assert forall|j: int| 0 <= j < junk2.len() implies junk2[j] != 10u8 by {
            assert(junk2[j] == junk[j + read_to]);
        }
        lemma_frame_resync(0, m, junk2, body, rest);
    }
}

/// The record body with one trailing carriage return removed, if present.
pub open spec fn strip_cr(b: Seq<u8>) -> Seq<u8> {
    if b.len() > 0 && b[b.len() - 1] == 13u8 {
        b.take(b.len() - 1)
    } else {
        b
    }
}

/// What decoding one framed record yields: the UTF-8 text of the body
/// (carriage return stripped) parsed as a message, or the encoding error.
pub open spec fn record_outcome(rec: Seq<u8>, r: Result<Option<RawMsg>, IrcCodecError>) -> bool {
    let body = strip_cr(rec);
    if valid_utf8(body) {
        r matches Ok(Some(msg)) && msg.is_parse_of(decode_utf8(body))
    } else {
        r == Err::<Option<RawMsg>, IrcCodecError>(IrcCodecError::InvalidEncoding)
    }
}

// ---------------------------------------------------------------------------
// Small verified helpers over the buffer
// ---------------------------------------------------------------------------

/// First index of the delimiter within `[lo, hi)` of the buffer, or `hi`.
fn find_nl(buf: &bytes::BytesMut, lo: usize, hi: usize) -> (i: usize)
    requires
        lo <= hi <= buf_bytes(*buf).len(),
    ensures
        i as int == nl_at(buf_bytes(*buf), lo as int, hi as int),
        lo <= i <= hi,
{
    let mut j: usize = lo;
    while j < hi
        invariant
            lo <= j <= hi <= buf_bytes(*buf).len(),
            forall|k: int| lo <= k < j ==> buf_bytes(*buf)[k] != 10u8,
        decreases hi - j,
    {
        if buf_get(buf, j) == 10u8 {
            proof {
                lemma_nl_at_is(buf_bytes(*buf), lo as int, hi as int, j as int);
            }
            return j;
        }
        j = j + 1;
    }
    proof {
        lemma_nl_at_is(buf_bytes(*buf), lo as int, hi as int, hi as int);
    }
    hi
}

/// Copies the first `n` bytes of the buffer, then consumes them together
/// with the following delimiter byte.
fn take_record(buf: &mut bytes::BytesMut, n: usize) -> (rec: Vec<u8>)
    requires
        n < buf_bytes(*old(buf)).len(),
        n < usize::MAX,
    ensures
        rec@ == buf_bytes(*old(buf)).subrange(0, n as int),
        buf_bytes(*final(buf)) == buf_bytes(*old(buf)).skip(n + 1),
{
    let rec = copy_front(buf, n);
    buf_advance(buf, n + 1);
    rec
}

/// Copies the first `n` bytes of the buffer without consuming them.
fn copy_front(buf: &bytes::BytesMut, n: usize) -> (rec: Vec<u8>)
    requires
        n <= buf_bytes(*buf).len(),
    ensures
        rec@ == buf_bytes(*buf).subrange(0, n as int),
{
    let mut rec: Vec<u8> = Vec::new();
    let mut j: usize = 0;
    while j < n
        invariant
            0 <= j <= n <= buf_bytes(*buf).len(),
            rec@ == buf_bytes(*buf).subrange(0, j as int),
        decreases n - j,
    {
        rec.push(buf_get(buf, j));
        proof {
            assert(rec@ =~= buf_bytes(*buf).subrange(0, j + 1));
        }
        j = j + 1;
    }
    rec
}

/// The record body without a trailing carriage return, if one is there.
fn without_carriage_return(s: &[u8]) -> (r: &[u8])
    ensures
        r@ == strip_cr(s@),
{
    if s.len() > 0 && *slice_index_get(s, s.len() - 1) == 13u8 {
        slice_subrange(s, 0, s.len() - 1)
    } else {
        proof {
            if s@.len() > 0 && s@[s@.len() - 1] == 13u8 {
            } else {
                assert(strip_cr(s@) == s@);
            }
        }
        s
    }
}

// ---------------------------------------------------------------------------
// The framer itself
// ---------------------------------------------------------------------------

/// An error while decoding records from the byte stream.
#[derive(Clone, Copy, Debug, PartialEq, Eq, Structural)]
pub enum IrcCodecError {
    /// A record body exceeded the configured maximum length before a
    /// delimiter appeared.
    MaxLengthExceeded,
    /// Record bytes were not valid text.
    InvalidEncoding,
}

/// Splits incoming bytes into `\n`-terminated records and parses each into
/// a `RawMsg`; encodes messages back to CRLF-terminated bytes.
#[derive(Clone, Debug, Eq, PartialEq, Ord, PartialOrd, Hash)]
pub struct IrcCodec {
    /// Index of the next byte to examine for a delimiter, so repeated
    /// calls on a growing buffer do not rescan what was already searched.
    next_index: usize,
    /// The maximum length of a record body before its delimiter.
    max_length: usize,
    /// Whether the remainder of an over-length record is being discarded.
    is_discarding: bool,
}

impl IrcCodec {
    pub closed spec fn spec_next_index(&self) -> nat {
        self.next_index as nat
    }

    pub closed spec fn spec_discarding(&self) -> bool {
        self.is_discarding
    }

    pub closed spec fn spec_max_length(&self) -> nat {
        self.max_length as nat
    }

    /// A fresh framer: nothing scanned, nothing discarded, and the default
    /// length limit, which doubles the protocol's own 512-byte convention
    /// to tolerate non-conforming peers.
    pub fn new() -> (c: IrcCodec)
        ensures
            c.spec_next_index() == 0,
            c.spec_discarding() == false,
            c.spec_max_length() == 1024,
    {
        IrcCodec { next_index: 0, max_length: 1024, is_discarding: false }
    }

    /// The maximum record length when decoding.
    pub fn max_length(&self) -> (m: usize)
        ensures
            m as nat == self.spec_max_length(),
    {
        self.max_length
    }

    /// Extracts the next record from `buf`, as `frame_step` describes:
    /// `Ok(Some(msg))` for a complete record, `Ok(None)` when more bytes
    /// are needed, and an error once per over-length record and per record
    /// that is not valid text.  Consumed bytes leave the front of `buf`.
    #[verifier::loop_isolation(false)]
    pub fn decode(&mut self, buf: &mut bytes::BytesMut) -> (r: Result<
        Option<RawMsg>,
        IrcCodecError,
    >)
        ensures
            final(self).spec_max_length() == old(self).spec_max_length(),
            ({
                let step = frame_step(
                    old(self).spec_next_index(),
                    old(self).spec_discarding(),
                    old(self).spec_max_length(),
                    buf_bytes(*old(buf)),
                );
                &&& final(self).spec_next_index() == step.0
                &&& final(self).spec_discarding() == step.1
                &&& buf_bytes(*final(buf)) == step.2
                &&& (match step.3 {
                    None => r == Ok::<Option<RawMsg>, IrcCodecError>(None),
                    Some(Err(e)) => r == Err::<Option<RawMsg>, IrcCodecError>(
                        IrcCodecError::MaxLengthExceeded,
                    ),
                    Some(Ok(rec)) => record_outcome(rec, r),
                })
            }),
    {
        let ghost step0 = frame_step(
            self.spec_next_index(),
            self.spec_discarding(),
            self.spec_max_length(),
            buf_bytes(*buf),
        );
        loop
            invariant
                self.max_length == old(self).max_length,
                step0 == frame_step(
                    self.spec_next_index(),
                    self.spec_discarding(),
                    self.spec_max_length(),
                    buf_bytes(*buf),
                ),
            decreases buf_bytes(*buf).len(),
        {
            let ghost b = buf_bytes(*buf);
            let len = buf_len(buf);
            let read_to: usize = if self.max_length < len {
                self.max_length + 1
            } else {
                len
            };
            let lo: usize = if self.next_index < read_to {
                self.next_index
            } else {
                read_to
            };
            proof {
                assert(read_to as int == spec_min(self.spec_max_length() as int + 1, len as int));
                assert(lo as int == spec_min(self.spec_next_index() as int, read_to as int));
                lemma_nl_at(b, lo as int, read_to as int);
            }
            let nl = find_nl(buf, lo, read_to);
            if nl < read_to {
                if self.is_discarding {
                    buf_advance(buf, nl + 1);
                    self.is_discarding = false;
                    self.next_index = 0;
                    proof {
                        assert(buf_bytes(*buf) == b.skip(nl + 1));
                    }
                } else {
                    self.next_index = 0;
                    let rec = take_record(buf, nl);
                    let body = without_carriage_return(rec.as_slice());
                    proof {
                        assert(buf_bytes(*buf) == b.skip(nl + 1));
                        assert(rec@ == b.subrange(0, nl as int));
                    }
                    match utf8(body) {
                        Some(line) => {
                            let msg = RawMsg::from_string(line);
                            return Ok(Some(msg));
                        },
                        None => {
                            return Err(IrcCodecError::InvalidEncoding);
                        },
                    }
                }
            } else {
                if self.is_discarding {
                    buf_advance(buf, read_to);
                    self.next_index = 0;
                    proof {
                        assert(buf_bytes(*buf) == b.skip(read_to as int));
                    }
                    if buf_len(buf) == 0 {
                        return Err(IrcCodecError::MaxLengthExceeded);
                    }
                } else {
                    if len > self.max_length {
                        self.is_discarding = true;
                        return Err(IrcCodecError::MaxLengthExceeded);
                    } else {
                        self.next_index = read_to;
                        return Ok(None);
                    }
                }
            }
        }
    }

    /// As `decode`, but for the end of the stream: when ordinary decoding
    /// yields nothing and a residue remains that is more than a lone
    /// carriage return, the residue is returned as a final unterminated
    /// record.
    pub fn decode_eof(&mut self, buf: &mut bytes::BytesMut) -> (r: Result<
        Option<RawMsg>,
        IrcCodecError,
    >)
        ensures
            final(self).spec_max_length() == old(self).spec_max_length(),
            ({
                let step = frame_step(
                    old(self).spec_next_index(),
                    old(self).spec_discarding(),
                    old(self).spec_max_length(),
                    buf_bytes(*old(buf)),
                );
                &&& final(self).spec_discarding() == step.1
                &&& (match step.3 {
                    Some(Err(e)) => r == Err::<Option<RawMsg>, IrcCodecError>(
                        IrcCodecError::MaxLengthExceeded,
                    ) && final(self).spec_next_index() == step.0 && buf_bytes(*final(buf))
                        == step.2,
                    Some(Ok(rec)) => record_outcome(rec, r) && final(self).spec_next_index()
                        == step.0 && buf_bytes(*final(buf)) == step.2,
                    None => {
                        let residue = step.2;
                        if residue.len() == 0 || residue == seq![13u8] {
                            &&& r == Ok::<Option<RawMsg>, IrcCodecError>(None)
                            &&& final(self).spec_next_index() == step.0
                            &&& buf_bytes(*final(buf)) == step.2
                        } else {
                            &&& buf_bytes(*final(buf)) == Seq::<u8>::empty()
                            &&& record_outcome(residue, r)
                            &&& (valid_utf8(strip_cr(residue)) ==> final(self).spec_next_index()
                                == 0)
                            &&& (!valid_utf8(strip_cr(residue)) ==> final(self).spec_next_index()
                                == step.0)
                        }
                    },
                })
            }),
    {
        let first = self.decode(buf);
        match first {
            Ok(None) => {
                let len = buf_len(buf);
                if len == 0 || (len == 1 && buf_get(buf, 0) == 13u8) {
                    proof {
                        if buf_bytes(*buf).len() == 1 && buf_bytes(*buf)[0] == 13u8 {
                            assert(buf_bytes(*buf) =~= seq![13u8]);
                        }
                    }
                    Ok(None)
                } else {
                    let ghost residue = buf_bytes(*buf);
                    let rec = copy_front(buf, len);
                    buf_advance(buf, len);
                    proof {
                        assert(rec@ =~= residue);
                        assert(buf_bytes(*buf) =~= Seq::<u8>::empty());
                    }
                    let body = without_carriage_return(rec.as_slice());
                    match utf8(body) {
                        Some(line) => {
                            self.next_index = 0;
                            let msg = RawMsg::from_string(line);
                            Ok(Some(msg))
                        },
                        None => Err(IrcCodecError::InvalidEncoding),
                    }
                }
            },
            other => other,
        }
    }

    /// Renders `msg` and appends its bytes to `buf`, terminated by CRLF.
    pub fn encode(&mut self, msg: RawMsg, buf: &mut bytes::BytesMut) -> (r: Result<
        (),
        IrcCodecError,
    >)
        ensures
            *final(self) == *old(self),
            buf_bytes(*final(buf)) == buf_bytes(*old(buf)) + encode_utf8(msg.render()) + seq![
                13u8,
                10u8,
            ],
            r is Ok,
    {
        let line = msg.to_string();
        let mut out: Vec<u8> = line.as_str().as_bytes_vec();
        out.push(13u8);
        out.push(10u8);
        proof {
            assert(out@ =~= encode_utf8(line@) + seq![13u8, 10u8]);
        }
        buf_extend(buf, out.as_slice());
        proof {
            assert(buf_bytes(*buf) =~= buf_bytes(*old(buf)) + encode_utf8(msg.render()) + seq![
                13u8,
                10u8,
            ]);
        }
        Ok(())
    }
}

impl Default for IrcCodec {
    /// The same framer `new` returns.
    fn default() -> (c: Self)
        ensures
            c.spec_next_index() == 0,
            c.spec_discarding() == false,
            c.spec_max_length() == 1024,
    {
        Self::new()
    }
}

} // verus!
