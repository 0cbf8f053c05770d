//! The incremental request decoder.
//!
//! `Codec::decode` takes the bytes read so far from a connection, consumes
//! as much of the front frame as it can, and keeps where it stopped, so that
//! the next call goes on from there without reading a byte twice.
use vstd::prelude::*;
use vstd::slice::{slice_subrange, slice_to_vec};
use bytes::BytesMut;
use crate::db::{args_view, CmdReq, CmdResp};
use crate::error::{Error, RedisError};
use crate::frame::{
    all_digits, count, decimal, lemma_done_bounds, digits_value, inline_text, is_digit, is_first, lemma_digits_prefix,
    lemma_digits_push, lemma_first_found, lemma_line_kept, lemma_crlf_found, crlf_at, first_crlf, line_end, parse_frame, parse_inline,
    parse_state, shift, window, Count, Line, Parse, Stage, CR, DOLLAR, LF, MAX_ARGS, MAX_BULK,
    MAX_LINE, MINUS, STAR,
};

verus! {

#[verifier::external_type_specification]
#[verifier::external_body]
pub struct ExBytesMut(bytes::BytesMut);

/// The bytes that a buffer holds.
pub uninterp spec fn bytes_of(b: BytesMut) -> Seq<u8>;

/// Relies on `<BytesMut as Deref>::deref`: a view of the bytes the buffer holds.
#[verifier::external_body]
pub(crate) fn buf_bytes(b: &BytesMut) -> (r: &[u8])
    ensures
        r@ == bytes_of(*b),
{
    &b[..]
}

/// Relies on `<BytesMut as Buf>::advance`: drops the first `n` bytes
/// (it panics past the end).
#[verifier::external_body]
fn buf_advance(b: &mut BytesMut, n: usize)
    requires
        n <= bytes_of(*old(b)).len(),
    ensures
        bytes_of(*final(b)) == bytes_of(*old(b)).skip(n as int),
{
    bytes::Buf::advance(b, n)
}

/// Relies on `BytesMut::extend_from_slice`: appends the bytes of `s`.
#[verifier::external_body]
fn buf_extend(b: &mut BytesMut, s: &[u8])
    ensures
        bytes_of(*final(b)) == bytes_of(*old(b)) + s@,
{
    b.extend_from_slice(s)
}

/// Relies on `memchr::memchr`: the index of the first `needle` in `hay`.
#[verifier::external_body]
fn find_byte(needle: u8, hay: &[u8]) -> (r: Option<usize>)
    ensures
        match r {
            Some(i) => is_first(hay@, needle, i as int),
            None => forall|j: int| 0 <= j < hay@.len() ==> hay@[j] != needle,
        },
{
    memchr::memchr(needle, hay)
}

/// How a header line ends, as `line_end` says.
enum LineScan {
    More,
    Bad,
    At(usize),
}

/// How an argument count reads, as `count` says.
enum CountScan {
    Bad,
    NonPositive,
    Positive(u64),
}

/// Finds the end of the header line at the front of `data`: its first
/// `\r\n`, looked for among the `\r` bytes within `MAX_LINE`.
fn scan_line(data: &[u8]) -> (r: LineScan)
    ensures
        match r {
            LineScan::More => line_end(data@) == Line::More,
            LineScan::Bad => line_end(data@) == Line::Bad,
            LineScan::At(i) => line_end(data@) == Line::At(i as int),
        },
{
    let lim: usize = if data.len() <= MAX_LINE {
        data.len()
    } else {
        MAX_LINE
    };
    let mut start: usize = 0;
    while start < lim
        invariant
            0 <= start <= lim,
            lim <= data@.len(),
            lim <= MAX_LINE,
            lim == data@.len() || lim == MAX_LINE,
            forall|j: int| 0 <= j < start ==> !crlf_at(data@, j),
        decreases lim - start,
    {
        let w = slice_subrange(data, start, lim);
        match find_byte(CR, w) {
            None => {
                assert forall|j: int| 0 <= j < lim implies !crlf_at(data@, j) by {
                    if j >= start {
                        assert(w@[j - start] == data@[j]);
                    }
                }
                start = lim;
            },
            Some(k) => {
                let i = start + k;
                assert forall|j: int| 0 <= j < i implies !crlf_at(data@, j) by {
                    if j >= start {
                        assert(w@[j - start] == data@[j]);
                    }
                }
                assert(data@[i as int] == CR) by {
                    assert(w@[k as int] == data@[i as int]);
                }
                if i + 1 >= data.len() {
                    assert(!exists|j: int| first_crlf(data@, j)) by {
                        if exists|j: int| first_crlf(data@, j) {
                            let j = choose|j: int| first_crlf(data@, j);
                            assert(!crlf_at(data@, j));
                        }
                    }
                    return LineScan::More;
                }
                if data[i + 1] == LF {
                    assert(first_crlf(data@, i as int));
                    proof {
                        lemma_crlf_found(data@, i as int);
                    }
                    return LineScan::At(i);
                }
                assert(!crlf_at(data@, i as int));
                start = i + 1;
            },
        }
    }
    assert(!exists|j: int| first_crlf(data@, j)) by {
        if exists|j: int| first_crlf(data@, j) {
            let j = choose|j: int| first_crlf(data@, j);
            assert(!crlf_at(data@, j));
        }
    }
    if data.len() > MAX_LINE {
        LineScan::Bad
    } else {
        LineScan::More
    }
}

/// Reads `s` as a decimal number of at most `cap`.
fn parse_decimal(s: &[u8], cap: u64) -> (r: Option<u64>)
    requires
        cap <= MAX_BULK,
    ensures
        match r {
            Some(v) => decimal(s@, cap as nat) == Some(v as nat),
            None => decimal(s@, cap as nat) is None,
        },
{
    if s.len() == 0 {
        return None;
    }
    let mut v: u64 = 0;
    let mut i: usize = 0;
    while i < s.len()
        invariant
            0 <= i <= s.len(),
            all_digits(s@.take(i as int)),
            v as nat == digits_value(s@.take(i as int)),
            v <= cap,
            cap <= MAX_BULK,
        decreases s.len() - i,
    {
        let b = s[i];
        if b < 48 || b > 57 {
            assert(!all_digits(s@));
            return None;
        }
        proof {
            lemma_digits_push(s@, i as int);
            assert(all_digits(s@.take(i + 1))) by {
                assert forall|j: int| 0 <= j < i + 1 implies is_digit(#[trigger] s@.take(i + 1)[j]) by {
                    if j < i {
                        assert(s@.take(i + 1)[j] == s@.take(i as int)[j]);
                    }
                }
            }
        }
        v = v * 10 + (b - 48) as u64;
        i = i + 1;
        if v > cap {
            proof {
                if all_digits(s@) {
                    lemma_digits_prefix(s@, i as int);
                }
            }
            return None;
        }
    }
    assert(s@.take(i as int) =~= s@);
    Some(v)
}

/// Reads the argument count of a multi-bulk header.
fn parse_count(s: &[u8]) -> (r: CountScan)
    ensures
        match r {
            CountScan::Bad => count(s@) == Count::Bad,
            CountScan::NonPositive => count(s@) == Count::NonPositive,
            CountScan::Positive(n) => count(s@) == Count::Positive(n as nat),
        },
{
    if s.len() > 0 && s[0] == MINUS {
        if s.len() == 1 {
            return CountScan::Bad;
        }
        let mut i: usize = 1;
        while i < s.len()
            invariant
                1 <= i <= s.len(),
                forall|j: int| 1 <= j < i ==> is_digit(#[trigger] s@[j]),
            decreases s.len() - i,
        {
            if s[i] < 48 || s[i] > 57 {
                assert(!is_digit(s@.skip(1)[i - 1]));
                return CountScan::Bad;
            }
            i = i + 1;
        }
        assert forall|j: int| 0 <= j < s@.skip(1).len() implies is_digit(#[trigger] s@.skip(1)[j]) by {
            assert(s@.skip(1)[j] == s@[j + 1]);
        }
        return CountScan::NonPositive;
    }
    match parse_decimal(s, MAX_ARGS) {
        None => CountScan::Bad,
        Some(n) => {
            if n == 0 {
                CountScan::NonPositive
            } else {
                CountScan::Positive(n)
            }
        },
    }
}

fn protocol_error() -> (e: Error)
    ensures
        e is Protocol,
{
    Error::Protocol(RedisError::new(String::from_str("protocol error")))
}

/// Where the decoder stands between two frames or inside a multi-bulk frame.
enum ReqType {
    Init,
    MultiBulk,
}

/// The incremental request decoder of one connection.
pub struct Codec {
    req: CmdReq,
    named: bool,
    req_type: ReqType,
    multibulklen: i64,
    bulklen: i64,
    consumed: Ghost<Seq<u8>>,
}

/// `s` is what is left of `s0` once a prefix was taken from its front:
/// nothing was added, changed or reordered.
pub open spec fn lost_prefix(s0: Seq<u8>, s: Seq<u8>) -> bool {
    s.len() <= s0.len() && s == s0.skip(s0.len() - s.len())
}

/// The bytes taken from the front of `s0` to leave `s`.
pub open spec fn taken(s0: Seq<u8>, s: Seq<u8>) -> Seq<u8> {
    s0.take(s0.len() - s.len())
}

/// The first header or payload due at stage `st` is not complete in `r`
/// (and, at the start of a frame, nothing in `r` is refused yet): a decode
/// call can take nothing.
pub open spec fn step_blocked(r: Seq<u8>, st: Stage) -> bool {
    match st {
        Stage::Start => {
            ||| r.len() == 0
            ||| (r[0] == STAR && line_end(r) is More)
            ||| (r[0] != STAR && parse_inline(r) is Incomplete)
        },
        Stage::Bulks { left, .. } => left > 0 && (r.len() == 0 || (r[0] == DOLLAR && line_end(r) is More)),
        Stage::Body { len, .. } => r.len() < len + 2,
    }
}

proof fn lemma_skip_lost(s0: Seq<u8>, n: int)
    requires
        0 <= n <= s0.len(),
    ensures
        lost_prefix(s0, s0.skip(n)),
        taken(s0, s0.skip(n)) == s0.take(n),
{
    assert(s0.skip(n).len() == s0.len() - n);
}

proof fn lemma_lost_twice(a: Seq<u8>, b: Seq<u8>, c: Seq<u8>)
    requires
        lost_prefix(a, b),
        lost_prefix(b, c),
    ensures
        lost_prefix(a, c),
        taken(a, c) == taken(a, b) + taken(b, c),
{
    assert(c =~= a.skip(a.len() - c.len()));
    assert(taken(a, c) =~= taken(a, b) + taken(b, c));
}

/// The parts of the request in `r`, when a decode call returned one.
pub open spec fn req_view(r: Option<CmdReq>) -> Option<Seq<Seq<u8>>> {
    match r {
        Some(q) => Some(q.parts()),
        None => None,
    }
}

impl Codec {
    /// The bytes of the current frame that were consumed by earlier calls.
    pub closed spec fn consumed(&self) -> Seq<u8> {
        self.consumed@
    }

    /// The parts of the current frame decoded so far.
    closed spec fn parts(&self) -> Seq<Seq<u8>> {
        if self.named {
            self.req.parts()
        } else {
            Seq::empty()
        }
    }

    /// Where the current frame stands.
    pub closed spec fn stage(&self) -> Stage {
        match self.req_type {
            ReqType::Init => Stage::Start,
            ReqType::MultiBulk => {
                if self.bulklen < 0 {
                    Stage::Bulks { left: self.multibulklen as nat, parts: self.parts() }
                } else {
                    Stage::Body {
                        len: self.bulklen as nat,
                        left: self.multibulklen as nat,
                        parts: self.parts(),
                    }
                }
            },
        }
    }

    /// The stage tells how every stream that begins with the consumed
    /// bytes goes on.
    pub open spec fn resumes(&self) -> bool {
        forall|rest: Seq<u8>|
            #[trigger] parse_frame(self.consumed() + rest) == shift(
                parse_state(rest, self.stage()),
                self.consumed().len() as int,
            )
    }

    closed spec fn fields_ok(&self) -> bool {
        &&& !self.named ==> self.req.command@.len() == 0 && self.req.args@.len() == 0
        &&& match self.req_type {
            ReqType::Init => {
                &&& self.consumed@.len() == 0
                &&& !self.named
                &&& self.multibulklen == 0
                &&& self.bulklen == -1
            },
            ReqType::MultiBulk => {
                &&& 0 <= self.multibulklen <= MAX_ARGS
                &&& -1 <= self.bulklen <= MAX_BULK
                &&& self.bulklen >= 0 ==> self.multibulklen >= 1
                &&& self.multibulklen == 0 ==> self.named
            },
        }
    }

    /// The decoder's invariant between calls.
    pub closed spec fn wf(&self) -> bool {
        &&& self.fields_ok()
        &&& self.resumes()
        &&& self.req_type is MultiBulk ==> self.multibulklen >= 1
    }

    /// The decoder is between two frames, as `new` leaves it.
    pub open spec fn is_ready(&self) -> bool {
        self.consumed() == Seq::<u8>::empty() && self.stage() == Stage::Start
    }

    pub fn new() -> (r: Codec)
        ensures
            r.wf(),
            r.is_ready(),
    {
        let r = Codec {
            req: CmdReq::new(),
            named: false,
            req_type: ReqType::Init,
            multibulklen: 0,
            bulklen: -1,
            consumed: Ghost(Seq::empty()),
        };
        assert forall|rest: Seq<u8>|
            #[trigger] parse_frame(r.consumed() + rest) == shift(
                parse_state(rest, r.stage()),
                r.consumed().len() as int,
            ) by {
            assert(r.consumed() + rest =~= rest);
        }
        r
    }

    /// Decodes the front of `src`, the bytes read after those consumed by
    /// earlier calls.
    ///
    /// With `t` the consumed bytes followed by `src`: where `t` begins with
    /// a request, it is returned and its bytes leave `src`; a multi-bulk
    /// frame of no arguments leaves the same way and gives `Ok(None)`; where
    /// `t` cannot begin a frame the result is an error; otherwise the result
    /// is `Ok(None)` and no byte is lost or gained: the decoder keeps what it
    /// took from `src`. Only a prefix of `src` is ever taken; where `src` is
    /// empty, or the first header or payload due cannot complete yet,
    /// neither `src` nor the decoder changes.
    #[verifier::rlimit(40)]
    pub fn decode(&mut self, src: &mut BytesMut) -> (r: Result<Option<CmdReq>, Error>)
        requires
            old(self).wf(),
        ensures
            final(self).wf(),
            lost_prefix(bytes_of(*old(src)), bytes_of(*final(src))),
            (bytes_of(*old(src)).len() == 0 || step_blocked(bytes_of(*old(src)), old(self).stage())) ==> {
                &&& r matches Ok(None)
                &&& *final(self) == *old(self)
                &&& bytes_of(*final(src)) == bytes_of(*old(src))
            },
            match parse_frame(old(self).consumed() + bytes_of(*old(src))) {
                Parse::Incomplete => {
                    &&& r matches Ok(None)
                    &&& final(self).consumed() == old(self).consumed() + taken(
                        bytes_of(*old(src)),
                        bytes_of(*final(src)),
                    )
                    &&& final(self).consumed() + bytes_of(*final(src)) == old(self).consumed()
                        + bytes_of(*old(src))
                },
                Parse::Invalid => r is Err,
                Parse::Done { req, len } => {
                    &&& r matches Ok(q)
                    &&& req_view(q) == req
                    &&& bytes_of(*final(src)) == (old(self).consumed() + bytes_of(*old(src))).skip(len)
                    &&& final(self).is_ready()
                },
            },
    {
        let ghost t = self.consumed() + bytes_of(*src);
        let ghost s0 = bytes_of(*src);
        let ghost c0 = self.consumed();
        proof {
            lemma_skip_lost(s0, 0);
            assert(s0.skip(0) =~= s0);
            assert(c0 + s0.take(0) =~= c0);
        }
        if let ReqType::Init = self.req_type {
            let ghost r = bytes_of(*src);
            assert(self.consumed() + r =~= r);
            assert(self.consumed() =~= Seq::<u8>::empty());
            let data = buf_bytes(src);
            if data.len() == 0 {
                return Ok(None);
            }
            if data[0] != STAR {
                return self.decode_inline(src);
            }
            match scan_line(data) {
                LineScan::More => {
                    return Ok(None);
                },
                LineScan::Bad => {
                    return Err(protocol_error());
                },
                LineScan::At(i) => {
                    proof {
                        lemma_line_kept(r, seq![], i as int);
                    }
                    match parse_count(slice_subrange(data, 1, i)) {
                        CountScan::Bad => {
                            return Err(protocol_error());
                        },
                        CountScan::NonPositive => {
                            buf_advance(src, i + 2);
                            proof {
                                lemma_skip_lost(r, i + 2);
                            }
                            return Ok(None);
                        },
                        CountScan::Positive(n) => {
                            buf_advance(src, i + 2);
                            proof {
                                lemma_skip_lost(r, i + 2);
                            }
                            self.req_type = ReqType::MultiBulk;
                            self.multibulklen = n as i64;
                            self.consumed = Ghost(r.take(i + 2));
                            proof {
                                assert forall|rest: Seq<u8>|
                                    #[trigger] parse_frame(self.consumed() + rest) == shift(
                                        parse_state(rest, self.stage()),
                                        self.consumed().len() as int,
                                    ) by {
                                    lemma_line_kept(r, rest, i as int);
                                    assert(self.consumed() + rest =~= r.take(i + 2) + rest);
                                }
                                assert(self.consumed() + bytes_of(*src) =~= t);
                            }
                        },
                    }
                },
            }
        }
        loop
            invariant
                self.fields_ok(),
                self.resumes(),
                self.req_type is MultiBulk,
                self.consumed() + bytes_of(*src) == t,
                t == old(self).consumed() + bytes_of(*old(src)),
                s0 == bytes_of(*old(src)),
                c0 == old(self).consumed(),
                old(self).wf(),
                lost_prefix(s0, bytes_of(*src)),
                self.consumed() == c0 + taken(s0, bytes_of(*src)),
                step_blocked(s0, old(self).stage()) ==> (*self == *old(self) && bytes_of(*src) == s0),
            decreases bytes_of(*src).len() * 2 + if self.bulklen < 0 {
                1int
            } else {
                0int
            },
        {
            let ghost r = bytes_of(*src);
            let ghost c = self.consumed();
            let ghost st = self.stage();
            assert(parse_frame(c + r) == shift(parse_state(r, st), c.len() as int));
            assert(c + r == t);
            if self.multibulklen == 0 {
                assert(t.skip(c.len() as int) =~= r);
                assert(st == Stage::Bulks { left: 0, parts: self.req.parts() });
                assert(parse_state(r, st) == Parse::Done { req: Some(self.req.parts()), len: 0 });
                let mut out = CmdReq::new();
                std::mem::swap(&mut out, &mut self.req);
                self.clear();
                return Ok(Some(out));
            }
            let ghost r0 = bytes_of(*src);
            let step = if self.bulklen < 0 {
                self.bulk_header(src)
            } else {
                self.bulk_body(src)
            };
            proof {
                lemma_lost_twice(s0, r0, bytes_of(*src));
                assert(c + taken(r0, bytes_of(*src)) =~= c0 + taken(s0, bytes_of(*src)));
            }
            match step {
                Ok(true) => {},
                Ok(false) => {
                    return Ok(None);
                },
                Err(e) => {
                    self.clear();
                    return Err(e);
                },
            }
        }
    }

    /// Reads the header of the next bulk string.
    #[verifier::rlimit(40)]
    fn bulk_header(&mut self, src: &mut BytesMut) -> (r: Result<bool, Error>)
        requires
            old(self).fields_ok(),
            old(self).resumes(),
            old(self).req_type is MultiBulk,
            old(self).multibulklen >= 1,
            old(self).bulklen < 0,
        ensures
            final(self).fields_ok(),
            final(self).resumes(),
            final(self).req_type is MultiBulk,
            final(self).consumed() + bytes_of(*final(src)) == old(self).consumed() + bytes_of(*old(src)),
            lost_prefix(bytes_of(*old(src)), bytes_of(*final(src))),
            final(self).consumed() == old(self).consumed() + taken(bytes_of(*old(src)), bytes_of(*final(src))),
            !(r matches Ok(true)) ==> *final(self) == *old(self) && bytes_of(*final(src)) == bytes_of(*old(src)),
            step_blocked(bytes_of(*old(src)), old(self).stage()) ==> r matches Ok(false),
            match r {
                Ok(true) => {
                    &&& final(self).bulklen >= 0
                    &&& bytes_of(*final(src)).len() < bytes_of(*old(src)).len()
                },
                Ok(false) => {
                    &&& *final(self) == *old(self)
                    &&& parse_frame(old(self).consumed() + bytes_of(*old(src))) is Incomplete
                },
                Err(_) => parse_frame(old(self).consumed() + bytes_of(*old(src))) is Invalid,
            },
    {
        let ghost r = bytes_of(*src);
        let ghost c = self.consumed();
        let ghost st = self.stage();
        proof {
            lemma_skip_lost(r, 0);
            assert(r.skip(0) =~= r);
            assert(c + r.take(0) =~= c);
        }
        assert(parse_frame(c + r) == shift(parse_state(r, st), c.len() as int));
        assert(st == Stage::Bulks { left: self.multibulklen as nat, parts: self.parts() });
        let data = buf_bytes(src);
        if data.len() == 0 {
            return Ok(false);
        }
        if data[0] != DOLLAR {
            return Err(protocol_error());
        }
        match scan_line(data) {
            LineScan::More => Ok(false),
            LineScan::Bad => Err(protocol_error()),
            LineScan::At(i) => {
                proof {
                    lemma_line_kept(r, seq![], i as int);
                }
                match parse_decimal(slice_subrange(data, 1, i), MAX_BULK) {
                    None => Err(protocol_error()),
                    Some(n) => {
                        buf_advance(src, i + 2);
                        proof {
                            lemma_skip_lost(r, i + 2);
                        }
                        self.bulklen = n as i64;
                        self.consumed = Ghost(c + r.take(i + 2));
                        proof {
                            assert forall|rest: Seq<u8>|
                                #[trigger] parse_frame(self.consumed() + rest) == shift(
                                    parse_state(rest, self.stage()),
                                    self.consumed().len() as int,
                                ) by {
                                lemma_line_kept(r, rest, i as int);
                                assert(self.consumed() + rest =~= c + (r.take(i + 2) + rest));
                            }
                            assert(self.consumed() + bytes_of(*src) =~= c + r);
                        }
                        Ok(true)
                    },
                }
            },
        }
    }

    /// Reads the payload of the current bulk string and its terminator.
    #[verifier::rlimit(40)]
    fn bulk_body(&mut self, src: &mut BytesMut) -> (r: Result<bool, Error>)
        requires
            old(self).fields_ok(),
            old(self).resumes(),
            old(self).req_type is MultiBulk,
            old(self).bulklen >= 0,
        ensures
            final(self).fields_ok(),
            final(self).resumes(),
            final(self).req_type is MultiBulk,
            final(self).consumed() + bytes_of(*final(src)) == old(self).consumed() + bytes_of(*old(src)),
            lost_prefix(bytes_of(*old(src)), bytes_of(*final(src))),
            final(self).consumed() == old(self).consumed() + taken(bytes_of(*old(src)), bytes_of(*final(src))),
            !(r matches Ok(true)) ==> *final(self) == *old(self) && bytes_of(*final(src)) == bytes_of(*old(src)),
            step_blocked(bytes_of(*old(src)), old(self).stage()) ==> r matches Ok(false),
            match r {
                Ok(true) => {
                    &&& final(self).bulklen < 0
                    &&& bytes_of(*final(src)).len() + 2 <= bytes_of(*old(src)).len()
                },
                Ok(false) => {
                    &&& *final(self) == *old(self)
                    &&& parse_frame(old(self).consumed() + bytes_of(*old(src))) is Incomplete
                },
                Err(_) => parse_frame(old(self).consumed() + bytes_of(*old(src))) is Invalid,
            },
    {
        let ghost r = bytes_of(*src);
        let ghost c = self.consumed();
        let ghost st = self.stage();
        proof {
            lemma_skip_lost(r, 0);
            assert(r.skip(0) =~= r);
            assert(c + r.take(0) =~= c);
        }
        assert(parse_frame(c + r) == shift(parse_state(r, st), c.len() as int));
        let bl = self.bulklen as usize;
        let data = buf_bytes(src);
        if data.len() < bl + 2 {
            return Ok(false);
        }
        if data[bl] != CR || data[bl + 1] != LF {
            return Err(protocol_error());
        }
        let part = slice_to_vec(slice_subrange(data, 0, bl));
        let ghost parts = self.parts();
        if !self.named {
            self.req.command = part;
            self.named = true;
            assert(self.parts() =~= parts.push(r.take(bl as int)));
        } else {
            let ghost a = self.req.args@;
            self.req.args.push(part);
            assert(args_view(a.push(part)) =~= args_view(a).push(part@));
            assert(self.parts() =~= parts.push(r.take(bl as int)));
        }
        buf_advance(src, bl + 2);
        proof {
            lemma_skip_lost(r, bl + 2);
        }
        self.bulklen = -1;
        self.multibulklen = self.multibulklen - 1;
        self.consumed = Ghost(c + r.take(bl + 2));
        proof {
            assert forall|rest: Seq<u8>|
                #[trigger] parse_frame(self.consumed() + rest) == shift(
                    parse_state(rest, self.stage()),
                    self.consumed().len() as int,
                ) by {
                let h = r.take(bl + 2) + rest;
                assert(self.consumed() + rest =~= c + h);
                assert(h.skip(bl + 2) =~= rest);
                assert(h.take(bl as int) =~= r.take(bl as int));
            }
            assert(self.consumed() + bytes_of(*src) =~= c + r);
        }
        Ok(true)
    }

    /// Decodes an inline request at the front of `src`.
    fn decode_inline(&self, src: &mut BytesMut) -> (r: Result<Option<CmdReq>, Error>)
        requires
            bytes_of(*old(src)).len() > 0,
            bytes_of(*old(src))[0] != STAR,
        ensures
            lost_prefix(bytes_of(*old(src)), bytes_of(*final(src))),
            !(r matches Ok(Some(_))) ==> bytes_of(*final(src)) == bytes_of(*old(src)),
            match parse_inline(bytes_of(*old(src))) {
                Parse::Incomplete => r matches Ok(None) && bytes_of(*final(src)) == bytes_of(*old(src)),
                Parse::Invalid => r is Err,
                Parse::Done { req, len } => {
                    &&& r matches Ok(q)
                    &&& req_view(q) == req
                    &&& bytes_of(*final(src)) == bytes_of(*old(src)).skip(len)
                },
            },
    {
        let ghost r = bytes_of(*src);
        proof {
            lemma_skip_lost(r, 0);
            assert(r.skip(0) =~= r);
        }
        let data = buf_bytes(src);
        let lim: usize = if data.len() <= MAX_LINE {
            data.len()
        } else {
            MAX_LINE
        };
        let w = slice_subrange(data, 0, lim);
        assert(w@ =~= window(r));
        match find_byte(LF, w) {
            Some(j) => {
                proof {
                    lemma_first_found(w@, LF, j as int);
                }
                let end: usize = if j > 0 && data[j - 1] == CR {
                    j - 1
                } else {
                    j
                };
                let line = slice_to_vec(slice_subrange(data, 0, end));
                buf_advance(src, j + 1);
                proof {
                    lemma_skip_lost(r, j + 1);
                }
                let out = CmdReq { command: line, args: Vec::new() };
                assert(out.parts() =~= seq![inline_text(r, j as int)]);
                Ok(Some(out))
            },
            None => {
                assert(!exists|j: int| is_first(window(r), LF, j));
                if data.len() >= MAX_LINE {
                    Err(protocol_error())
                } else {
                    Ok(None)
                }
            },
        }
    }

    /// A frame that a decoder completes ends after the bytes it already
    /// consumed, and within those it is given.
    pub proof fn lemma_frame_ends_later(&self, rest: Seq<u8>)
        requires
            self.wf(),
        ensures
            parse_frame(self.consumed() + rest) matches Parse::Done { len, .. } ==> self.consumed().len()
                < len <= self.consumed().len() + rest.len(),
    {
        lemma_done_bounds(rest, self.stage());
    }

    /// Appends the bytes of a response to `dst`.
    pub fn encode(&mut self, item: CmdResp, dst: &mut BytesMut) -> (r: Result<(), Error>)
        ensures
            r is Ok,
            bytes_of(*final(dst)) == bytes_of(*old(dst)) + item.data@,
            *final(self) == *old(self),
    {
        buf_extend(dst, item.as_bytes());
        Ok(())
    }

    /// Forgets the frame in progress.
    fn clear(&mut self)
        ensures
            final(self).wf(),
            final(self).is_ready(),
    {
        self.req.reset();
        self.named = false;
        self.req_type = ReqType::Init;
        self.multibulklen = 0;
        self.bulklen = -1;
        self.consumed = Ghost(Seq::empty());
        assert forall|rest: Seq<u8>|
            #[trigger] parse_frame(self.consumed() + rest) == shift(
                parse_state(rest, self.stage()),
                self.consumed().len() as int,
            ) by {
            assert(self.consumed() + rest =~= rest);
        }
    }
}

} // verus!
