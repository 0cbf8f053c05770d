//! The request grammar, as spec functions over the byte stream.
//!
//! A request is either a multi-bulk frame, `*<argc>\r\n` followed by `argc`
//! bulk strings `$<len>\r\n<len bytes>\r\n`, or an inline line ended by `\n`
//! (an `\r` before it is dropped). `parse_frame` says what a stream begins
//! with; the decoder in `codec` is proved to follow it, however the stream
//! is split into reads.
use vstd::prelude::*;

verus! {

pub const CR: u8 = 13;

pub const LF: u8 = 10;

pub const STAR: u8 = 42;

pub const DOLLAR: u8 = 36;

pub const MINUS: u8 = 45;

/// A header or inline line whose terminator does not start within this
/// many bytes is refused rather than waited for.
pub const MAX_LINE: usize = 65536;

/// Largest argument count a multi-bulk header may declare.
pub const MAX_ARGS: u64 = 1048576;

/// Largest length a bulk header may declare.
pub const MAX_BULK: u64 = 536870912;

/// What a stream begins with.
pub enum Parse {
    /// Every byte seen so far could still start a frame: wait for more.
    Incomplete,
    /// The bytes cannot start a frame.
    Invalid,
    /// A frame of `len` bytes: a request (its name first, then its
    /// arguments), or `None` for a multi-bulk frame of no arguments.
    Done { req: Option<Seq<Seq<u8>>>, len: int },
}

/// Where a multi-bulk frame stands after some of its bytes.
pub enum Stage {
    /// Before the first byte of a frame.
    Start,
    /// Expecting a bulk header; `left` bulks remain, `parts` are done.
    Bulks { left: nat, parts: Seq<Seq<u8>> },
    /// Expecting the `len` payload bytes of a bulk and its `\r\n`.
    Body { len: nat, left: nat, parts: Seq<Seq<u8>> },
}

/// How a header line ends.
pub enum Line {
    /// No verdict yet.
    More,
    /// No `\r\n` starts within the first `MAX_LINE` bytes.
    Bad,
    /// The line's first `\r\n` starts at this index.
    At(int),
}

/// How a multi-bulk count reads.
pub enum Count {
    Bad,
    NonPositive,
    Positive(nat),
}

pub open spec fn is_digit(b: u8) -> bool {
    48 <= b <= 57
}

pub open spec fn all_digits(s: Seq<u8>) -> bool {
    forall|i: int| 0 <= i < s.len() ==> is_digit(#[trigger] s[i])
}

/// The number that a run of decimal digits denotes.
pub open spec fn digits_value(s: Seq<u8>) -> nat
    decreases s.len(),
{
    if s.len() == 0 {
        0
    } else {
        digits_value(s.drop_last()) * 10 + (s.last() - 48) as nat
    }
}

/// A decimal number of at most `cap`: a non-empty run of digits and nothing else.
pub open spec fn decimal(s: Seq<u8>, cap: nat) -> Option<nat> {
    if s.len() > 0 && all_digits(s) && digits_value(s) <= cap {
        Some(digits_value(s))
    } else {
        None
    }
}

/// The argument count of a multi-bulk header: digits, or `-` then digits.
pub open spec fn count(s: Seq<u8>) -> Count {
    if s.len() > 0 && s[0] == MINUS {
        if s.len() > 1 && all_digits(s.skip(1)) {
            Count::NonPositive
        } else {
            Count::Bad
        }
    } else if s.len() == 0 || !all_digits(s) || digits_value(s) > MAX_ARGS {
        Count::Bad
    } else if digits_value(s) == 0 {
        Count::NonPositive
    } else {
        Count::Positive(digits_value(s))
    }
}

/// `i` is the first index of `b` in `s`.
pub open spec fn is_first(s: Seq<u8>, b: u8, i: int) -> bool {
    0 <= i < s.len() && s[i] == b && forall|j: int| 0 <= j < i ==> s[j] != b
}

/// The part of `s` in which a line terminator is looked for.
pub open spec fn window(s: Seq<u8>) -> Seq<u8> {
    if s.len() <= MAX_LINE {
        s
    } else {
        s.take(MAX_LINE as int)
    }
}

/// `r` holds `\r\n` at index `i`.
pub open spec fn crlf_at(r: Seq<u8>, i: int) -> bool {
    0 <= i && i + 1 < r.len() && r[i] == CR && r[i + 1] == LF
}

/// The first `\r\n` of `r` starts at `i`, within `MAX_LINE` bytes.
pub open spec fn first_crlf(r: Seq<u8>, i: int) -> bool {
    i < MAX_LINE && crlf_at(r, i) && forall|j: int| 0 <= j < i ==> !crlf_at(r, j)
}

/// How the header line at the front of `r` ends: at its first `\r\n`,
/// which must start within `MAX_LINE` bytes. A `\r` not followed by `\n`
/// does not end it.
pub open spec fn line_end(r: Seq<u8>) -> Line {
    if exists|i: int| first_crlf(r, i) {
        Line::At(choose|i: int| first_crlf(r, i))
    } else if r.len() > MAX_LINE {
        Line::Bad
    } else {
        Line::More
    }
}

/// The text of an inline line that ends at index `j` (its `\n`).
pub open spec fn inline_text(r: Seq<u8>, j: int) -> Seq<u8> {
    if j > 0 && r[j - 1] == CR {
        r.take(j - 1)
    } else {
        r.take(j)
    }
}

/// An inline request: the line up to its first `\n`, within `MAX_LINE` bytes.
pub open spec fn parse_inline(r: Seq<u8>) -> Parse {
    let w = window(r);
    if exists|j: int| is_first(w, LF, j) {
        let j = choose|j: int| is_first(w, LF, j);
        Parse::Done { req: Some(seq![inline_text(r, j)]), len: j + 1 }
    } else if r.len() >= MAX_LINE {
        Parse::Invalid
    } else {
        Parse::Incomplete
    }
}

/// Moves the end of a finished frame on by `k` bytes.
pub open spec fn shift(p: Parse, k: int) -> Parse {
    match p {
        Parse::Done { req, len } => Parse::Done { req, len: len + k },
        _ => p,
    }
}

/// What `r` holds from stage `st` on.
pub open spec fn parse_state(r: Seq<u8>, st: Stage) -> Parse
    decreases r.len(),
{
    match st {
        Stage::Start => {
            if r.len() == 0 {
                Parse::Incomplete
            } else if r[0] != STAR {
                parse_inline(r)
            } else {
                match line_end(r) {
                    Line::More => Parse::Incomplete,
                    Line::Bad => Parse::Invalid,
                    Line::At(i) => {
                        if 0 < i && i + 2 <= r.len() {
                            match count(r.subrange(1, i)) {
                                Count::Bad => Parse::Invalid,
                                Count::NonPositive => Parse::Done { req: None, len: i + 2 },
                                Count::Positive(n) => shift(
                                    parse_state(r.skip(i + 2), Stage::Bulks { left: n, parts: seq![] }),
                                    i + 2,
                                ),
                            }
                        } else {
                            Parse::Invalid
                        }
                    },
                }
            }
        },
        Stage::Bulks { left, parts } => {
            if left == 0 {
                Parse::Done { req: Some(parts), len: 0 }
            } else if r.len() == 0 {
                Parse::Incomplete
            } else if r[0] != DOLLAR {
                Parse::Invalid
            } else {
                match line_end(r) {
                    Line::More => Parse::Incomplete,
                    Line::Bad => Parse::Invalid,
                    Line::At(i) => {
                        if 0 < i && i + 2 <= r.len() {
                            match decimal(r.subrange(1, i), MAX_BULK as nat) {
                                None => Parse::Invalid,
                                Some(n) => shift(
                                    parse_state(r.skip(i + 2), Stage::Body { len: n, left, parts }),
                                    i + 2,
                                ),
                            }
                        } else {
                            Parse::Invalid
                        }
                    },
                }
            }
        },
        Stage::Body { len, left, parts } => {
            let k = len + 2;
            if r.len() < k {
                Parse::Incomplete
            } else if r[len as int] != CR || r[len as int + 1] != LF {
                Parse::Invalid
            } else {
                shift(
                    parse_state(
                        r.skip(k as int),
                        Stage::Bulks { left: (left - 1) as nat, parts: parts.push(r.take(len as int)) },
                    ),
                    k as int,
                )
            }
        },
    }
}

/// What a stream begins with.
pub open spec fn parse_frame(t: Seq<u8>) -> Parse {
    parse_state(t, Stage::Start)
}

/// A byte has at most one first index.
pub proof fn lemma_first_unique(s: Seq<u8>, b: u8, i: int, j: int)
    requires
        is_first(s, b, i),
        is_first(s, b, j),
    ensures
        i == j,
{
    if i < j {
        assert(s[i] != b);
    } else if j < i {
        assert(s[j] != b);
    }
}

/// The first index of a byte, where it is known.
pub proof fn lemma_first_found(s: Seq<u8>, b: u8, i: int)
    requires
        is_first(s, b, i),
    ensures
        exists|k: int| is_first(s, b, k),
        (choose|k: int| is_first(s, b, k)) == i,
{
    let k = choose|k: int| is_first(s, b, k);
    lemma_first_unique(s, b, i, k);
}

/// A first `\r\n` has one index.
pub proof fn lemma_crlf_found(r: Seq<u8>, i: int)
    requires
        first_crlf(r, i),
    ensures
        line_end(r) == Line::At(i),
{
    let k = choose|k: int| first_crlf(r, k);
    if k < i {
        assert(!crlf_at(r, k));
    } else if i < k {
        assert(!crlf_at(r, i));
    }
}

/// A line found at the front of `r` is found again once the bytes after its
/// `\n` are replaced by any others.
pub proof fn lemma_line_kept(r: Seq<u8>, x: Seq<u8>, i: int)
    requires
        line_end(r) == Line::At(i),
        r.len() > 0,
        r[0] != CR,
    ensures
        0 < i,
        i + 2 <= r.len(),
        line_end(r.take(i + 2) + x) == Line::At(i),
        (r.take(i + 2) + x).subrange(1, i) == r.subrange(1, i),
        (r.take(i + 2) + x).skip(i + 2) == x,
        (r.take(i + 2) + x)[0] == r[0],
{
    let s = r.take(i + 2) + x;
    assert(exists|k: int| first_crlf(r, k));
    assert(first_crlf(r, i));
    assert forall|j: int| 0 <= j < i implies !crlf_at(s, j) by {
        assert(!crlf_at(r, j));
        assert(s[j] == r[j] && s[j + 1] == r[j + 1]);
    }
    assert(s[i] == r[i] && s[i + 1] == r[i + 1]);
    assert(first_crlf(s, i));
    lemma_crlf_found(s, i);
    assert(s.subrange(1, i) =~= r.subrange(1, i));
    assert(s.skip(i + 2) =~= x);
}

/// Extending a run of digits by one digit.
pub proof fn lemma_digits_push(s: Seq<u8>, i: int)
    requires
        0 <= i < s.len(),
    ensures
        digits_value(s.take(i + 1)) == digits_value(s.take(i)) * 10 + (s[i] - 48) as nat,
{
    assert(s.take(i + 1).drop_last() =~= s.take(i));
}

/// A run of digits denotes at least what any of its prefixes denotes.
pub proof fn lemma_digits_prefix(s: Seq<u8>, i: int)
    requires
        0 <= i <= s.len(),
        all_digits(s),
    ensures
        digits_value(s.take(i)) <= digits_value(s),
    decreases s.len(),
{
    if i < s.len() {
        let d = s.drop_last();
        assert(all_digits(d)) by {
            assert forall|j: int| 0 <= j < d.len() implies is_digit(#[trigger] d[j]) by {
                assert(d[j] == s[j]);
            }
        }
        lemma_digits_prefix(d, i);
        assert(d.take(i) =~= s.take(i));
    } else {
        assert(s.take(i) =~= s);
    }
}

/// A finished frame lies within the bytes it was read from, and every
/// frame but the end of a multi-bulk one takes at least one byte.
pub proof fn lemma_done_bounds(r: Seq<u8>, st: Stage)
    ensures
        parse_state(r, st) matches Parse::Done { len, .. } ==> {
            &&& 0 <= len <= r.len()
            &&& (st matches Stage::Bulks { left, .. } ==> left > 0) ==> len >= 1
        },
    decreases r.len(),
{
    match st {
        Stage::Start => {
            if r.len() > 0 && r[0] == STAR {
                if let Line::At(i) = line_end(r) {
                    if 0 < i && i + 2 <= r.len() {
                        if let Count::Positive(n) = count(r.subrange(1, i)) {
                            lemma_done_bounds(r.skip(i + 2), Stage::Bulks { left: n, parts: seq![] });
                        }
                    }
                }
            } else if r.len() > 0 {
                let w = window(r);
                if exists|j: int| is_first(w, LF, j) {
                    let j = choose|j: int| is_first(w, LF, j);
                    assert(w.len() <= r.len());
                }
            }
        },
        Stage::Bulks { left, parts } => {
            if left > 0 && r.len() > 0 && r[0] == DOLLAR {
                if let Line::At(i) = line_end(r) {
                    if 0 < i && i + 2 <= r.len() {
                        if let Some(n) = decimal(r.subrange(1, i), MAX_BULK as nat) {
                            lemma_done_bounds(r.skip(i + 2), Stage::Body { len: n, left, parts });
                        }
                    }
                }
            }
        },
        Stage::Body { len, left, parts } => {
            if r.len() >= len + 2 {
                lemma_done_bounds(
                    r.skip(len as int + 2),
                    Stage::Bulks { left: (left - 1) as nat, parts: parts.push(r.take(len as int)) },
                );
            }
        },
    }
}

/// A verdict on a header line stands whatever follows; a line still open
/// cannot end before the bytes seen so far.
pub proof fn lemma_line_prefix(r: Seq<u8>, x: Seq<u8>)
    ensures
        !(line_end(r) is More) ==> line_end(r + x) == line_end(r),
        line_end(r) is More ==> (line_end(r + x) matches Line::At(i) ==> i + 2 > r.len()),
{
    let s = r + x;
    assert forall|j: int| 0 <= j && j + 1 < r.len() implies crlf_at(s, j) == crlf_at(r, j) by {
        assert(s[j] == r[j] && s[j + 1] == r[j + 1]);
    }
    if exists|i: int| first_crlf(r, i) {
        let i = choose|i: int| first_crlf(r, i);
        assert(first_crlf(s, i));
        lemma_crlf_found(s, i);
    } else if exists|k: int| first_crlf(s, k) {
        let k = choose|k: int| first_crlf(s, k);
        if k + 2 <= r.len() {
            assert(first_crlf(r, k));
        }
    }
}

/// The same for an inline line.
pub proof fn lemma_inline_prefix(r: Seq<u8>, x: Seq<u8>)
    ensures
        !(parse_inline(r) is Incomplete) ==> parse_inline(r + x) == parse_inline(r),
        parse_inline(r) is Incomplete ==> (parse_inline(r + x) matches Parse::Done { len, .. } ==> len > r.len()),
{
    let s = r + x;
    let w = window(r);
    let ws = window(s);
    assert(w.len() <= ws.len());
    assert forall|j: int| 0 <= j < w.len() implies ws[j] == w[j] by {}
    if exists|i: int| is_first(w, LF, i) {
        let i = choose|i: int| is_first(w, LF, i);
        assert forall|j: int| 0 <= j < i implies ws[j] != LF by {
            assert(w[j] != LF);
        }
        assert(is_first(ws, LF, i));
        lemma_first_found(ws, LF, i);
        assert(inline_text(s, i) =~= inline_text(r, i));
    } else {
        if r.len() >= MAX_LINE {
            assert(ws =~= w);
        } else {
            assert(w == r);
            if exists|k: int| is_first(ws, LF, k) {
                let k = choose|k: int| is_first(ws, LF, k);
                if k < r.len() {
                    assert(is_first(w, LF, k));
                }
            }
        }
    }
}

/// Once the bytes seen so far settle what a stream holds, no later byte
/// changes it; while they do not, no frame can end within them.
pub proof fn lemma_parse_prefix(r: Seq<u8>, x: Seq<u8>, st: Stage)
    ensures
        !(parse_state(r, st) is Incomplete) ==> parse_state(r + x, st) == parse_state(r, st),
        parse_state(r, st) is Incomplete ==> (parse_state(r + x, st) matches Parse::Done { len, .. }
            ==> len > r.len()),
    decreases r.len(),
{
    let s = r + x;
    lemma_done_bounds(s, st);
    match st {
        Stage::Start => {
            if r.len() == 0 {
                assert(s =~= x);
            } else if r[0] != STAR {
                lemma_inline_prefix(r, x);
            } else {
                lemma_line_prefix(r, x);
                if let Line::At(i) = line_end(r) {
                    if 0 < i && i + 2 <= r.len() {
                        assert(s.subrange(1, i) =~= r.subrange(1, i));
                        assert(s.skip(i + 2) =~= r.skip(i + 2) + x);
                        if let Count::Positive(n) = count(r.subrange(1, i)) {
                            lemma_parse_prefix(r.skip(i + 2), x, Stage::Bulks { left: n, parts: seq![] });
                        }
                    }
                } else if let Line::At(i) = line_end(s) {
                    if 0 < i && i + 2 <= s.len() {
                        if let Count::Positive(n) = count(s.subrange(1, i)) {
                            lemma_done_bounds(s.skip(i + 2), Stage::Bulks { left: n, parts: seq![] });
                        }
                    }
                }
            }
        },
        Stage::Bulks { left, parts } => {
            if left == 0 {
            } else if r.len() == 0 {
                assert(s =~= x);
            } else if r[0] != DOLLAR {
            } else {
                lemma_line_prefix(r, x);
                if let Line::At(i) = line_end(r) {
                    if 0 < i && i + 2 <= r.len() {
                        assert(s.subrange(1, i) =~= r.subrange(1, i));
                        assert(s.skip(i + 2) =~= r.skip(i + 2) + x);
                        if let Some(n) = decimal(r.subrange(1, i), MAX_BULK as nat) {
                            lemma_parse_prefix(r.skip(i + 2), x, Stage::Body { len: n, left, parts });
                        }
                    }
                } else if let Line::At(i) = line_end(s) {
                    if 0 < i && i + 2 <= s.len() {
                        if let Some(n) = decimal(s.subrange(1, i), MAX_BULK as nat) {
                            lemma_done_bounds(s.skip(i + 2), Stage::Body { len: n, left, parts });
                        }
                    }
                }
            }
        },
        Stage::Body { len, left, parts } => {
            let k = len + 2;
            if r.len() >= k {
                assert(s.skip(k as int) =~= r.skip(k as int) + x);
                assert(s.take(len as int) =~= r.take(len as int));
                lemma_parse_prefix(
                    r.skip(k as int),
                    x,
                    Stage::Bulks { left: (left - 1) as nat, parts: parts.push(r.take(len as int)) },
                );
            } else if s.len() >= k {
                lemma_done_bounds(
                    s.skip(k as int),
                    Stage::Bulks { left: (left - 1) as nat, parts: parts.push(s.take(len as int)) },
                );
            }
        },
    }
}

/// However a stream is cut into reads, the frame it begins with is found
/// exactly when all of its bytes have arrived: every shorter prefix is
/// `Incomplete`, and every longer one holds the same frame.
pub proof fn lemma_chunking_invariance(t: Seq<u8>, k: int)
    requires
        parse_frame(t) is Done,
        0 <= k <= t.len(),
    ensures
        parse_frame(t) matches Parse::Done { len, .. } ==> {
            &&& k < len ==> parse_frame(t.take(k)) is Incomplete
            &&& k >= len ==> parse_frame(t.take(k)) == parse_frame(t)
        },
{
    assert(t.take(k) + t.skip(k) =~= t);
    lemma_parse_prefix(t.take(k), t.skip(k), Stage::Start);
    lemma_done_bounds(t.take(k), Stage::Start);
}

/// Frames sent back to back are decoded one after the other: the stream
/// `f + g` begins with the frame `f`, and what it leaves is exactly `g`.
pub proof fn lemma_frames_in_sequence(f: Seq<u8>, g: Seq<u8>)
    requires
        parse_frame(f) matches Parse::Done { len, .. } && len == f.len(),
    ensures
        parse_frame(f + g) == parse_frame(f),
        (f + g).skip(f.len() as int) == g,
{
    lemma_parse_prefix(f, g, Stage::Start);
    assert((f + g).skip(f.len() as int) =~= g);
}

/// A multi-bulk header declaring zero arguments, or a negative count, is a
/// whole frame that holds no request, whatever follows it.
pub proof fn lemma_nonpositive_count(ds: Seq<u8>, negative: bool, rest: Seq<u8>)
    requires
        ds.len() > 0,
        all_digits(ds),
        negative || digits_value(ds) == 0,
        ds.len() + 2 < MAX_LINE,
    ensures
        ({
            let h = seq![STAR] + (if negative { seq![MINUS] + ds } else { ds }) + seq![CR, LF];
            parse_frame(h + rest) == Parse::Done { req: None, len: h.len() as int }
        }),
{
    let body = if negative { seq![MINUS] + ds } else { ds };
    let h = seq![STAR] + body + seq![CR, LF];
    let t = h + rest;
    let i = h.len() - 2;
    assert(t[0] == STAR);
    assert forall|j: int| 0 <= j < i implies !crlf_at(t, j) by {
        assert(t[j] == h[j]);
        if j > 0 {
            assert(h[j] == body[j - 1]);
            if negative && j > 1 {
                assert(body[j - 1] == ds[j - 2]);
            }
        }
    }
    assert(t[i] == CR && t[i + 1] == LF);
    assert(first_crlf(t, i));
    lemma_crlf_found(t, i);
    assert(t.subrange(1, i) =~= body);
    if negative {
        assert(body.skip(1) =~= ds);
    }
}

/// A multi-bulk header whose count holds a byte other than a digit (a
/// leading `-` aside) makes the stream invalid: it is never read as a
/// shorter number.
pub proof fn lemma_bad_count(t: Seq<u8>, i: int, j: int)
    requires
        t.len() > 0,
        t[0] == STAR,
        line_end(t) == Line::At(i),
        1 <= j < i,
        !is_digit(t[j]),
        !(j == 1 && t[j] == MINUS),
    ensures
        parse_frame(t) is Invalid,
{
    lemma_line_kept(t, seq![], i);
    let d = t.subrange(1, i);
    assert(d[j - 1] == t[j]);
    if d[0] == MINUS {
        assert(d.skip(1)[j - 2] == t[j]);
    }
}

/// The decimal digits of `n`, most significant first.
pub open spec fn dec(n: nat) -> Seq<u8>
    decreases n,
{
    if n < 10 {
        seq![(48 + n) as u8]
    } else {
        dec(n / 10).push((48 + n % 10) as u8)
    }
}

/// The bulk string that carries `p`.
pub open spec fn bulk(p: Seq<u8>) -> Seq<u8> {
    seq![DOLLAR] + dec(p.len()) + seq![CR, LF] + p + seq![CR, LF]
}

/// The bulk strings that carry `ps`, one after the other.
pub open spec fn bulks(ps: Seq<Seq<u8>>) -> Seq<u8>
    decreases ps.len(),
{
    if ps.len() == 0 {
        Seq::empty()
    } else {
        bulk(ps[0]) + bulks(ps.skip(1))
    }
}

/// The multi-bulk frame of a request whose name and arguments are `ps`.
pub open spec fn encode(ps: Seq<Seq<u8>>) -> Seq<u8> {
    seq![STAR] + dec(ps.len()) + seq![CR, LF] + bulks(ps)
}

proof fn lemma_dec(n: nat)
    ensures
        dec(n).len() >= 1,
        all_digits(dec(n)),
        digits_value(dec(n)) == n,
    decreases n,
{
    if n >= 10 {
        lemma_dec(n / 10);
        let d = dec(n / 10);
        let e = dec(n);
        assert(e.drop_last() =~= d);
        assert forall|i: int| 0 <= i < e.len() implies is_digit(#[trigger] e[i]) by {
            if i < d.len() {
                assert(e[i] == d[i]);
            }
        }
        assert(e.last() == (48 + n % 10) as u8);
        assert((e.last() - 48) as nat == n % 10);
        assert(n == (n / 10) * 10 + n % 10);
        assert(digits_value(e) == digits_value(d) * 10 + (e.last() - 48) as nat);
    } else {
        let e = dec(n);
        assert(e.drop_last() =~= Seq::<u8>::empty());
        assert(digits_value(e) == digits_value(e.drop_last()) * 10 + (e.last() - 48) as nat);
    }
}

/// A number below `10^k` has at most `k` digits.
proof fn lemma_dec_shorter(n: nat, k: nat)
    requires
        1 <= k,
        n < pow10(k),
    ensures
        dec(n).len() <= k,
    decreases n,
{
    if n >= 10 {
        if k == 1 {
            assert(pow10(1) == 10) by {
                reveal_with_fuel(pow10, 2);
            }
        } else {
            assert(pow10(k) == 10 * pow10((k - 1) as nat));
            assert(n / 10 < pow10((k - 1) as nat)) by (nonlinear_arith)
                requires
                    n < 10 * pow10((k - 1) as nat),
            ;
            lemma_dec_shorter(n / 10, (k - 1) as nat);
        }
    }
}

/// Numbers up to `MAX_BULK` have at most nine digits.
proof fn lemma_dec_nine(n: nat)
    requires
        n <= MAX_BULK,
    ensures
        dec(n).len() <= 9,
{
    assert(pow10(9) == 1000000000) by {
        reveal_with_fuel(pow10, 10);
    }
    lemma_dec_shorter(n, 9);
}

pub open spec fn pow10(k: nat) -> nat
    decreases k,
{
    if k == 0 {
        1
    } else {
        10 * pow10((k - 1) as nat)
    }
}

/// A header line `c`, digits, `\r\n` is found whatever follows it.
proof fn lemma_header_line(c: u8, d: Seq<u8>, rest: Seq<u8>)
    requires
        c != CR,
        d.len() > 0,
        all_digits(d),
        d.len() + 2 < MAX_LINE,
    ensures
        ({
            let t = seq![c] + d + seq![CR, LF] + rest;
            &&& line_end(t) == Line::At(d.len() as int + 1)
            &&& t[0] == c
            &&& t.subrange(1, d.len() as int + 1) == d
            &&& t.skip(d.len() as int + 3) == rest
        }),
{
    let h = seq![c] + d + seq![CR, LF];
    let t = h + rest;
    let i: int = d.len() as int + 1;
    assert forall|j: int| 0 <= j < i implies !crlf_at(t, j) by {
        assert(t[j] == h[j]);
        if j > 0 {
            assert(h[j] == d[j - 1]);
        }
    }
    assert(t[i] == CR && t[i + 1] == LF);
    assert(first_crlf(t, i));
    lemma_crlf_found(t, i);
    assert(t.subrange(1, i) =~= d);
    assert(t.skip(d.len() as int + 3) =~= rest);
}

/// A bulk string that carries `p` is read as the next part.
proof fn lemma_bulk_decode(p: Seq<u8>, left: nat, acc: Seq<Seq<u8>>, after: Seq<u8>)
    requires
        left >= 1,
        p.len() <= MAX_BULK,
    ensures
        parse_state(bulk(p) + after, (Stage::Bulks { left, parts: acc })) == shift(
            parse_state(after, (Stage::Bulks { left: (left - 1) as nat, parts: acc.push(p) })),
            bulk(p).len() as int,
        ),
{
    let d = dec(p.len());
    lemma_dec(p.len());
    lemma_dec_nine(p.len());
    let tail = p + seq![CR, LF] + after;
    let t = bulk(p) + after;
    assert(t =~= seq![DOLLAR] + d + seq![CR, LF] + tail);
    lemma_header_line(DOLLAR, d, tail);
    let i: int = d.len() as int + 1;
    assert(decimal(t.subrange(1, i), MAX_BULK as nat) == Some(p.len()));
    let body = Stage::Body { len: p.len(), left, parts: acc };
    assert(parse_state(t, Stage::Bulks { left, parts: acc }) == shift(parse_state(tail, body), i + 2));
    assert(tail.skip(p.len() as int + 2) =~= after);
    assert(tail.take(p.len() as int) =~= p);
    assert(tail[p.len() as int] == CR);
    assert(tail[p.len() as int + 1] == LF);
}

/// Bulk strings that carry `ps` are read as those parts, in order.
proof fn lemma_bulks_decode(ps: Seq<Seq<u8>>, acc: Seq<Seq<u8>>, rest: Seq<u8>)
    requires
        forall|k: int| 0 <= k < ps.len() ==> (#[trigger] ps[k]).len() <= MAX_BULK,
    ensures
        parse_state(bulks(ps) + rest, (Stage::Bulks { left: ps.len(), parts: acc }))
            == (Parse::Done { req: Some(acc + ps), len: bulks(ps).len() as int }),
    decreases ps.len(),
{
    if ps.len() == 0 {
        assert(acc + ps =~= acc);
        assert(bulks(ps) + rest =~= rest);
    } else {
        let p = ps[0];
        let after = bulks(ps.skip(1)) + rest;
        assert(bulks(ps) + rest =~= bulk(p) + after);
        lemma_bulk_decode(p, ps.len(), acc, after);
        assert forall|k: int| 0 <= k < ps.skip(1).len() implies (#[trigger] ps.skip(1)[k]).len() <= MAX_BULK by {
            assert(ps.skip(1)[k] == ps[k + 1]);
        }
        lemma_bulks_decode(ps.skip(1), acc.push(p), rest);
        assert(acc.push(p) + ps.skip(1) =~= acc + ps);
    }
}

/// The multi-bulk frame of any request of at most `MAX_ARGS` parts, each
/// of at most `MAX_BULK` bytes, is read back as exactly that request and
/// ends where the frame ends, whatever follows it.
pub proof fn lemma_encoding_decodes(ps: Seq<Seq<u8>>, rest: Seq<u8>)
    requires
        1 <= ps.len() <= MAX_ARGS,
        forall|k: int| 0 <= k < ps.len() ==> (#[trigger] ps[k]).len() <= MAX_BULK,
    ensures
        parse_frame(encode(ps) + rest) == (Parse::Done { req: Some(ps), len: encode(ps).len() as int }),
{
    let d = dec(ps.len());
    lemma_dec(ps.len());
    lemma_dec_nine(ps.len());
    let t = encode(ps) + rest;
    let tail = bulks(ps) + rest;
    assert(t =~= seq![STAR] + d + seq![CR, LF] + tail);
    lemma_header_line(STAR, d, tail);
    let i = d.len() as int + 1;
    assert(count(t.subrange(1, i)) == Count::Positive(ps.len()));
    lemma_bulks_decode(ps, seq![], rest);
    assert(seq![] + ps =~= ps);
}

/// However the frame of a request is cut into reads, no read but the one
/// that completes it yields anything: every proper prefix of the frame is
/// `Incomplete`, and the whole frame is read as the request.
pub proof fn lemma_encoding_chunks(ps: Seq<Seq<u8>>, k: int)
    requires
        1 <= ps.len() <= MAX_ARGS,
        forall|j: int| 0 <= j < ps.len() ==> (#[trigger] ps[j]).len() <= MAX_BULK,
        0 <= k < encode(ps).len(),
    ensures
        parse_frame(encode(ps).take(k)) is Incomplete,
        parse_frame(encode(ps)) == (Parse::Done { req: Some(ps), len: encode(ps).len() as int }),
{
    lemma_encoding_decodes(ps, seq![]);
    assert(encode(ps) + seq![] =~= encode(ps));
    lemma_chunking_invariance(encode(ps), k);
}

} // verus!
