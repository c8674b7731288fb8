//! `multipart/byteranges` bodies, produced as a state machine that a
//! driver steps through, doing the seeks and reads it asks for.
use vstd::prelude::*;

use crate::body::READ_BUFFER_LENGTH;
use crate::error::RangeResponseError;
use crate::ranges::RangeRequestPart;
use crate::response_ranges::{content_range_text, resolve, valid_part, RangeResponseHeader};
use crate::text::{decimal, lemma_decimal_ascii};
use vstd::string::StringExecFns;
use vstd::utf8::{encode_utf8, is_ascii_chars};

verus! {

/// A resolved span `(start, end, total_size)`.
pub type Span = (u64, u64, Option<u64>);

/// The number of bytes a span covers.
pub open spec fn span_len(s: Span) -> int {
    s.1 - s.0 + 1
}

/// The bytes of ASCII text.
pub open spec fn ascii(s: Seq<char>) -> Seq<u8> {
    s.map_values(|c: char| c as u8)
}

/// The header lines that close a part's headers: its `Content-Range` value
/// and a blank line.
pub open spec fn part_header(s: Span) -> Seq<u8> {
    ascii(content_range_text(s.0, s.1, s.2) + seq!['\r', '\n', '\r', '\n'])
}

/// The text that opens each part, up to its `Content-Range` value.
pub open spec fn part_prefix_text(boundary: Seq<char>, content_type: Seq<char>) -> Seq<char> {
    "\r\n--"@ + boundary + "\r\nContent-Type: "@ + content_type + "\r\nContent-Range: bytes "@
}

/// The text that closes the body.
pub open spec fn body_end_text(boundary: Seq<char>) -> Seq<char> {
    "\r\n--"@ + boundary + "--\r\n"@
}

/// The bytes of the parts from index `i` on, each with a prefix of
/// `prefix_len` bytes.
pub open spec fn parts_from(spans: Seq<Span>, i: int, prefix_len: int) -> int
    decreases spans.len() - i,
{
    if i < 0 || i >= spans.len() {
        0
    } else {
        prefix_len + part_header(spans[i]).len() + span_len(spans[i]) + parts_from(
            spans,
            i + 1,
            prefix_len,
        )
    }
}

/// The length of a whole multipart body: every part, then the closing
/// boundary, less the line break that the first part does not start with.
pub open spec fn multipart_len(spans: Seq<Span>, prefix_len: int, end_len: int) -> int {
    parts_from(spans, 0, prefix_len) + end_len - 2
}

/// The spans of a list of parts, or the error of the first that has none.
pub open spec fn resolve_all(parts: Seq<RangeRequestPart>, total_size: Option<u64>) -> Result<
    Seq<Span>,
    RangeResponseError,
>
    decreases parts.len(),
{
    if parts.len() == 0 {
        Ok(Seq::empty())
    } else {
        match resolve_all(parts.drop_last(), total_size) {
            Err(e) => Err(e),
            Ok(spans) => match resolve(parts.last(), total_size) {
                Err(e) => Err(e),
                Ok(s) => Ok(spans.push(s)),
            },
        }
    }
}

proof fn lemma_resolve_all_error(parts: Seq<RangeRequestPart>, i: int, total_size: Option<u64>)
    requires
        0 <= i < parts.len(),
        resolve_all(parts.take(i), total_size) is Ok,
        resolve(parts[i], total_size) is Err,
    ensures
        resolve_all(parts, total_size) == Err::<Seq<Span>, _>(
            resolve(parts[i], total_size)->Err_0,
        ),
{
    assert(parts.take(i + 1).drop_last() =~= parts.take(i));
    lemma_resolve_all_error_stays(parts, i + 1, total_size, resolve(parts[i], total_size)->Err_0);
}

proof fn lemma_resolve_all_error_stays(
    parts: Seq<RangeRequestPart>,
    k: int,
    total_size: Option<u64>,
    e: RangeResponseError,
)
    requires
        0 <= k <= parts.len(),
        resolve_all(parts.take(k), total_size) == Err::<Seq<Span>, _>(e),
    ensures
        resolve_all(parts, total_size) == Err::<Seq<Span>, _>(e),
    decreases parts.len() - k,
{
    if k < parts.len() {
        assert(parts.take(k + 1).drop_last() =~= parts.take(k));
        lemma_resolve_all_error_stays(parts, k + 1, total_size, e);
    } else {
        assert(parts.take(k) =~= parts);
    }
}

/// A valid part that resolves gives a span that starts no later than it
/// ends, and ends inside the resource where its size is known.
pub proof fn lemma_resolved_in_bounds(p: RangeRequestPart, total_size: Option<u64>)
    requires
        valid_part(p),
    ensures
        resolve(p, total_size) matches Ok(s) ==> s.0 <= s.1 && (s.2 matches Some(t) ==> s.1 < t),
        resolve(p, total_size) matches Ok(s) ==> span_len(s) >= 1,
{
}

/// Whether a body over the spans, framed with the boundary and the content
/// type, has a length that a `u64` holds.
pub open spec fn fits(spans: Seq<Span>, boundary: Seq<char>, content_type: Seq<char>) -> bool {
    multipart_len(
        spans,
        encode_utf8(part_prefix_text(boundary, content_type)).len() as int,
        encode_utf8(body_end_text(boundary)).len() as int,
    ) <= u64::MAX
}

/// The spans of a list of resolved ranges.
pub open spec fn spans_of(headers: Seq<RangeResponseHeader>) -> Seq<Span> {
    headers.map_values(|h: RangeResponseHeader| h.span())
}

} // verus!

verus! {

/// Where a multipart body stands between two calls.
#[derive(Debug, Clone, Copy, PartialEq, Eq, Structural)]
pub enum MultiRangeBodyState {
    /// Next: the opening of the first part, without its leading line break.
    FirstPartPrefix,
    /// Next: the opening of a later part.
    PartPrefix,
    /// Next: the `Content-Range` value of the current part, and a seek.
    PartBytes,
    /// The seek to the current part has been asked for.
    WaitForSeek,
    /// This many bytes of the current part are still to be read.
    Body(u64),
    /// Next: the closing boundary.
    Tail,
    /// Nothing is left.
    End,
}

/// What the driver of a multipart body does next.
pub enum MultiRangeStep {
    /// Hand out these bytes.
    Data(Vec<u8>),
    /// Start a seek of the source to the offset; once it has started, hand
    /// out the bytes.
    Seek(u64, Vec<u8>),
    /// Wait for the seek, then report it to `seek_completed`.
    AwaitSeek,
    /// Read at most this many bytes, hand them out, and report their count
    /// to `record_read`.
    Read(usize),
    /// The body has ended.
    End,
}

/// The bytes that a step hands out at once.
pub open spec fn step_len(s: MultiRangeStep) -> int {
    match s {
        MultiRangeStep::Data(d) => d@.len() as int,
        MultiRangeStep::Seek(_, d) => d@.len() as int,
        _ => 0,
    }
}

/// The bytes still to come from a body in a given state.
pub open spec fn remaining_in(
    state: MultiRangeBodyState,
    index: int,
    spans: Seq<Span>,
    prefix_len: int,
    end_len: int,
) -> int {
    match state {
        MultiRangeBodyState::FirstPartPrefix => parts_from(spans, 0, prefix_len) + end_len - 2,
        MultiRangeBodyState::PartPrefix => parts_from(spans, index, prefix_len) + end_len,
        MultiRangeBodyState::PartBytes => part_header(spans[index]).len() + span_len(spans[index])
            + parts_from(spans, index + 1, prefix_len) + end_len,
        MultiRangeBodyState::WaitForSeek => span_len(spans[index]) + parts_from(
            spans,
            index + 1,
            prefix_len,
        ) + end_len,
        MultiRangeBodyState::Body(rem) => rem + parts_from(spans, index + 1, prefix_len) + end_len,
        MultiRangeBodyState::Tail => end_len,
        MultiRangeBodyState::End => 0,
    }
}

/// A `multipart/byteranges` body over a source that can seek, made step by
/// step: the driver calls `poll_step` and does what it says.
pub struct AsyncStreamedMultiRangeBody<R> {
    pub readable: R,
    state: MultiRangeBodyState,
    part_prefix: Vec<u8>,
    body_end: Vec<u8>,
    bytes_remaining: u64,
    range_requests: Vec<RangeResponseHeader>,
    range_requests_index: usize,
}

impl<R> AsyncStreamedMultiRangeBody<R> {
    pub closed spec fn phase(&self) -> MultiRangeBodyState {
        self.state
    }

    /// The index of the current part.
    pub closed spec fn index(&self) -> int {
        self.range_requests_index as int
    }

    /// The spans of the parts, in order.
    pub closed spec fn spans(&self) -> Seq<Span> {
        spans_of(self.range_requests@)
    }

    /// The opening of each part.
    pub closed spec fn prefix(&self) -> Seq<u8> {
        self.part_prefix@
    }

    /// The closing boundary.
    pub closed spec fn body_end(&self) -> Seq<u8> {
        self.body_end@
    }

    /// The count kept of the bytes still to come.
    pub closed spec fn remaining(&self) -> u64 {
        self.bytes_remaining
    }

    /// The count is that of what the state still has to hand out, and the
    /// state points at a part where it needs one.
    pub open spec fn wf(&self) -> bool {
        let n = self.spans().len();
        &&& n >= 1
        &&& self.prefix().len() >= 2
        &&& forall|i: int| 0 <= i < n ==> 1 <= #[trigger] span_len(self.spans()[i])
        &&& self.remaining() == remaining_in(
            self.phase(),
            self.index(),
            self.spans(),
            self.prefix().len() as int,
            self.body_end().len() as int,
        )
        &&& match self.phase() {
            MultiRangeBodyState::FirstPartPrefix => self.index() == 0,
            MultiRangeBodyState::Body(rem) => 0 <= self.index() < n && 0 < rem <= span_len(
                self.spans()[self.index()],
            ),
            MultiRangeBodyState::Tail => self.index() == n,
            MultiRangeBodyState::End => self.index() == n,
            _ => 0 <= self.index() < n,
        }
    }
}

proof fn lemma_parts_from_bound(spans: Seq<Span>, i: int, j: int, prefix_len: int)
    requires
        0 <= i <= j,
        prefix_len >= 0,
        forall|k: int| 0 <= k < spans.len() ==> 1 <= #[trigger] span_len(spans[k]),
    ensures
        parts_from(spans, j, prefix_len) <= parts_from(spans, i, prefix_len),
        parts_from(spans, j, prefix_len) >= 0,
    decreases j - i,
{
    if i < j {
        lemma_parts_from_bound(spans, i + 1, j, prefix_len);
    } else {
        lemma_parts_from_nonneg(spans, j, prefix_len);
    }
}

proof fn lemma_parts_from_nonneg(spans: Seq<Span>, i: int, prefix_len: int)
    requires
        i >= 0,
        prefix_len >= 0,
        forall|k: int| 0 <= k < spans.len() ==> 1 <= #[trigger] span_len(spans[k]),
    ensures
        parts_from(spans, i, prefix_len) >= 0,
    decreases spans.len() - i,
{
    if i < spans.len() {
        lemma_parts_from_nonneg(spans, i + 1, prefix_len);
    }
}

} // verus!

verus! {

/// The UTF-8 bytes of a string.
fn utf8_bytes(s: &String) -> (r: Vec<u8>)
    ensures
        r@ == encode_utf8(s@),
{
    s.as_str().as_bytes_vec()
}

/// The `Content-Range` value of a part and the blank line after it.
fn part_header_bytes(h: &RangeResponseHeader) -> (r: Vec<u8>)
    ensures
        r@ == part_header(h.span()),
{
    let mut text = h.to_string();
    text.append("\r\n\r\n");
    let ghost crlf2 = seq!['\r', '\n', '\r', '\n'];
    proof {
        reveal_strlit("\r\n\r\n");
        assert("\r\n\r\n"@ =~= crlf2);
        let (s, e, t) = h.span();
        lemma_decimal_ascii(s as nat);
        lemma_decimal_ascii(e as nat);
        let tail = match t {
            Some(n) => {
                lemma_decimal_ascii(n as nat);
                decimal(n as nat)
            },
            None => seq!['*'],
        };
        let full = content_range_text(s, e, t) + crlf2;
        assert(is_ascii_chars(full)) by {
            assert(is_ascii_chars(tail));
            assert forall|i: int| 0 <= i < full.len() implies '\0' <= #[trigger] full[i]
                <= '\u{7f}' by {
                let a = decimal(s as nat);
                let b = decimal(e as nat);
                if i < a.len() {
                    assert(full[i] == a[i]);
                } else if i == a.len() {
                } else if i < a.len() + 1 + b.len() {
                    assert(full[i] == b[i - a.len() - 1]);
                } else if i == a.len() + 1 + b.len() {
                } else if i < a.len() + 2 + b.len() + tail.len() {
                    assert(full[i] == tail[i - a.len() - 2 - b.len()]);
                }
            }
        }
        vstd::utf8::is_ascii_chars_encode_utf8(full);
        assert(encode_utf8(full) =~= ascii(full));
    }
    utf8_bytes(&text)
}

impl<R> AsyncStreamedMultiRangeBody<R> {
    /// Whether `self` is a fresh body over the spans, framed with the
    /// boundary and the content type.
    pub open spec fn fresh_over(
        &self,
        spans: Seq<Span>,
        boundary: Seq<char>,
        content_type: Seq<char>,
    ) -> bool {
        &&& self.wf()
        &&& self.spans() == spans
        &&& self.phase() == MultiRangeBodyState::FirstPartPrefix
        &&& self.prefix() == encode_utf8(part_prefix_text(boundary, content_type))
        &&& self.body_end() == encode_utf8(body_end_text(boundary))
        &&& self.remaining() == multipart_len(
            spans,
            self.prefix().len() as int,
            self.body_end().len() as int,
        )
    }

    fn build(
        readable: R,
        total_size: Option<u64>,
        range_requests: &[RangeRequestPart],
        seperator: &str,
        content_type: &str,
    ) -> (r: Option<Result<Self, RangeResponseError>>)
        requires
            range_requests@.len() >= 1,
            forall|i: int| 0 <= i < range_requests@.len() ==> valid_part(#[trigger] range_requests@[i]),
        ensures
            match resolve_all(range_requests@, total_size) {
                Err(e) => r matches Some(Err(e2)) && e2 == e,
                Ok(spans) => if fits(spans, seperator@, content_type@) {
                    r matches Some(Ok(b)) && b.fresh_over(spans, seperator@, content_type@)
                } else {
                    r is None
                },
            },
    {
        let mut prefix_text = String::new();
        prefix_text.append("\r\n--");
        prefix_text.append(seperator);
        prefix_text.append("\r\nContent-Type: ");
        prefix_text.append(content_type);
        prefix_text.append("\r\nContent-Range: bytes ");
        assert(prefix_text@ =~= part_prefix_text(seperator@, content_type@));
        let part_prefix = utf8_bytes(&prefix_text);
        let mut end_text = String::new();
        end_text.append("\r\n--");
        end_text.append(seperator);
        end_text.append("--\r\n");
        assert(end_text@ =~= body_end_text(seperator@));
        let body_end = utf8_bytes(&end_text);
        let ghost prefix_len = part_prefix@.len() as int;
        let ghost end_len = body_end@.len() as int;
        proof {
            reveal_strlit("\r\n--");
            reveal_strlit("--\r\n");
            let t = prefix_text@;
            assert(t[0] == '\r' && t[1] == '\n');
            assert(encode_utf8(t).len() >= 2) by {
                reveal_with_fuel(encode_utf8, 3);
                assert(t.drop_first()[0] == '\n');
            }
            let u = end_text@;
            assert(u[0] == '\r' && u[1] == '\n');
            assert(encode_utf8(u).len() >= 2) by {
                reveal_with_fuel(encode_utf8, 3);
                assert(u.drop_first()[0] == '\n');
            }
        }

        let mut range_headers: Vec<RangeResponseHeader> = Vec::with_capacity(range_requests.len());
        let mut i: usize = 0;
        assert(range_requests@.take(0) =~= Seq::<RangeRequestPart>::empty());
        assert(spans_of(range_headers@) =~= Seq::<Span>::empty());
        while i < range_requests.len()
            invariant
                i <= range_requests@.len(),
                range_headers@.len() == i,
                forall|k: int| 0 <= k < range_requests@.len() ==> valid_part(#[trigger] range_requests@[k]),
                resolve_all(range_requests@.take(i as int), total_size) == Ok::<_, RangeResponseError>(
                    spans_of(range_headers@),
                ),
                forall|k: int|
                    0 <= k < range_headers@.len() ==> 1 <= #[trigger] span_len(
                        spans_of(range_headers@)[k],
                    ),
            decreases range_requests@.len() - i,
        {
            assert(range_requests@.take(i + 1).drop_last() =~= range_requests@.take(i as int));
            let ghost before = range_headers@;
            match RangeResponseHeader::new(&range_requests[i], total_size) {
                Ok(h) => {
                    proof {
                        lemma_resolved_in_bounds(range_requests@[i as int], total_size);
                    }
                    range_headers.push(h);
                    assert(spans_of(range_headers@) =~= spans_of(before).push(h.span()));
                },
                Err(e) => {
                    proof {
                        lemma_resolve_all_error(range_requests@, i as int, total_size);
                    }
                    return Some(Err(e));
                },
            }
            i = i + 1;
        }
        assert(range_requests@.take(i as int) =~= range_requests@);
        let ghost spans = spans_of(range_headers@);

        let mut total: u64 = 0;
        let mut j: usize = range_headers.len();
        proof {
            lemma_parts_from_bound(spans, 0, spans.len() as int, prefix_len);
        }
        while j > 0
            invariant
                j <= spans.len(),
                spans == spans_of(range_headers@),
                forall|k: int| 0 <= k < spans.len() ==> 1 <= #[trigger] span_len(spans[k]),
                total as int == parts_from(spans, j as int, prefix_len),
                prefix_len == part_prefix@.len(),
                prefix_len >= 2,
                end_len >= 2,
                prefix_len == encode_utf8(part_prefix_text(seperator@, content_type@)).len(),
                end_len == encode_utf8(body_end_text(seperator@)).len(),
                end_len == body_end@.len(),
                resolve_all(range_requests@, total_size) == Ok::<_, RangeResponseError>(spans),
            decreases j,
        {
            j = j - 1;
            let h = &range_headers[j];
            proof {
                lemma_parts_from_bound(spans, 0, j as int, prefix_len);
                assert(spans[j as int] == h.span());
            }
            let len = h.range_len();
            let header_len = h.str_len() as u64 + 4;
            assert(part_header(spans[j as int]).len() == header_len);
            let sum = match (part_prefix.len() as u64).checked_add(header_len) {
                Some(framing) => match framing.checked_add(len) {
                    Some(x) => x.checked_add(total),
                    None => None,
                },
                None => None,
            };
            match sum {
                Some(x) => {
                    total = x;
                },
                None => {
                    assert(parts_from(spans, j as int, prefix_len) > u64::MAX);
                    assert(!fits(spans, seperator@, content_type@));
                    return None;
                },
            }
        }
        proof {
            lemma_parts_from_nonneg(spans, 1, prefix_len);
        }
        assert(total as int == parts_from(spans, 0, prefix_len));
        let total = match (total - 2).checked_add(body_end.len() as u64) {
            Some(x) => x,
            None => {
                assert(multipart_len(spans, prefix_len, end_len) > u64::MAX);
                return None;
            },
        };
        let r = AsyncStreamedMultiRangeBody {
            readable,
            state: MultiRangeBodyState::FirstPartPrefix,
            part_prefix,
            body_end,
            bytes_remaining: total,
            range_requests: range_headers,
            range_requests_index: 0,
        };
        Some(Ok(r))
    }

    /// Takes `readable` as the source of a body made of the parts of
    /// `range_requests`, resolved against `total_size`, separated by
    /// `seperator`, each declared of type `content_type`. Fails where a
    /// part cannot be resolved.
    pub fn new(
        readable: R,
        total_size: Option<u64>,
        range_requests: &[RangeRequestPart],
        seperator: &str,
        content_type: &str,
    ) -> (r: Result<Self, RangeResponseError>)
        requires
            range_requests@.len() >= 1,
            forall|i: int| 0 <= i < range_requests@.len() ==> valid_part(#[trigger] range_requests@[i]),
            resolve_all(range_requests@, total_size) matches Ok(spans) ==> fits(
                spans,
                seperator@,
                content_type@,
            ),
        ensures
            match resolve_all(range_requests@, total_size) {
                Err(e) => r matches Err(e2) && e2 == e,
                Ok(spans) => r matches Ok(b) && b.fresh_over(spans, seperator@, content_type@),
            },
    {
        match Self::build(readable, total_size, range_requests, seperator, content_type) {
            Some(r) => r,
            None => {
                assert(false);
                Err(RangeResponseError::RangesOverlap)
            },
        }
    }

    /// As `new`, where the parts are one or more and valid and the whole
    /// body's length fits in a `u64`; `None` otherwise.
    pub fn try_new(
        readable: R,
        total_size: Option<u64>,
        range_requests: &[RangeRequestPart],
        seperator: &str,
        content_type: &str,
    ) -> (r: Option<Result<Self, RangeResponseError>>)
        ensures
            range_requests@.len() == 0 ==> r is None,
            (exists|i: int| 0 <= i < range_requests@.len() && !valid_part(#[trigger] range_requests@[i]))
                ==> r is None,
            range_requests@.len() >= 1 && (forall|i: int|
                0 <= i < range_requests@.len() ==> valid_part(#[trigger] range_requests@[i]))
                ==> match resolve_all(range_requests@, total_size) {
                Err(e) => r matches Some(Err(e2)) && e2 == e,
                Ok(spans) => if fits(spans, seperator@, content_type@) {
                    r matches Some(Ok(b)) && b.fresh_over(spans, seperator@, content_type@)
                } else {
                    r is None
                },
            },
    {
        if range_requests.len() == 0 {
            return None;
        }
        let mut i: usize = 0;
        while i < range_requests.len()
            invariant
                i <= range_requests@.len(),
                forall|k: int| 0 <= k < i ==> valid_part(#[trigger] range_requests@[k]),
            decreases range_requests@.len() - i,
        {
            if !range_requests[i].is_valid() {
                return None;
            }
            i = i + 1;
        }
        Self::build(readable, total_size, range_requests, seperator, content_type)
    }
}

} // verus!

verus! {

/// The bytes of `v` from index `from` on.
fn bytes_from(v: &Vec<u8>, from: usize) -> (r: Vec<u8>)
    requires
        from <= v@.len(),
    ensures
        r@ == v@.subrange(from as int, v@.len() as int),
{
    let mut r: Vec<u8> = Vec::with_capacity(v.len() - from);
    let mut i: usize = from;
    while i < v.len()
        invariant
            from <= i <= v@.len(),
            r@ == v@.subrange(from as int, i as int),
        decreases v@.len() - i,
    {
        r.push(v[i]);
        assert(r@ =~= v@.subrange(from as int, i + 1));
        i = i + 1;
    }
    r
}

impl<R> AsyncStreamedMultiRangeBody<R> {
    /// The source read from.
    pub closed spec fn source(&self) -> R {
        self.readable
    }

    /// What stays fixed while a body is produced.
    pub open spec fn same_body(&self, other: &Self) -> bool {
        &&& self.spans() == other.spans()
        &&& self.prefix() == other.prefix()
        &&& self.body_end() == other.body_end()
        &&& self.source() == other.source()
    }

    /// Moves the body one step on and says what the driver does next. Every
    /// step lowers the count of bytes to come by the bytes it hands out.
    pub fn poll_step(&mut self) -> (r: MultiRangeStep)
        requires
            old(self).wf(),
        ensures
            final(self).wf(),
            final(self).same_body(old(self)),
            old(self).remaining() == final(self).remaining() + step_len(r),
            ({
                let spans = old(self).spans();
                let i = old(self).index();
                match old(self).phase() {
                    MultiRangeBodyState::FirstPartPrefix => {
                        &&& r matches MultiRangeStep::Data(d) && d@ == old(self).prefix().subrange(
                            2,
                            old(self).prefix().len() as int,
                        )
                        &&& final(self).phase() == MultiRangeBodyState::PartBytes
                        &&& final(self).index() == i
                    },
                    MultiRangeBodyState::PartPrefix => {
                        &&& r matches MultiRangeStep::Data(d) && d@ == old(self).prefix()
                        &&& final(self).phase() == MultiRangeBodyState::PartBytes
                        &&& final(self).index() == i
                    },
                    MultiRangeBodyState::PartBytes => {
                        &&& r matches MultiRangeStep::Seek(pos, d) && pos == spans[i].0 && d@
                            == part_header(spans[i])
                        &&& final(self).phase() == MultiRangeBodyState::WaitForSeek
                        &&& final(self).index() == i
                    },
                    MultiRangeBodyState::WaitForSeek => {
                        &&& r is AwaitSeek
                        &&& final(self).phase() == old(self).phase()
                        &&& final(self).index() == i
                    },
                    MultiRangeBodyState::Body(rem) => {
                        &&& r matches MultiRangeStep::Read(n) && n as int == if rem
                            <= READ_BUFFER_LENGTH {
                            rem as int
                        } else {
                            READ_BUFFER_LENGTH as int
                        }
                        &&& final(self).phase() == old(self).phase()
                        &&& final(self).index() == i
                    },
                    MultiRangeBodyState::Tail => {
                        &&& r matches MultiRangeStep::Data(d) && d@ == old(self).body_end()
                        &&& final(self).phase() == MultiRangeBodyState::End
                        &&& final(self).index() == i
                    },
                    MultiRangeBodyState::End => {
                        &&& r is End
                        &&& final(self).phase() == MultiRangeBodyState::End
                        &&& final(self).index() == i
                    },
                }
            }),
    {
        let ghost spans = self.spans();
        let ghost p = self.prefix().len() as int;
        let ghost i = self.index();
        proof {
            lemma_parts_from_nonneg(spans, i + 1, p);
            lemma_parts_from_nonneg(spans, 1, p);
        }
        match self.state {
            MultiRangeBodyState::FirstPartPrefix => {
                let d = bytes_from(&self.part_prefix, 2);
                self.bytes_remaining = self.bytes_remaining - (self.part_prefix.len() as u64 - 2);
                self.state = MultiRangeBodyState::PartBytes;
                MultiRangeStep::Data(d)
            },
            MultiRangeBodyState::PartPrefix => {
                let d = bytes_from(&self.part_prefix, 0);
                assert(d@ =~= self.part_prefix@);
                self.bytes_remaining = self.bytes_remaining - self.part_prefix.len() as u64;
                self.state = MultiRangeBodyState::PartBytes;
                MultiRangeStep::Data(d)
            },
            MultiRangeBodyState::PartBytes => {
                let h = &self.range_requests[self.range_requests_index];
                assert(spans[i] == h.span());
                let d = part_header_bytes(h);
                let pos = h.start();
                self.bytes_remaining = self.bytes_remaining - d.len() as u64;
                self.state = MultiRangeBodyState::WaitForSeek;
                MultiRangeStep::Seek(pos, d)
            },
            MultiRangeBodyState::WaitForSeek => MultiRangeStep::AwaitSeek,
            MultiRangeBodyState::Body(rem) => {
                if rem <= READ_BUFFER_LENGTH as u64 {
                    MultiRangeStep::Read(rem as usize)
                } else {
                    MultiRangeStep::Read(READ_BUFFER_LENGTH)
                }
            },
            MultiRangeBodyState::Tail => {
                let d = bytes_from(&self.body_end, 0);
                assert(d@ =~= self.body_end@);
                self.bytes_remaining = self.bytes_remaining - self.body_end.len() as u64;
                self.state = MultiRangeBodyState::End;
                MultiRangeStep::Data(d)
            },
            MultiRangeBodyState::End => MultiRangeStep::End,
        }
    }

    /// Records that the seek to the current part has completed: its bytes
    /// are read next.
    pub fn seek_completed(&mut self)
        requires
            old(self).wf(),
            old(self).phase() == MultiRangeBodyState::WaitForSeek,
        ensures
            final(self).wf(),
            final(self).same_body(old(self)),
            final(self).remaining() == old(self).remaining(),
            final(self).index() == old(self).index(),
            final(self).phase() == MultiRangeBodyState::Body(
                span_len(old(self).spans()[old(self).index()]) as u64,
            ),
    {
        let ghost spans = self.spans();
        let ghost i = self.index();
        let h = &self.range_requests[self.range_requests_index];
        assert(spans[i] == h.span());
        proof {
            lemma_parts_from_nonneg(spans, i + 1, self.prefix().len() as int);
        }
        let len = h.range_len();
        self.state = MultiRangeBodyState::Body(len);
    }

    /// Records that a read of the current part gave `n` bytes. Once the
    /// part is complete the next one starts, or the closing boundary.
    pub fn record_read(&mut self, n: usize)
        requires
            old(self).wf(),
            old(self).phase() matches MultiRangeBodyState::Body(rem) && n <= rem,
        ensures
            final(self).wf(),
            final(self).same_body(old(self)),
            final(self).remaining() == old(self).remaining() - n,
            ({
                let rem = old(self).phase()->Body_0;
                let i = old(self).index();
                if n < rem {
                    final(self).phase() == MultiRangeBodyState::Body((rem - n) as u64)
                        && final(self).index() == i
                } else {
                    &&& final(self).index() == i + 1
                    &&& final(self).phase() == if i + 1 < old(self).spans().len() {
                        MultiRangeBodyState::PartPrefix
                    } else {
                        MultiRangeBodyState::Tail
                    }
                }
            }),
    {
        let rem = match self.state {
            MultiRangeBodyState::Body(rem) => rem,
            _ => 0,
        };
        let ghost spans = self.spans();
        let ghost i = self.index();
        proof {
            lemma_parts_from_nonneg(spans, i + 1, self.prefix().len() as int);
        }
        assert(self.range_requests_index < self.range_requests.len());
        self.bytes_remaining = self.bytes_remaining - n as u64;
        if (n as u64) < rem {
            self.state = MultiRangeBodyState::Body(rem - n as u64);
        } else {
            self.range_requests_index = self.range_requests_index + 1;
            if self.range_requests_index >= self.range_requests.len() {
                self.state = MultiRangeBodyState::Tail;
            } else {
                self.state = MultiRangeBodyState::PartPrefix;
            }
        }
    }

    pub fn is_end_stream(&self) -> (r: bool)
        ensures
            r == (self.phase() == MultiRangeBodyState::End),
    {
        self.state == MultiRangeBodyState::End
    }

    /// The bytes still to come, exactly.
    pub fn size_hint(&self) -> (r: Option<u64>)
        ensures
            r == Some(self.remaining()),
    {
        Some(self.bytes_remaining)
    }

    /// The bytes still to come.
    pub fn bytes_remaining(&self) -> (r: u64)
        ensures
            r == self.remaining(),
    {
        self.bytes_remaining
    }
}

} // verus!

verus! {

/// A body that has ended has no bytes left to come: with the count that
/// `new` starts from and each step lowering it by what it hands out, the
/// bytes handed out add up to that count.
pub proof fn lemma_ended_body_is_spent<R>(b: &AsyncStreamedMultiRangeBody<R>)
    requires
        b.wf(),
        b.phase() == MultiRangeBodyState::End,
    ensures
        b.remaining() == 0,
{
}

} // verus!
