//! Ranges resolved against the size of a resource, as `Content-Range` states them.
use vstd::prelude::*;

use crate::error::RangeResponseError;
use crate::ranges::{
    entries_from, entry_at, lemma_entry_advances, lemma_parse_range_header_for, range_header_entries,
    range_header_for, sat_sub, skip_spaces,
    RangeRequestPart,
};
use crate::text::{base_10_str_len, decimal, push_char, push_decimal};

verus! {

/// Whether a part can stand in a request: a range does not end before it
/// starts, and a tail is not empty.
pub open spec fn valid_part(p: RangeRequestPart) -> bool {
    match p {
        RangeRequestPart::Range(start, end) => start <= end,
        RangeRequestPart::Skip(_) => true,
        RangeRequestPart::Tail(len) => len > 0,
    }
}

impl RangeRequestPart {
    /// Whether the part is valid: a range does not end before it starts, and
    /// a tail is not empty.
    pub fn is_valid(&self) -> (r: bool)
        ensures
            r == valid_part(*self),
    {
        match self {
            RangeRequestPart::Range(start, end) => *start <= *end,
            RangeRequestPart::Skip(_) => true,
            RangeRequestPart::Tail(len) => *len > 0,
        }
    }
}

/// The span `(start, end, total_size)` that a part stands for in a resource
/// of `total_size` bytes, where one exists.
pub open spec fn resolve(p: RangeRequestPart, total_size: Option<u64>) -> Result<
    (u64, u64, Option<u64>),
    RangeResponseError,
> {
    match total_size {
        Some(t) => if p.out_of_range(t) {
            Err(RangeResponseError::OutOfRange(t))
        } else {
            match p {
                RangeRequestPart::Range(start, end) => Ok((start, end, Some(t))),
                RangeRequestPart::Skip(start) => Ok((start, (t - 1) as u64, Some(t))),
                RangeRequestPart::Tail(len) => Ok((sat_sub(t, len), (t - 1) as u64, Some(t))),
            }
        },
        None => match p {
            RangeRequestPart::Range(start, end) => Ok((start, end, None)),
            _ => Err(RangeResponseError::RelativeSliceWithUnknownFullLength),
        },
    }
}

/// The text `start-end/total`, or `start-end/*` where the size is unknown.
pub open spec fn content_range_text(start: u64, end: u64, total_size: Option<u64>) -> Seq<char> {
    decimal(start as nat) + seq!['-'] + decimal(end as nat) + seq!['/'] + match total_size {
        Some(t) => decimal(t as nat),
        None => seq!['*'],
    }
}

/// A resolved range, as the `Content-Range` header states it.
#[derive(Debug, Clone, Copy, PartialEq, Eq, Structural)]
pub struct RangeResponseHeader {
    start: u64,
    end: u64,
    total_size: Option<u64>,
}

impl RangeResponseHeader {
    #[verifier::type_invariant]
    spec fn inv(self) -> bool {
        &&& self.start <= self.end
        &&& self.total_size matches Some(t) ==> self.end < t
    }

    /// The first offset served.
    pub closed spec fn start_spec(self) -> u64 {
        self.start
    }

    /// The last offset served.
    pub closed spec fn end_spec(self) -> u64 {
        self.end
    }

    /// The size of the whole resource, where known.
    pub closed spec fn total_spec(self) -> Option<u64> {
        self.total_size
    }

    /// The span as a triple `(start, end, total_size)`.
    pub open spec fn span(self) -> (u64, u64, Option<u64>) {
        (self.start_spec(), self.end_spec(), self.total_spec())
    }

    /// The text of the header value.
    pub open spec fn text(self) -> Seq<char> {
        content_range_text(self.start_spec(), self.end_spec(), self.total_spec())
    }

    /// The number of bytes served.
    pub open spec fn len_spec(self) -> nat {
        (self.end_spec() - self.start_spec() + 1) as nat
    }

    /// Resolves a part against the size of the resource, where known.
    pub fn new(req: &RangeRequestPart, total_size: Option<u64>) -> (r: Result<
        Self,
        RangeResponseError,
    >)
        requires
            valid_part(*req),
        ensures
            match resolve(*req, total_size) {
                Ok(span) => r is Ok && r->Ok_0.span() == span,
                Err(e) => r == Err::<Self, _>(e),
            },
    {
        if let Some(t) = total_size {
            if req.is_out_of_range(t) {
                return Err(RangeResponseError::OutOfRange(t));
            }
        }
        match req {
            RangeRequestPart::Range(start, end) => Ok(
                RangeResponseHeader { start: *start, end: *end, total_size },
            ),
            RangeRequestPart::Skip(start) => {
                let t = match total_size {
                    Some(t) => t,
                    None => {
                        return Err(RangeResponseError::RelativeSliceWithUnknownFullLength);
                    },
                };
                Ok(RangeResponseHeader { start: *start, end: t - 1, total_size: Some(t) })
            },
            RangeRequestPart::Tail(len) => {
                let t = match total_size {
                    Some(t) => t,
                    None => {
                        return Err(RangeResponseError::RelativeSliceWithUnknownFullLength);
                    },
                };
                Ok(
                    RangeResponseHeader {
                        start: t.saturating_sub(*len),
                        end: t - 1,
                        total_size: Some(t),
                    },
                )
            },
        }
    }

    /// The length of the header value's text.
    pub fn str_len(&self) -> (r: u32)
        ensures
            r as nat == self.text().len(),
    {
        let total_len = match self.total_size {
            Some(t) => base_10_str_len(t),
            None => 1,
        };
        base_10_str_len(self.start) + base_10_str_len(self.end) + 2 + total_len
    }

    /// The number of bytes served, held at `u64::MAX` where it is larger
    /// (a range over every offset); never zero.
    pub fn range_len(&self) -> (r: u64)
        ensures
            r as nat == if self.len_spec() <= u64::MAX {
                self.len_spec()
            } else {
                u64::MAX as nat
            },
            r > 0,
    {
        proof {
            use_type_invariant(self);
        }
        (self.end - self.start).saturating_add(1)
    }

    pub fn start(&self) -> (r: u64)
        ensures
            r == self.start_spec(),
    {
        self.start
    }

    /// Renders the header value, `start-end/total` or `start-end/*`.
    pub fn to_string(&self) -> (r: String)
        ensures
            r@ == self.text(),
    {
        let mut result = String::new();
        push_decimal(&mut result, self.start);
        push_char(&mut result, '-');
        push_decimal(&mut result, self.end);
        push_char(&mut result, '/');
        match self.total_size {
            Some(t) => push_decimal(&mut result, t),
            None => push_char(&mut result, '*'),
        }
        result
    }
}

} // verus!

verus! {

proof fn lemma_entry_valid(s: Seq<char>, i: int)
    ensures
        entry_at(s, i) matches Ok((p, _)) ==> valid_part(p),
{
}

proof fn lemma_entries_valid(s: Seq<char>, i: int)
    ensures
        entries_from(s, i) matches Ok(parts) ==> forall|k: int|
            0 <= k < parts.len() ==> valid_part(#[trigger] parts[k]),
    decreases s.len() - i,
{
    lemma_entry_valid(s, i);
    match entry_at(s, i) {
        Ok((p, j)) => {
            let k = skip_spaces(s, j);
            if k < s.len() && s[k] == ',' {
                lemma_entry_advances(s, i);
                lemma_entries_valid(s, k + 1);
                match entries_from(s, k + 1) {
                    Ok(rest) => {
                        assert forall|m: int| 0 <= m < rest.len() + 1 implies valid_part(
                            #[trigger] (seq![p] + rest)[m],
                        ) by {
                            if m > 0 {
                                assert((seq![p] + rest)[m] == rest[m - 1]);
                            }
                        }
                    },
                    Err(_) => {},
                }
            }
        },
        Err(_) => {},
    }
}

/// Every part that a `Range` header parses to is valid: no range ends
/// before it starts, and no tail is empty.
pub proof fn lemma_parsed_parts_valid(s: Seq<char>)
    ensures
        range_header_entries(s) matches Ok(parts) ==> forall|k: int|
            0 <= k < parts.len() ==> valid_part(#[trigger] parts[k]),
{
    if s.len() >= 5 {
        lemma_entries_valid(s, skip_spaces(s, 5) + 1);
    }
}

/// A header of one entry, resolved against a size in which it fits, gives
/// a span that starts no later than it ends, and ends inside the resource.
pub proof fn lemma_single_range_within(s: Seq<char>, total_size: u64)
    requires
        range_header_entries(s) matches Ok(parts) && parts.len() == 1,
    ensures
        resolve(range_header_entries(s)->Ok_0[0], Some(total_size)) matches Ok(span) ==> span.0
            <= span.1 < total_size && span.2 == Some(total_size),
{
    lemma_parsed_parts_valid(s);
    let p = range_header_entries(s)->Ok_0[0];
    assert(valid_part(p));
}

} // verus!

verus! {

/// Asking again, as `bytes=start-end`, for the span that a part resolved
/// to gives that one range, which resolves to the same span.
pub proof fn lemma_resolved_round_trip(p: RangeRequestPart, total_size: u64)
    requires
        valid_part(p),
        resolve(p, Some(total_size)) is Ok,
    ensures
        ({
            let span = resolve(p, Some(total_size))->Ok_0;
            &&& range_header_entries(range_header_for(span.0, span.1)) == Ok::<
                _,
                crate::error::RangeRequestParseError,
            >(seq![RangeRequestPart::Range(span.0, span.1)])
            &&& resolve(RangeRequestPart::Range(span.0, span.1), Some(total_size)) == Ok::<
                _,
                RangeResponseError,
            >(span)
        }),
{
    let span = resolve(p, Some(total_size))->Ok_0;
    lemma_parse_range_header_for(span.0, span.1);
}

} // verus!
