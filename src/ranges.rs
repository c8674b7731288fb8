//! The `Range` request header: its parts, its parser, and queries on it.
use vstd::prelude::*;

use crate::error::RangeRequestParseError;
use crate::text::{chars_of, decimal, push_char, push_decimal};

verus! {

/// One part of a `Range` header.
#[derive(Debug, Clone, Copy, Hash, PartialEq, Eq, PartialOrd, Ord, Structural)]
pub enum RangeRequestPart {
    /// From the first offset to the second, both included.
    Range(u64, u64),
    /// From the offset to the end of the resource.
    Skip(u64),
    /// The last bytes of the resource; never zero.
    Tail(u64),
}

/// `a - b`, or zero where `b` is larger.
pub open spec fn sat_sub(a: u64, b: u64) -> u64 {
    if a >= b {
        (a - b) as u64
    } else {
        0
    }
}

/// `a + 1`, or `a` where that does not fit.
pub open spec fn sat_inc(a: u64) -> u64 {
    if a < u64::MAX {
        (a + 1) as u64
    } else {
        a
    }
}

impl RangeRequestPart {
    /// Whether the part reaches past a resource of `total_size` bytes.
    pub open spec fn out_of_range(self, total_size: u64) -> bool {
        match self {
            RangeRequestPart::Range(start, end) => start >= total_size || end >= total_size,
            RangeRequestPart::Skip(start) => start >= total_size,
            RangeRequestPart::Tail(len) => len > total_size,
        }
    }

    /// The key by which parts are ordered: the variant, then the fields.
    pub open spec fn sort_key(self) -> (int, int, int) {
        match self {
            RangeRequestPart::Range(start, end) => (0, start as int, end as int),
            RangeRequestPart::Skip(start) => (1, start as int, 0),
            RangeRequestPart::Tail(len) => (2, len as int, 0),
        }
    }

    /// Whether `self` comes no later than `other` in the order of parts.
    pub open spec fn comes_no_later(self, other: RangeRequestPart) -> bool {
        let (a0, a1, a2) = self.sort_key();
        let (b0, b1, b2) = other.sort_key();
        a0 < b0 || (a0 == b0 && (a1 < b1 || (a1 == b1 && a2 <= b2)))
    }

    pub fn is_out_of_range(&self, total_size: u64) -> (r: bool)
        ensures
            r == self.out_of_range(total_size),
    {
        match self {
            RangeRequestPart::Range(start, end) => *start >= total_size || *end >= total_size,
            RangeRequestPart::Skip(start) => *start >= total_size,
            RangeRequestPart::Tail(len) => *len > total_size,
        }
    }

    pub fn is_range(&self) -> (r: bool)
        ensures
            r == (*self is Range),
    {
        match self {
            RangeRequestPart::Range(_, _) => true,
            _ => false,
        }
    }

    /// The text `start-end/total` that the part stands for in a resource of
    /// `total_size` bytes.
    pub open spec fn text_with_length(self, total_size: u64) -> Seq<char> {
        let (start, end) = match self {
            RangeRequestPart::Range(start, end) => (start, end),
            RangeRequestPart::Skip(start) => (start, sat_sub(total_size, 1)),
            RangeRequestPart::Tail(len) => (sat_sub(total_size, len), sat_sub(total_size, 1)),
        };
        decimal(start as nat) + seq!['-'] + decimal(end as nat) + seq!['/'] + decimal(
            total_size as nat,
        )
    }

    pub fn to_string_with_length(&self, total_size: u64) -> (r: String)
        ensures
            r@ == self.text_with_length(total_size),
    {
        let mut result = String::new();
        let (start, end) = match self {
            RangeRequestPart::Range(start, end) => (*start, *end),
            RangeRequestPart::Skip(start) => (*start, total_size.saturating_sub(1)),
            RangeRequestPart::Tail(len) => (
                total_size.saturating_sub(*len),
                total_size.saturating_sub(1),
            ),
        };
        push_decimal(&mut result, start);
        push_char(&mut result, '-');
        push_decimal(&mut result, end);
        push_char(&mut result, '/');
        push_decimal(&mut result, total_size);
        result
    }

    /// The part as it is written in a `Range` header.
    pub open spec fn text(self) -> Seq<char> {
        match self {
            RangeRequestPart::Range(start, end) => decimal(start as nat) + seq!['-'] + decimal(
                end as nat,
            ),
            RangeRequestPart::Skip(start) => decimal(start as nat) + seq!['-'],
            RangeRequestPart::Tail(len) => seq!['-'] + decimal(len as nat),
        }
    }

    /// Renders the part as it is written in a `Range` header.
    pub fn to_string(&self) -> (r: String)
        ensures
            r@ == self.text(),
    {
        let mut result = String::new();
        match self {
            RangeRequestPart::Range(start, end) => {
                push_decimal(&mut result, *start);
                push_char(&mut result, '-');
                push_decimal(&mut result, *end);
            },
            RangeRequestPart::Skip(start) => {
                push_decimal(&mut result, *start);
                push_char(&mut result, '-');
            },
            RangeRequestPart::Tail(len) => {
                push_char(&mut result, '-');
                push_decimal(&mut result, *len);
            },
        }
        result
    }
}

} // verus!

verus! {

/// A parsed `Range` header: one part, or several in ascending order.
#[derive(Debug, Clone, Hash, PartialEq, Eq)]
pub enum RangeReqest {
    Single(RangeRequestPart),
    Multi(Vec<RangeRequestPart>),
}

/// Whether each part comes no later than the next.
pub open spec fn sorted_parts(s: Seq<RangeRequestPart>) -> bool {
    forall|i: int, j: int| 0 <= i < j < s.len() ==> s[i].comes_no_later(s[j])
}

/// The offset from which a part starts being served; `None` for a tail of
/// a resource whose size is unknown.
pub open spec fn part_start(p: RangeRequestPart, total_size: Option<u64>) -> Option<u64> {
    match p {
        RangeRequestPart::Range(start, _) => Some(start),
        RangeRequestPart::Skip(start) => Some(start),
        RangeRequestPart::Tail(len) => match total_size {
            Some(t) => Some(sat_sub(t, len)),
            None => None,
        },
    }
}

/// The least offset from which a part after `p` could start without
/// overlapping it; `u64::MAX` once `p` runs to the end of the resource.
pub open spec fn next_free_offset(p: RangeRequestPart) -> u64 {
    match p {
        RangeRequestPart::Range(_, end) => sat_inc(end),
        _ => u64::MAX,
    }
}

/// Whether the part at index `i` of a sorted list is taken to overlap what
/// comes before it.
pub open spec fn overlaps_at(s: Seq<RangeRequestPart>, total_size: Option<u64>, i: int) -> bool {
    match part_start(s[i], total_size) {
        None => true,
        Some(start) => i > 0 && (next_free_offset(s[i - 1]) == u64::MAX || start
            < next_free_offset(s[i - 1])),
    }
}

impl RangeReqest {
    /// The parts of the request, in the order held.
    pub open spec fn parts(self) -> Seq<RangeRequestPart> {
        match self {
            RangeReqest::Single(p) => seq![p],
            RangeReqest::Multi(v) => v@,
        }
    }

    pub fn is_single(&self) -> (r: bool)
        ensures
            r == (*self is Single),
    {
        match self {
            RangeReqest::Single(_) => true,
            RangeReqest::Multi(_) => false,
        }
    }

    pub fn is_multi(&self) -> (r: bool)
        ensures
            r == (*self is Multi),
    {
        match self {
            RangeReqest::Single(_) => false,
            RangeReqest::Multi(_) => true,
        }
    }

    pub fn is_out_of_range(&self, total_size: u64) -> (r: bool)
        ensures
            r == exists|i: int|
                0 <= i < self.parts().len() && #[trigger] self.parts()[i].out_of_range(
                    total_size,
                ),
    {
        match self {
            RangeReqest::Single(part) => {
                let r = part.is_out_of_range(total_size);
                proof {
                    if r {
                        assert(self.parts()[0].out_of_range(total_size));
                    }
                }
                r
            },
            RangeReqest::Multi(parts) => {
                let mut i: usize = 0;
                while i < parts.len()
                    invariant
                        i <= parts@.len(),
                        self.parts() == parts@,
                        forall|j: int| 0 <= j < i ==> !(#[trigger] parts@[j]).out_of_range(total_size),
                    decreases parts.len() - i,
                {
                    if parts[i].is_out_of_range(total_size) {
                        return true;
                    }
                    i = i + 1;
                }
                false
            },
        }
    }

    /// Whether the parts of a `Multi` request, taken to be sorted, overlap;
    /// a tail of a resource of unknown size counts as overlapping.
    pub fn has_overlapping_ranges(&self, total_size: Option<u64>) -> (r: bool)
        ensures
            r == (*self is Multi && exists|i: int|
                0 <= i < self.parts().len() && #[trigger] overlaps_at(self.parts(), total_size, i)),
    {
        let parts = match self {
            RangeReqest::Single(_) => {
                return false;
            },
            RangeReqest::Multi(parts) => parts,
        };
        let mut minimum_value: u64 = 0;
        let mut i: usize = 0;
        while i < parts.len()
            invariant
                i <= parts@.len(),
                self.parts() == parts@,
                *self is Multi,
                i > 0 ==> minimum_value == next_free_offset(parts@[i - 1]),
                i == 0 ==> minimum_value == 0,
                forall|j: int| 0 <= j < i ==> !#[trigger] overlaps_at(parts@, total_size, j),
            decreases parts.len() - i,
        {
            let ghost overlap = overlaps_at(parts@, total_size, i as int);
            if minimum_value == u64::MAX {
                assert(overlap);
                return true;
            }
            match parts[i] {
                RangeRequestPart::Range(start, end) => {
                    if start < minimum_value {
                        assert(overlap);
                        return true;
                    }
                    minimum_value = end.saturating_add(1);
                },
                RangeRequestPart::Skip(start) => {
                    if start < minimum_value {
                        assert(overlap);
                        return true;
                    }
                    minimum_value = u64::MAX;
                },
                RangeRequestPart::Tail(len) => {
                    match total_size {
                        Some(t) => {
                            let start = t.saturating_sub(len);
                            if start < minimum_value {
                                assert(overlap);
                                return true;
                            }
                            minimum_value = u64::MAX;
                        },
                        None => {
                            assert(overlap);
                            return true;
                        },
                    }
                },
            }
            assert(!overlap);
            i = i + 1;
        }
        false
    }
}

} // verus!

verus! {

/// Characters that may stand around the tokens of a `Range` header.
pub open spec fn is_space(c: char) -> bool {
    (c as u32) <= 32
}

pub open spec fn is_digit(c: char) -> bool {
    48 <= (c as u32) <= 57
}

/// The first index from `i` on that holds no space.
pub open spec fn skip_spaces(s: Seq<char>, i: int) -> int
    decreases s.len() - i,
{
    if 0 <= i < s.len() && is_space(s[i]) {
        skip_spaces(s, i + 1)
    } else {
        i
    }
}

/// The first index from `i` on that holds no digit.
pub open spec fn digits_end(s: Seq<char>, i: int) -> int
    decreases s.len() - i,
{
    if 0 <= i < s.len() && is_digit(s[i]) {
        digits_end(s, i + 1)
    } else {
        i
    }
}

/// The number written by the digits from `i` up to `j`.
pub open spec fn digits_value(s: Seq<char>, i: int, j: int) -> nat
    decreases j - i,
{
    if j <= i {
        0
    } else {
        digits_value(s, i, j - 1) * 10 + ((s[j - 1] as u32) - 48) as nat
    }
}

/// The number that starts at `i`, held at `u64::MAX` where it is larger,
/// with the index after it; `None` where no digit stands at `i`.
pub open spec fn uint_at(s: Seq<char>, i: int) -> Option<(u64, int)> {
    if 0 <= i < s.len() && is_digit(s[i]) {
        let j = digits_end(s, i);
        let v = digits_value(s, i, j);
        Some((if v <= u64::MAX { v as u64 } else { u64::MAX }, j))
    } else {
        None
    }
}

/// The index after an optional number at `i`.
pub open spec fn after_uint(s: Seq<char>, i: int) -> int {
    match uint_at(s, i) {
        Some((_, j)) => j,
        None => i,
    }
}

/// One entry `start-end`, `start-` or `-length` at `i`, with the index
/// after it.
pub open spec fn entry_at(s: Seq<char>, i: int) -> Result<
    (RangeRequestPart, int),
    RangeRequestParseError,
> {
    let a = skip_spaces(s, i);
    let b = skip_spaces(s, after_uint(s, a));
    if !(0 <= b < s.len() && s[b] == '-') {
        Err(RangeRequestParseError::SyntaxError)
    } else {
        let c = skip_spaces(s, b + 1);
        let d = after_uint(s, c);
        match (uint_at(s, a), uint_at(s, c)) {
            (Some((start, _)), Some((end, _))) => if end < start {
                Err(RangeRequestParseError::EndBeforeStart)
            } else {
                Ok((RangeRequestPart::Range(start, end), d))
            },
            (Some((start, _)), None) => Ok((RangeRequestPart::Skip(start), d)),
            (None, Some((len, _))) => if len == 0 {
                Err(RangeRequestParseError::ZeroLengthTail)
            } else {
                Ok((RangeRequestPart::Tail(len), d))
            },
            (None, None) => Err(RangeRequestParseError::SyntaxError),
        }
    }
}

/// The comma-separated entries from `i` to the end, in the order written.
pub open spec fn entries_from(s: Seq<char>, i: int) -> Result<
    Seq<RangeRequestPart>,
    RangeRequestParseError,
>
    decreases s.len() - i,
    via entries_from_decreases
{
    match entry_at(s, i) {
        Err(e) => Err(e),
        Ok((p, j)) => {
            let k = skip_spaces(s, j);
            if k >= s.len() {
                Ok(seq![p])
            } else if s[k] != ',' {
                Err(RangeRequestParseError::SyntaxError)
            } else {
                match entries_from(s, k + 1) {
                    Err(e) => Err(e),
                    Ok(rest) => Ok(seq![p] + rest),
                }
            }
        },
    }
}

proof fn lemma_skip_spaces(s: Seq<char>, i: int)
    ensures
        skip_spaces(s, i) >= i,
        0 <= i ==> skip_spaces(s, i) >= 0,
        0 <= i <= s.len() ==> skip_spaces(s, i) <= s.len(),
        0 <= i <= s.len() ==> forall|k: int|
            i <= k < skip_spaces(s, i) ==> #[trigger] is_space(s[k]),
    decreases s.len() - i,
{
    if 0 <= i < s.len() && is_space(s[i]) {
        lemma_skip_spaces(s, i + 1);
    }
}

proof fn lemma_digits_end(s: Seq<char>, i: int)
    ensures
        digits_end(s, i) >= i,
        0 <= i <= s.len() ==> digits_end(s, i) <= s.len(),
        0 <= i <= s.len() ==> forall|k: int|
            i <= k < digits_end(s, i) ==> #[trigger] is_digit(s[k]),
        0 <= i ==> digits_end(s, i) >= s.len() || !is_digit(s[digits_end(s, i)]),
    decreases s.len() - i,
{
    if 0 <= i < s.len() && is_digit(s[i]) {
        lemma_digits_end(s, i + 1);
    }
}

/// An entry that parses ends past where it started.
pub(crate) proof fn lemma_entry_advances(s: Seq<char>, i: int)
    ensures
        entry_at(s, i) matches Ok((_, j)) ==> j > i && skip_spaces(s, j) >= j,
{
    match entry_at(s, i) {
        Err(_) => {},
        Ok((p, j)) => {
            let a = skip_spaces(s, i);
            lemma_skip_spaces(s, i);
            let u = after_uint(s, a);
            lemma_digits_end(s, a);
            lemma_skip_spaces(s, u);
            let b = skip_spaces(s, u);
            let c = skip_spaces(s, b + 1);
            lemma_skip_spaces(s, b + 1);
            lemma_digits_end(s, c);
            lemma_skip_spaces(s, j);
        },
    }
}

#[via_fn]
proof fn entries_from_decreases(s: Seq<char>, i: int) {
    lemma_entry_advances(s, i);
}

/// What a `Range` header value parses to: its entries in the order written.
pub open spec fn range_header_entries(s: Seq<char>) -> Result<
    Seq<RangeRequestPart>,
    RangeRequestParseError,
> {
    if s.len() == 0 {
        Err(RangeRequestParseError::SyntaxError)
    } else if !(s.len() >= 5 && s.take(5) == seq!['b', 'y', 't', 'e', 's']) {
        Err(RangeRequestParseError::UnsupportedUnit)
    } else {
        let a = skip_spaces(s, 5);
        if !(a < s.len() && s[a] == '=') {
            Err(RangeRequestParseError::UnsupportedUnit)
        } else {
            entries_from(s, a + 1)
        }
    }
}

} // verus!

verus! {

fn skip_over_spaces(s: &Vec<char>, i: usize) -> (r: usize)
    requires
        i <= s@.len(),
    ensures
        r as int == skip_spaces(s@, i as int),
        i <= r <= s@.len(),
{
    let mut j: usize = i;
    while j < s.len() && (s[j] as u32) <= 32
        invariant
            i <= j <= s@.len(),
            skip_spaces(s@, j as int) == skip_spaces(s@, i as int),
        decreases s@.len() - j,
    {
        j = j + 1;
    }
    j
}

fn is_next_char(s: &Vec<char>, i: usize, c: char) -> (r: bool)
    ensures
        r == (i < s@.len() && s@[i as int] == c),
{
    i < s.len() && s[i] == c
}

fn has_ended(s: &Vec<char>, i: usize) -> (r: bool)
    ensures
        r == (i >= s@.len()),
{
    i >= s.len()
}

/// Reads the number at `i`, held at `u64::MAX` where it is larger.
fn parse_uint(s: &Vec<char>, i: usize) -> (r: Option<(u64, usize)>)
    requires
        i <= s@.len(),
    ensures
        match r {
            None => uint_at(s@, i as int) is None,
            Some((v, j)) => uint_at(s@, i as int) == Some((v, j as int)) && i < j <= s@.len(),
        },
{
    if !(i < s.len() && 48 <= (s[i] as u32) && (s[i] as u32) <= 57) {
        return None;
    }
    proof {
        lemma_digits_end(s@, i as int);
        lemma_digits_end(s@, i + 1);
    }
    let mut result: u64 = 0;
    let mut j: usize = i;
    while j < s.len() && 48 <= (s[j] as u32) && (s[j] as u32) <= 57
        invariant
            i <= j <= s@.len(),
            digits_end(s@, j as int) == digits_end(s@, i as int),
            result as nat == if digits_value(s@, i as int, j as int) <= u64::MAX {
                digits_value(s@, i as int, j as int)
            } else {
                u64::MAX as nat
            },
        decreases s@.len() - j,
    {
        let digit: u64 = (s[j] as u32 - 48) as u64;
        result = if result > u64::MAX / 10 {
            u64::MAX
        } else {
            result * 10
        };
        result = result.saturating_add(digit);
        j = j + 1;
    }
    Some((result, j))
}

/// Compares two parts in the order of their variants, then fields.
fn part_le(a: &RangeRequestPart, b: &RangeRequestPart) -> (r: bool)
    ensures
        r == a.comes_no_later(*b),
{
    match (a, b) {
        (RangeRequestPart::Range(s1, e1), RangeRequestPart::Range(s2, e2)) => *s1 < *s2 || (*s1
            == *s2 && *e1 <= *e2),
        (RangeRequestPart::Range(_, _), _) => true,
        (RangeRequestPart::Skip(_), RangeRequestPart::Range(_, _)) => false,
        (RangeRequestPart::Skip(s1), RangeRequestPart::Skip(s2)) => *s1 <= *s2,
        (RangeRequestPart::Skip(_), RangeRequestPart::Tail(_)) => true,
        (RangeRequestPart::Tail(n1), RangeRequestPart::Tail(n2)) => *n1 <= *n2,
        (RangeRequestPart::Tail(_), _) => false,
    }
}

fn parse_entry(s: &Vec<char>, i: usize) -> (r: Result<(RangeRequestPart, usize), RangeRequestParseError>)
    requires
        i <= s@.len(),
    ensures
        match r {
            Ok((p, j)) => entry_at(s@, i as int) == Ok::<_, RangeRequestParseError>((p, j as int))
                && i < j <= s@.len(),
            Err(e) => entry_at(s@, i as int) == Err::<(RangeRequestPart, int), _>(e),
        },
{
    let a = skip_over_spaces(s, i);
    let maybe_start = parse_uint(s, a);
    let after_start = match maybe_start {
        Some((_, j)) => j,
        None => a,
    };
    let b = skip_over_spaces(s, after_start);
    if !is_next_char(s, b, '-') {
        return Err(RangeRequestParseError::SyntaxError);
    }
    assert(b < s.len());
    let c = skip_over_spaces(s, b + 1);
    let maybe_end = parse_uint(s, c);
    let d = match maybe_end {
        Some((_, j)) => j,
        None => c,
    };
    match (maybe_start, maybe_end) {
        (Some((start, _)), Some((end, _))) => {
            if end < start {
                return Err(RangeRequestParseError::EndBeforeStart);
            }
            Ok((RangeRequestPart::Range(start, end), d))
        },
        (Some((start, _)), None) => Ok((RangeRequestPart::Skip(start), d)),
        (None, Some((len, _))) => {
            if len == 0 {
                return Err(RangeRequestParseError::ZeroLengthTail);
            }
            Ok((RangeRequestPart::Tail(len), d))
        },
        (None, None) => Err(RangeRequestParseError::SyntaxError),
    }
}

} // verus!

verus! {

/// `prefix` followed by the entries of `rest`, where `rest` parsed.
pub open spec fn prepend_entries(
    prefix: Seq<RangeRequestPart>,
    rest: Result<Seq<RangeRequestPart>, RangeRequestParseError>,
) -> Result<Seq<RangeRequestPart>, RangeRequestParseError> {
    match rest {
        Ok(r) => Ok(prefix + r),
        Err(e) => Err(e),
    }
}

proof fn lemma_insert_to_multiset(s: Seq<RangeRequestPart>, i: int, x: RangeRequestPart)
    requires
        0 <= i <= s.len(),
    ensures
        s.insert(i, x).to_multiset() =~= s.to_multiset().insert(x),
{
    broadcast use vstd::seq_lib::group_to_multiset_ensures;

    let t = s.insert(i, x);
    assert(t.remove(i) =~= s);
    assert(t.to_multiset().count(x) > 0) by {
        assert(t.contains(x)) by {
            assert(t[i] == x);
        }
    }
}

/// Sorts the parts in ascending order, keeping each one.
fn sort_parts(v: &Vec<RangeRequestPart>) -> (r: Vec<RangeRequestPart>)
    ensures
        sorted_parts(r@),
        r@.to_multiset() =~= v@.to_multiset(),
{
    broadcast use vstd::seq_lib::group_to_multiset_ensures;

    let mut r: Vec<RangeRequestPart> = Vec::with_capacity(v.len());
    let mut i: usize = 0;
    while i < v.len()
        invariant
            i <= v@.len(),
            sorted_parts(r@),
            r@.to_multiset() =~= v@.take(i as int).to_multiset(),
        decreases v@.len() - i,
    {
        let x = v[i];
        let mut p: usize = 0;
        while p < r.len() && part_le(&r[p], &x)
            invariant
                p <= r@.len(),
                forall|k: int| 0 <= k < p ==> (#[trigger] r@[k]).comes_no_later(x),
            decreases r@.len() - p,
        {
            p = p + 1;
        }
        let ghost old_r = r@;
        proof {
            lemma_insert_to_multiset(old_r, p as int, x);
            assert(v@.take(i + 1) =~= v@.take(i as int).push(x));
            vstd::seq_lib::to_multiset_build(v@.take(i as int), x);
        }
        r.insert(p, x);
        assert(r@.to_multiset() =~= v@.take(i + 1).to_multiset());
        assert(sorted_parts(r@)) by {
            assert forall|a: int, b: int| 0 <= a < b < r@.len() implies r@[a].comes_no_later(
                r@[b],
            ) by {
                if p < old_r.len() {
                    assert(!old_r[p as int].comes_no_later(x));
                    if a == p {
                        assert(old_r[p as int].comes_no_later(old_r[b - 1]) || b - 1 == p);
                    }
                }
            }
        }
        i = i + 1;
    }
    assert(v@.take(i as int) =~= v@);
    r
}

impl RangeReqest {
    /// Parses a `Range` header value; the parts of a `Multi` result are sorted.
    pub fn parse(string: &str) -> (r: Result<RangeReqest, RangeRequestParseError>)
        ensures
            match range_header_entries(string@) {
                Err(e) => r == Err::<RangeReqest, _>(e),
                Ok(parts) => r is Ok && if parts.len() == 1 {
                    r->Ok_0 == RangeReqest::Single(parts[0])
                } else {
                    &&& r->Ok_0 is Multi
                    &&& sorted_parts(r->Ok_0.parts())
                    &&& r->Ok_0.parts().to_multiset() =~= parts.to_multiset()
                },
            },
    {
        let s = chars_of(string);
        if s.len() == 0 {
            return Err(RangeRequestParseError::SyntaxError);
        }
        if !(s.len() >= 5 && s[0] == 'b' && s[1] == 'y' && s[2] == 't' && s[3] == 'e' && s[4] == 's') {
            proof {
                if s@.len() >= 5 && s@.take(5) == seq!['b', 'y', 't', 'e', 's'] {
                    assert(s@.take(5)[0] == 'b');
                    assert(s@.take(5)[1] == 'y');
                    assert(s@.take(5)[2] == 't');
                    assert(s@.take(5)[3] == 'e');
                    assert(s@.take(5)[4] == 's');
                }
            }
            return Err(RangeRequestParseError::UnsupportedUnit);
        }
        assert(s@.take(5) =~= seq!['b', 'y', 't', 'e', 's']);
        let a = skip_over_spaces(&s, 5);
        if !is_next_char(&s, a, '=') {
            return Err(RangeRequestParseError::UnsupportedUnit);
        }
        assert(a < s.len());
        let mut result: Vec<RangeRequestPart> = Vec::with_capacity(1);
        let mut i: usize = a + 1;
        proof {
            match entries_from(s@, i as int) {
                Ok(rest) => assert(result@ + rest =~= rest),
                Err(_) => {},
            }
        }
        loop
            invariant_except_break
                range_header_entries(string@) == prepend_entries(result@, entries_from(s@, i as int)),
            invariant
                i <= s@.len(),
                s@ == string@,
            ensures
                range_header_entries(string@) == Ok::<_, RangeRequestParseError>(result@),
                result@.len() >= 1,
            decreases s@.len() - i,
        {
            let (part, j) = match parse_entry(&s, i) {
                Ok(pj) => pj,
                Err(e) => {
                    return Err(e);
                },
            };
            let ghost before = result@;
            result.push(part);
            let k = skip_over_spaces(&s, j);
            if has_ended(&s, k) {
                assert(before + seq![part] =~= result@);
                break;
            }
            if !is_next_char(&s, k, ',') {
                return Err(RangeRequestParseError::SyntaxError);
            }
            assert(k < s.len());
            proof {
                match entries_from(s@, k + 1) {
                    Ok(rest) => assert(before + (seq![part] + rest) =~= result@ + rest),
                    Err(_) => {},
                }
            }
            i = k + 1;
        }
        if result.len() == 1 {
            Ok(RangeReqest::Single(result[0]))
        } else {
            Ok(RangeReqest::Multi(sort_parts(&result)))
        }
    }
}

impl std::str::FromStr for RangeReqest {
    type Err = RangeRequestParseError;

    fn from_str(string: &str) -> Result<RangeReqest, RangeRequestParseError> {
        RangeReqest::parse(string)
    }
}

} // verus!

verus! {

proof fn lemma_decimal_digits(n: nat)
    ensures
        forall|k: int| 0 <= k < decimal(n).len() ==> is_digit(#[trigger] decimal(n)[k]),
        decimal(n).len() >= 1,
    decreases n,
{
    if n >= 10 {
        lemma_decimal_digits(n / 10);
        let d = decimal(n / 10);
        assert forall|k: int| 0 <= k < decimal(n).len() implies is_digit(#[trigger] decimal(n)[k]) by {
            if k < d.len() {
                assert(decimal(n)[k] == d[k]);
            }
        }
    }
}

proof fn lemma_digits_end_at(s: Seq<char>, i: int, j: int)
    requires
        0 <= i <= j <= s.len(),
        forall|k: int| i <= k < j ==> is_digit(#[trigger] s[k]),
        j == s.len() || !is_digit(s[j]),
    ensures
        digits_end(s, i) == j,
    decreases j - i,
{
    if i < j {
        lemma_digits_end_at(s, i + 1, j);
    }
}

proof fn lemma_digit_char(d: nat)
    requires
        d < 10,
    ensures
        crate::text::digit_char(d) as u32 == d + 48,
{
}

proof fn lemma_digits_value_decimal(s: Seq<char>, i: int, n: nat)
    requires
        0 <= i,
        i + decimal(n).len() <= s.len(),
        s.subrange(i, i + decimal(n).len()) == decimal(n),
    ensures
        digits_value(s, i, i + decimal(n).len()) == n,
    decreases n,
{
    let len = decimal(n).len();
    if n >= 10 {
        let d = decimal(n / 10);
        assert(s.subrange(i, i + d.len()) =~= s.subrange(i, i + len).take(d.len() as int));
        assert(decimal(n).take(d.len() as int) =~= d);
        lemma_digits_value_decimal(s, i, n / 10);
        assert(s[i + len - 1] == decimal(n)[len - 1]);
        lemma_digit_char(n % 10);
        assert(digits_value(s, i, i + len) == digits_value(s, i, i + len - 1) * 10 + (n % 10));
    } else {
        assert(s[i] == decimal(n)[0]);
        lemma_digit_char(n);
        assert(digits_value(s, i, i) == 0);
    }
}

/// The number written in decimal at `i`, followed by a non-digit or by the
/// end, reads back as itself.
proof fn lemma_uint_at_decimal(s: Seq<char>, i: int, n: u64)
    requires
        0 <= i,
        i + decimal(n as nat).len() <= s.len(),
        s.subrange(i, i + decimal(n as nat).len()) == decimal(n as nat),
        i + decimal(n as nat).len() == s.len() || !is_digit(s[i + decimal(n as nat).len()]),
    ensures
        uint_at(s, i) == Some((n, i + decimal(n as nat).len())),
{
    let len = decimal(n as nat).len() as int;
    lemma_decimal_digits(n as nat);
    assert forall|k: int| i <= k < i + len implies is_digit(#[trigger] s[k]) by {
        assert(s[k] == s.subrange(i, i + len)[k - i]);
    }
    lemma_digits_end_at(s, i, i + len);
    lemma_digits_value_decimal(s, i, n as nat);
    assert(is_digit(s[i])) by {
        assert(s[i] == s.subrange(i, i + len)[0]);
    }
}

/// The header value `bytes=start-end`.
pub open spec fn range_header_for(start: u64, end: u64) -> Seq<char> {
    seq!['b', 'y', 't', 'e', 's', '='] + decimal(start as nat) + seq!['-'] + decimal(end as nat)
}

/// `bytes=start-end` parses to the one range from `start` to `end`.
pub proof fn lemma_parse_range_header_for(start: u64, end: u64)
    requires
        start <= end,
    ensures
        range_header_entries(range_header_for(start, end)) == Ok::<_, RangeRequestParseError>(
            seq![RangeRequestPart::Range(start, end)],
        ),
{
    let s = range_header_for(start, end);
    let da = decimal(start as nat);
    let db = decimal(end as nat);
    let la = da.len() as int;
    let lb = db.len() as int;
    lemma_decimal_digits(start as nat);
    lemma_decimal_digits(end as nat);
    assert(s.len() == 7 + la + lb);
    assert(s.take(5) =~= seq!['b', 'y', 't', 'e', 's']);
    assert(s[5] == '=');
    assert(skip_spaces(s, 5) == 5);
    assert(s.subrange(6, 6 + la) =~= da);
    assert(s[6 + la] == '-');
    lemma_uint_at_decimal(s, 6, start);
    assert(s[6] == da[0]);
    assert(skip_spaces(s, 6) == 6);
    assert(skip_spaces(s, 6 + la) == 6 + la);
    assert(s.subrange(7 + la, 7 + la + lb) =~= db);
    lemma_uint_at_decimal(s, 7 + la, end);
    assert(s[7 + la] == db[0]);
    assert(skip_spaces(s, 7 + la) == 7 + la);
    assert(entry_at(s, 6) == Ok::<_, RangeRequestParseError>(
        (RangeRequestPart::Range(start, end), s.len() as int),
    ));
    assert(skip_spaces(s, s.len() as int) == s.len());
}

} // verus!
