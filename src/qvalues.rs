//! Quality values of `Accept`-style headers and negotiation over them.
use vstd::prelude::*;

use crate::ranges::{digits_value, is_digit, is_space};
use crate::text::{
    chars_of, first_non_space, lemma_split_on_len, pow10, slice_chars, split_chars, split_on, string_of, trim, trim_chars,
    trim_start, views,
};

verus! {

/// How closely a preference names a candidate: not at all (`Unmatched`), through a
/// `type/*` wildcard, or exactly. Ordered `Unmatched < Wildcard < Exact`.
#[derive(Debug, Clone, Copy, PartialEq, Eq, PartialOrd, Ord, Structural)]
pub enum MatchPrecedent {
    Unmatched,
    Wildcard,
    Exact,
}

impl MatchPrecedent {
    /// The place of the variant in the order `Unmatched < Wildcard < Exact`.
    pub open spec fn rank(self) -> int {
        match self {
            MatchPrecedent::Unmatched => 0,
            MatchPrecedent::Wildcard => 1,
            MatchPrecedent::Exact => 2,
        }
    }

    /// Whether `self` ranks above `other`.
    pub fn is_above(&self, other: &MatchPrecedent) -> (r: bool)
        ensures
            r == (self.rank() > other.rank()),
    {
        match (self, other) {
            (MatchPrecedent::Exact, MatchPrecedent::Exact) => false,
            (MatchPrecedent::Exact, _) => true,
            (MatchPrecedent::Wildcard, MatchPrecedent::Unmatched) => true,
            _ => false,
        }
    }
}

/// Whether `token` ends with `/*`, naming every subtype of a type.
pub open spec fn is_type_wildcard(token: Seq<char>) -> bool {
    token.len() >= 2 && token[token.len() - 2] == '/' && token[token.len() - 1] == '*'
}

/// How the preference `token` names the candidate `candidate`.
pub open spec fn match_of(token: Seq<char>, candidate: Seq<char>) -> MatchPrecedent {
    if is_type_wildcard(token) {
        let major = token.take(token.len() - 1);
        if candidate.len() >= major.len() && candidate.take(major.len() as int) == major {
            MatchPrecedent::Wildcard
        } else {
            MatchPrecedent::Unmatched
        }
    } else if token == candidate {
        MatchPrecedent::Exact
    } else {
        MatchPrecedent::Unmatched
    }
}

/// Whether `a` and `b` hold the same characters up to index `n`.
fn same_prefix(a: &Vec<char>, b: &Vec<char>, n: usize) -> (r: bool)
    requires
        n <= a@.len(),
        n <= b@.len(),
    ensures
        r == (a@.take(n as int) == b@.take(n as int)),
{
    let mut i: usize = 0;
    while i < n
        invariant
            i <= n <= a@.len(),
            n <= b@.len(),
            a@.take(i as int) == b@.take(i as int),
        decreases n - i,
    {
        if a[i] != b[i] {
            assert(a@.take(n as int)[i as int] != b@.take(n as int)[i as int]);
            return false;
        }
        assert(a@.take(i + 1) =~= a@.take(i as int).push(a@[i as int]));
        assert(b@.take(i + 1) =~= b@.take(i as int).push(b@[i as int]));
        i = i + 1;
    }
    true
}

/// One preference of an `Accept`-style header: a token and its weight in
/// thousandths.
#[derive(Debug, Clone)]
pub struct QualityValue {
    quality: u16,
    value: String,
}

impl QualityValue {
    /// The weight.
    pub closed spec fn quality_spec(&self) -> u16 {
        self.quality
    }

    /// The token.
    pub closed spec fn value_spec(&self) -> Seq<char> {
        self.value@
    }

    pub fn new(value: String, quality: u16) -> (r: Self)
        ensures
            r.quality_spec() == quality,
            r.value_spec() == value@,
    {
        QualityValue { quality, value }
    }

    pub fn quality(&self) -> (r: u16)
        ensures
            r == self.quality_spec(),
    {
        self.quality
    }

    pub fn value(&self) -> (r: &str)
        ensures
            r@ == self.value_spec(),
    {
        self.value.as_str()
    }

    /// How this preference names `check_value`.
    pub fn value_matches(&self, check_value: &str) -> (r: MatchPrecedent)
        ensures
            r == match_of(self.value_spec(), check_value@),
    {
        let token = chars_of(self.value.as_str());
        let candidate = chars_of(check_value);
        let n = token.len();
        if n >= 2 && token[n - 2] == '/' && token[n - 1] == '*' {
            if candidate.len() >= n - 1 && same_prefix(&token, &candidate, n - 1) {
                MatchPrecedent::Wildcard
            } else {
                MatchPrecedent::Unmatched
            }
        } else if candidate.len() == n && same_prefix(&token, &candidate, n) {
            assert(token@ =~= token@.take(n as int));
            assert(candidate@ =~= candidate@.take(n as int));
            MatchPrecedent::Exact
        } else {
            proof {
                if token@ == candidate@ {
                    assert(token@ =~= token@.take(n as int));
                }
            }
            MatchPrecedent::Unmatched
        }
    }
}

impl PartialEq for QualityValue {
    /// Preferences are equal when they weigh the same, whatever their tokens.
    fn eq(&self, other: &QualityValue) -> (r: bool) {
        self.quality == other.quality
    }
}

impl vstd::std_specs::cmp::PartialEqSpecImpl for QualityValue {
    open spec fn obeys_eq_spec() -> bool {
        true
    }

    open spec fn eq_spec(&self, other: &QualityValue) -> bool {
        self.quality_spec() == other.quality_spec()
    }
}

impl Eq for QualityValue {

}

impl PartialOrd for QualityValue {
    /// Preferences are ordered by weight alone.
    fn partial_cmp(&self, other: &QualityValue) -> (r: Option<std::cmp::Ordering>) {
        if self.quality < other.quality {
            Some(std::cmp::Ordering::Less)
        } else if self.quality > other.quality {
            Some(std::cmp::Ordering::Greater)
        } else {
            Some(std::cmp::Ordering::Equal)
        }
    }
}

impl vstd::std_specs::cmp::PartialOrdSpecImpl for QualityValue {
    open spec fn obeys_partial_cmp_spec() -> bool {
        true
    }

    open spec fn partial_cmp_spec(&self, other: &QualityValue) -> Option<std::cmp::Ordering> {
        if self.quality_spec() < other.quality_spec() {
            Some(std::cmp::Ordering::Less)
        } else if self.quality_spec() > other.quality_spec() {
            Some(std::cmp::Ordering::Greater)
        } else {
            Some(std::cmp::Ordering::Equal)
        }
    }
}

/// Whether every character of `s` is a digit.
pub open spec fn all_digits(s: Seq<char>) -> bool {
    forall|i: int| 0 <= i < s.len() ==> is_digit(#[trigger] s[i])
}

/// The weight in thousandths that a `q` parameter's value gives: `0` for
/// `"0"`; for `"0."` and digits, the first three digits read as
/// thousandths; `1000` for anything else.
pub open spec fn weight_of(q: Seq<char>) -> u16 {
    if q == seq!['0'] {
        0
    } else if q.len() >= 3 && q[0] == '0' && q[1] == '.' && all_digits(q.skip(2)) {
        let end = if q.len() < 5 { q.len() as int } else { 5 };
        (digits_value(q, 2, end) * pow10((5 - end) as nat)) as u16
    } else {
        1000
    }
}

fn parse_quality_value(input: &Vec<char>) -> (r: u16)
    ensures
        r == weight_of(input@),
        r <= 1000,
{
    let n = input.len();
    if n == 1 && input[0] == '0' {
        assert(input@ =~= seq!['0']);
        return 0;
    }
    proof {
        if input@ == seq!['0'] {
            assert(input@[0] == '0');
        }
    }
    if !(n >= 3 && input[0] == '0' && input[1] == '.') {
        return 1000;
    }
    let mut i: usize = 2;
    while i < n
        invariant
            2 <= i <= n,
            n == input@.len(),
            forall|k: int| 2 <= k < i ==> is_digit(#[trigger] input@[k]),
        decreases n - i,
    {
        let c = input[i] as u32;
        if !(48 <= c && c <= 57) {
            assert(input@.skip(2)[i - 2] == input@[i as int]);
            return 1000;
        }
        i = i + 1;
    }
    assert(all_digits(input@.skip(2)));
    let end: usize = if n < 5 { n } else { 5 };
    let mut value: u16 = 0;
    let mut k: usize = 2;
    while k < end
        invariant
            2 <= k <= end <= 5,
            end <= n == input@.len(),
            forall|j: int| 2 <= j < n ==> is_digit(#[trigger] input@[j]),
            value as nat == digits_value(input@, 2, k as int),
            value < pow10((k - 2) as nat),
        decreases end - k,
    {
        let d = (input[k] as u32 - 48) as u16;
        proof {
            reveal_with_fuel(pow10, 4);
        }
        value = value * 10 + d;
        k = k + 1;
    }
    proof {
        reveal_with_fuel(pow10, 4);
        assert(value as nat == digits_value(input@, 2, end as int));
        assert(input@ != seq!['0']);
    }
    // Pad to three digits.
    if end == 3 {
        assert(weight_of(input@) == (digits_value(input@, 2, 3) * pow10(2)) as u16);
        value * 100
    } else if end == 4 {
        assert(weight_of(input@) == (digits_value(input@, 2, 4) * pow10(1)) as u16);
        value * 10
    } else {
        assert(weight_of(input@) == (digits_value(input@, 2, 5) * pow10(0)) as u16);
        value
    }
}

} // verus!

verus! {

/// The value of a `q=VALUE` parameter, or `None` for another parameter.
pub open spec fn q_param_value(param: Seq<char>) -> Option<Seq<char>> {
    let t = trim_start(param);
    if t.len() >= 1 && t[0] == 'q' {
        let u = trim_start(t.drop_first());
        if u.len() >= 1 && u[0] == '=' {
            Some(trim(u.drop_first()))
        } else {
            None
        }
    } else {
        None
    }
}

/// The value of the first `q` parameter from index `i` on.
pub open spec fn first_q_value(params: Seq<Seq<char>>, i: int) -> Option<Seq<char>>
    decreases params.len() - i,
{
    if i < 0 || i >= params.len() {
        None
    } else {
        match q_param_value(params[i]) {
            Some(v) => Some(v),
            None => first_q_value(params, i + 1),
        }
    }
}

/// The token and weight of one comma-separated entry
/// `token[;params][;q=VALUE][;params]`; a missing `q` weighs `1000`.
pub open spec fn preference_of(entry: Seq<char>) -> (Seq<char>, u16) {
    let pieces = split_on(entry, ';');
    let weight = match first_q_value(pieces, 1) {
        Some(v) => weight_of(v),
        None => 1000,
    };
    (trim(pieces[0]), weight)
}

/// Whether a token stands for every representation.
pub open spec fn is_any_token(token: Seq<char>) -> bool {
    token == seq!['*', '/', '*'] || token == seq!['*']
}

/// The stored preferences and the wildcard weight that a list of entries
/// gives, starting from the wildcard weight `wildcard`: an empty token is
/// passed over, a `*/*` or `*` token sets the wildcard weight, any other
/// is stored in order.
pub open spec fn preferences_of(entries: Seq<Seq<char>>, wildcard: u16) -> (
    Seq<(Seq<char>, u16)>,
    u16,
)
    decreases entries.len(),
{
    if entries.len() == 0 {
        (Seq::empty(), wildcard)
    } else {
        let (prefs, w) = preferences_of(entries.drop_last(), wildcard);
        let (token, weight) = preference_of(entries.last());
        if token.len() == 0 {
            (prefs, w)
        } else if is_any_token(token) {
            (prefs, weight)
        } else {
            (prefs.push((token, weight)), w)
        }
    }
}

#[verifier::rlimit(40)]
fn q_param(param: &Vec<char>) -> (r: Option<Vec<char>>)
    ensures
        match r {
            Some(v) => q_param_value(param@) == Some(v@),
            None => q_param_value(param@) is None,
        },
{
    assert(param@.skip(0) =~= param@);
    let k = first_non_space(param, 0);
    if !(k < param.len() && param[k] == 'q') {
        return None;
    }
    assert(param@.skip(k as int).drop_first() =~= param@.skip(k + 1));
    let m = first_non_space(param, k + 1);
    if !(m < param.len() && param[m] == '=') {
        return None;
    }
    assert(param@.skip(m as int).drop_first() =~= param@.subrange(m + 1, param@.len() as int));
    let rest = slice_chars(param, m + 1, param.len());
    Some(trim_chars(&rest))
}

} // verus!

verus! {

/// The token and weight of one entry of the header.
fn preference_entry(entry: &Vec<char>) -> (r: (Vec<char>, u16))
    ensures
        (r.0@, r.1) == preference_of(entry@),
        r.1 <= 1000,
{
    let pieces = split_chars(entry, ';');
    proof {
        lemma_split_on_len(entry@, ';');
    }
    assert(pieces@[0]@ == views(pieces@)[0]);
    let token = trim_chars(&pieces[0]);
    let mut i: usize = 1;
    let mut weight: u16 = 1000;
    while i < pieces.len()
        invariant
            1 <= i <= pieces@.len(),
            views(pieces@) == split_on(entry@, ';'),
            first_q_value(views(pieces@), 1) == first_q_value(views(pieces@), i as int),
            weight == 1000,
            token@ == trim(views(pieces@)[0]),
        decreases pieces@.len() - i,
    {
        assert(pieces@[i as int]@ == views(pieces@)[i as int]);
        match q_param(&pieces[i]) {
            Some(v) => {
                weight = parse_quality_value(&v);
                return (token, weight);
            },
            None => {},
        }
        i = i + 1;
    }
    (token, weight)
}

/// The preferences of one `Accept`-style header: the entries in the order
/// written, and the weight of anything that no entry names.
#[derive(Debug, Clone)]
pub struct QualitySorter {
    values: Vec<QualityValue>,
    wildcard_quality: u16,
}

/// The token and weight of each preference.
pub open spec fn pairs_of(values: Seq<QualityValue>) -> Seq<(Seq<char>, u16)> {
    values.map_values(|v: QualityValue| (v.value_spec(), v.quality_spec()))
}

impl QualitySorter {
    /// The stored preferences, as token and weight, in the order written.
    pub closed spec fn prefs(&self) -> Seq<(Seq<char>, u16)> {
        pairs_of(self.values@)
    }

    /// The weight of anything that no stored preference names.
    pub closed spec fn wildcard(&self) -> u16 {
        self.wildcard_quality
    }

    /// Every weight lies between `0` and `1000`.
    pub open spec fn wf(&self) -> bool {
        &&& self.wildcard() <= 1000
        &&& forall|i: int| 0 <= i < self.prefs().len() ==> #[trigger] self.prefs()[i].1 <= 1000
    }

    /// Reads the preferences of a header; where `wildcard_implicitly_allowed`
    /// holds, what no entry names weighs `1000` unless a `*/*` entry says
    /// otherwise, else `0`.
    pub fn new(header_value: &str, wildcard_implicitly_allowed: bool) -> (r: Self)
        ensures
            (r.prefs(), r.wildcard()) == preferences_of(
                split_on(header_value@, ','),
                if wildcard_implicitly_allowed {
                    1000
                } else {
                    0
                },
            ),
            r.wf(),
    {
        let chars = chars_of(header_value);
        let entries = split_chars(&chars, ',');
        let ghost start: u16 = if wildcard_implicitly_allowed {
            1000
        } else {
            0
        };
        let mut values: Vec<QualityValue> = Vec::with_capacity(8);
        let mut wildcard_quality: u16 = if wildcard_implicitly_allowed {
            1000
        } else {
            0
        };
        let mut i: usize = 0;
        while i < entries.len()
            invariant
                i <= entries@.len(),
                views(entries@) == split_on(header_value@, ','),
                (pairs_of(values@), wildcard_quality) == preferences_of(
                    views(entries@).take(i as int),
                    start,
                ),
                wildcard_quality <= 1000,
                forall|k: int| 0 <= k < values@.len() ==> #[trigger] values@[k].quality_spec() <= 1000,
            decreases entries@.len() - i,
        {
            assert(entries@[i as int]@ == views(entries@)[i as int]);
            assert(views(entries@).take(i + 1).drop_last() =~= views(entries@).take(i as int));
            let (token, weight) = preference_entry(&entries[i]);
            let n = token.len();
            if n == 0 {
            } else if (n == 3 && token[0] == '*' && token[1] == '/' && token[2] == '*') || (n == 1
                && token[0] == '*') {
                assert(is_any_token(token@)) by {
                    if n == 3 {
                        assert(token@ =~= seq!['*', '/', '*']);
                    } else {
                        assert(token@ =~= seq!['*']);
                    }
                }
                wildcard_quality = weight;
            } else {
                proof {
                    if token@ == seq!['*', '/', '*'] {
                        assert(token@[1] == '/');
                    }
                    if token@ == seq!['*'] {
                        assert(token@[0] == '*');
                    }
                }
                let ghost before = values@;
                values.push(QualityValue::new(string_of(&token), weight));
                assert(pairs_of(values@) =~= pairs_of(before).push((token@, weight)));
            }
            i = i + 1;
        }
        assert(views(entries@).take(i as int) =~= views(entries@));
        QualitySorter { values, wildcard_quality }
    }
}

} // verus!

verus! {

/// The index of the first preference from `i` on that names `candidate`.
pub open spec fn first_match(prefs: Seq<(Seq<char>, u16)>, candidate: Seq<char>, i: int) -> Option<
    int,
>
    decreases prefs.len() - i,
{
    if i < 0 || i >= prefs.len() {
        None
    } else if match_of(prefs[i].0, candidate) != MatchPrecedent::Unmatched {
        Some(i)
    } else {
        first_match(prefs, candidate, i + 1)
    }
}

/// The tokens of the preferences that weigh `w`, in the order written.
pub open spec fn tokens_with_weight(prefs: Seq<(Seq<char>, u16)>, w: int) -> Seq<Seq<char>>
    decreases prefs.len(),
{
    if prefs.len() == 0 {
        Seq::empty()
    } else {
        let r = tokens_with_weight(prefs.drop_last(), w);
        if prefs.last().1 == w {
            r.push(prefs.last().0)
        } else {
            r
        }
    }
}

/// The tokens of the preferences that weigh from `lo` up to `hi`, by
/// ascending weight, and in the order written among equal weights.
pub open spec fn tokens_by_weight(prefs: Seq<(Seq<char>, u16)>, lo: int, hi: int) -> Seq<
    Seq<char>,
>
    decreases hi - lo,
{
    if lo >= hi {
        Seq::empty()
    } else {
        tokens_by_weight(prefs, lo, hi - 1) + tokens_with_weight(prefs, hi - 1)
    }
}

/// The characters of each string.
pub open spec fn string_views(v: Seq<String>) -> Seq<Seq<char>> {
    v.map_values(|s: String| s@)
}

/// The preferences of a header split by whether they admit anything.
#[derive(Clone, Debug)]
pub struct OrderedRreferencesResult {
    /// Tokens of nonzero weight, by ascending weight.
    pub allowed: Vec<String>,
    /// Tokens of zero weight.
    pub disallowed: Vec<String>,
    /// Whether what no token names is admitted.
    pub any_allowed: bool,
}

impl QualitySorter {
    /// Whether `candidate` is admitted: the wildcard weight is nonzero, or
    /// the first preference that names it has a nonzero weight.
    pub open spec fn allows_spec(&self, candidate: Seq<char>) -> bool {
        self.wildcard() > 0 || match first_match(self.prefs(), candidate, 0) {
            Some(i) => self.prefs()[i].1 > 0,
            None => false,
        }
    }

    /// The weight of `candidate` and how it was named: by the first
    /// preference that names it, else by the wildcard weight.
    pub open spec fn quality_spec(&self, candidate: Seq<char>) -> (u16, MatchPrecedent) {
        match first_match(self.prefs(), candidate, 0) {
            Some(i) => (self.prefs()[i].1, match_of(self.prefs()[i].0, candidate)),
            None => (
                self.wildcard(),
                if self.wildcard() == 0 {
                    MatchPrecedent::Unmatched
                } else {
                    MatchPrecedent::Wildcard
                },
            ),
        }
    }

    /// The index, weight and match of the best candidate so far, in one
    /// pass: a later candidate wins on a greater weight, or on a greater
    /// match where its weight is zero. `-1` where no candidate won.
    pub open spec fn best_candidate(&self, candidates: Seq<Seq<char>>) -> (int, u16, MatchPrecedent)
        decreases candidates.len(),
    {
        if candidates.len() == 0 {
            (-1, 0, MatchPrecedent::Unmatched)
        } else {
            let (i, q, m) = self.best_candidate(candidates.drop_last());
            let (q2, m2) = self.quality_spec(candidates.last());
            if q2 > q || (q2 == 0 && m2.rank() > m.rank()) {
                (candidates.len() - 1, q2, m2)
            } else {
                (i, q, m)
            }
        }
    }

    /// The index of the first preference that names `check_value`.
    fn find_match(&self, check_value: &str) -> (r: Option<usize>)
        ensures
            match r {
                Some(k) => first_match(self.prefs(), check_value@, 0) == Some(k as int),
                None => first_match(self.prefs(), check_value@, 0) is None,
            },
            r matches Some(k) ==> k < self.values@.len(),
    {
        let mut i: usize = 0;
        while i < self.values.len()
            invariant
                i <= self.values@.len(),
                first_match(self.prefs(), check_value@, 0) == first_match(
                    self.prefs(),
                    check_value@,
                    i as int,
                ),
            decreases self.values@.len() - i,
        {
            let m = self.values[i].value_matches(check_value);
            if m != MatchPrecedent::Unmatched {
                return Some(i);
            }
            i = i + 1;
        }
        None
    }

    pub fn allows(&self, check_value: &str) -> (r: bool)
        ensures
            r == self.allows_spec(check_value@),
    {
        if self.wildcard_quality > 0 {
            return true;
        }
        match self.find_match(check_value) {
            Some(i) => {
                assert(self.prefs()[i as int].1 == self.values@[i as int].quality_spec());
                self.values[i].quality() > 0
            },
            None => false,
        }
    }

    pub fn quality_of(&self, check_value: &str) -> (r: (u16, MatchPrecedent))
        ensures
            r == self.quality_spec(check_value@),
    {
        match self.find_match(check_value) {
            Some(i) => {
                assert(self.prefs()[i as int] == (
                    self.values@[i as int].value_spec(),
                    self.values@[i as int].quality_spec(),
                ));
                (self.values[i].quality(), self.values[i].value_matches(check_value))
            },
            None => (
                self.wildcard_quality,
                if self.wildcard_quality == 0 {
                    MatchPrecedent::Unmatched
                } else {
                    MatchPrecedent::Wildcard
                },
            ),
        }
    }

    /// The most preferred candidate, the first among equals; `None` where
    /// none is admitted.
    pub fn negotiate<'a>(&self, candidates: &[&'a str]) -> (r: Option<&'a str>)
        ensures
            ({
                let (i, q, _) = self.best_candidate(candidates@.map_values(|c: &str| c@));
                if q == 0 {
                    r is None
                } else {
                    r == Some(candidates@[i])
                }
            }),
    {
        let ghost views = candidates@.map_values(|c: &str| c@);
        let mut result: usize = 0;
        let mut highest_quality: u16 = 0;
        let mut highest_match_precedent = MatchPrecedent::Unmatched;
        let mut k: usize = 0;
        while k < candidates.len()
            invariant
                k <= candidates@.len(),
                views == candidates@.map_values(|c: &str| c@),
                ({
                    let (i, q, m) = self.best_candidate(views.take(k as int));
                    &&& q == highest_quality
                    &&& m == highest_match_precedent
                    &&& q > 0 ==> i == result as int && 0 <= i < k
                }),
            decreases candidates@.len() - k,
        {
            assert(views.take(k + 1).drop_last() =~= views.take(k as int));
            assert(views.take(k + 1).last() == candidates@[k as int]@);
            let (quality, match_precedent) = self.quality_of(candidates[k]);
            if quality > highest_quality || (quality == 0 && match_precedent.is_above(
                &highest_match_precedent,
            )) {
                result = k;
                highest_quality = quality;
                highest_match_precedent = match_precedent;
            }
            k = k + 1;
        }
        assert(views.take(k as int) =~= views);
        if highest_quality == 0 {
            return None;
        }
        Some(candidates[result])
    }

    /// The preferences by ascending weight, split into those admitted and
    /// those refused, and whether the wildcard admits anything.
    pub fn ordered_preferences(&self) -> (r: OrderedRreferencesResult)
        ensures
            string_views(r.allowed@) == tokens_by_weight(self.prefs(), 1, 1001),
            string_views(r.disallowed@) == tokens_with_weight(self.prefs(), 0),
            r.any_allowed == (self.wildcard() > 0),
    {
        let disallowed = self.tokens_weighing(0);
        let mut allowed: Vec<String> = Vec::new();
        let mut w: u16 = 1;
        while w <= 1000
            invariant
                1 <= w <= 1001,
                string_views(allowed@) == tokens_by_weight(self.prefs(), 1, w as int),
            decreases 1001 - w,
        {
            let ghost before = allowed@;
            let mut more = self.tokens_weighing(w);
            allowed.append(&mut more);
            assert(string_views(allowed@) =~= string_views(before) + tokens_with_weight(
                self.prefs(),
                w as int,
            ));
            w = w + 1;
        }
        OrderedRreferencesResult { allowed, disallowed, any_allowed: self.wildcard_quality > 0 }
    }

    /// The tokens of the preferences that weigh `w`, in the order written.
    fn tokens_weighing(&self, w: u16) -> (r: Vec<String>)
        ensures
            string_views(r@) == tokens_with_weight(self.prefs(), w as int),
    {
        let mut r: Vec<String> = Vec::new();
        let mut i: usize = 0;
        while i < self.values.len()
            invariant
                i <= self.values@.len(),
                string_views(r@) == tokens_with_weight(self.prefs().take(i as int), w as int),
            decreases self.values@.len() - i,
        {
            assert(self.prefs().take(i + 1).drop_last() =~= self.prefs().take(i as int));
            let ghost before = r@;
            if self.values[i].quality == w {
                r.push(self.values[i].value.clone());
                assert(string_views(r@) =~= string_views(before).push(self.values@[i as int].value@));
            }
            i = i + 1;
        }
        assert(self.prefs().take(i as int) =~= self.prefs());
        r
    }
}

} // verus!
