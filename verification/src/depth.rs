//! Depth bounds and depth ranges: the model types and the containment
//! predicate used to decide which tree levels are printed.

use vstd::prelude::*;

verus! {

/// One bound on a non-negative depth, either inclusive or exclusive.
#[derive(Debug, Clone, PartialEq, Eq, Structural)]
pub enum Endpoint {
    Inclusive(usize),
    Exclusive(usize),
}

/// A pair of depth bounds. Parsing only ever produces ranges whose
/// start bound is `Inclusive`; `contains` is defined for any pair.
#[derive(Debug, Clone, PartialEq, Eq, Structural)]
pub struct DepthRange {
    pub start: Endpoint,
    pub end: Endpoint,
}

/// Whether `depth` satisfies `start` read as a lower bound.
pub open spec fn spec_start_ok(start: Endpoint, depth: int) -> bool {
    match start {
        Endpoint::Inclusive(s) => depth >= s,
        Endpoint::Exclusive(s) => depth > s,
    }
}

/// Whether `depth` satisfies `end` read as an upper bound.
pub open spec fn spec_end_ok(end: Endpoint, depth: int) -> bool {
    match end {
        Endpoint::Inclusive(e) => depth <= e,
        Endpoint::Exclusive(e) => depth < e,
    }
}

/// Whether `depth` lies within the range.
pub open spec fn spec_contains(range: DepthRange, depth: int) -> bool {
    spec_start_ok(range.start, depth) && spec_end_ok(range.end, depth)
}

impl DepthRange {
    /// Decides whether the given depth lies within this range.
    pub fn contains(&self, depth: usize) -> (r: bool)
        ensures
            r == spec_contains(*self, depth as int),
    {
        let start_ok = match self.start {
            Endpoint::Inclusive(start) => depth >= start,
            Endpoint::Exclusive(start) => depth > start,
        };
        let end_ok = match self.end {
            Endpoint::Inclusive(end) => depth <= end,
            Endpoint::Exclusive(end) => depth < end,
        };
        start_ok && end_ok
    }
}

/// Why a depth-range expression failed to parse.
#[derive(Debug, Clone, PartialEq, Eq, Structural)]
pub enum RangeError {
    InvalidFormat,
    InvalidStartNumber,
    InvalidEndNumber,
    StartGreaterThanEnd,
}

/// The diagnostic text of each parse error.
pub open spec fn spec_message(e: RangeError) -> Seq<char> {
    match e {
        RangeError::InvalidFormat => "Invalid range format"@,
        RangeError::InvalidStartNumber => "Invalid start number"@,
        RangeError::InvalidEndNumber => "Invalid end number"@,
        RangeError::StartGreaterThanEnd => "Start must be less than or equal to end"@,
    }
}

impl RangeError {
    /// A human-readable description of the parse failure.
    pub fn message(&self) -> (r: &'static str)
        ensures
            r@ == spec_message(*self),
    {
        match self {
            RangeError::InvalidFormat => "Invalid range format",
            RangeError::InvalidStartNumber => "Invalid start number",
            RangeError::InvalidEndNumber => "Invalid end number",
            RangeError::StartGreaterThanEnd => "Start must be less than or equal to end",
        }
    }
}

/// An ASCII decimal digit.
pub open spec fn is_digit(c: char) -> bool {
    48 <= c as int && c as int <= 57
}

/// The numeric value of one digit character.
pub open spec fn digit_val(c: char) -> int {
    c as int - 48
}

/// A sequence consisting only of decimal digits, possibly empty.
pub open spec fn digits_only(s: Seq<char>) -> bool {
    forall|i: int| 0 <= i < s.len() ==> is_digit(#[trigger] s[i])
}

/// The digit run of a numeric token: one optional leading `+` is
/// removed, as std's unsigned parsing accepts.
pub open spec fn spec_digits(s: Seq<char>) -> Seq<char> {
    if s.len() > 0 && s[0] == '+' {
        s.subrange(1, s.len() as int)
    } else {
        s
    }
}

/// A numeric token: a non-empty run of decimal digits after an
/// optional leading `+`.
pub open spec fn is_number(s: Seq<char>) -> bool {
    spec_digits(s).len() > 0 && digits_only(spec_digits(s))
}

/// The value denoted by a digit sequence, most significant digit first.
pub open spec fn number_value(s: Seq<char>) -> int
    decreases s.len(),
{
    if s.len() == 0 {
        0
    } else {
        number_value(s.drop_last()) * 10 + digit_val(s.last())
    }
}

/// The value a numeric token denotes.
pub open spec fn spec_number_value(s: Seq<char>) -> int {
    number_value(spec_digits(s))
}

/// A numeric token whose value fits in `usize`.
pub open spec fn usize_number(s: Seq<char>) -> bool {
    is_number(s) && spec_number_value(s) <= usize::MAX
}

/// The three-character inclusive separator `..=` occurs at index `i`.
pub open spec fn incl_sep_at(s: Seq<char>, i: int) -> bool {
    0 <= i && i + 3 <= s.len() && s[i] == '.' && s[i + 1] == '.' && s[i + 2] == '='
}

/// The two-character exclusive separator `..` occurs at index `i`.
pub open spec fn excl_sep_at(s: Seq<char>, i: int) -> bool {
    0 <= i && i + 2 <= s.len() && s[i] == '.' && s[i + 1] == '.'
}

pub open spec fn has_incl_sep(s: Seq<char>) -> bool {
    exists|i: int| incl_sep_at(s, i)
}

pub open spec fn has_excl_sep(s: Seq<char>) -> bool {
    exists|i: int| excl_sep_at(s, i)
}

/// The index of the leftmost `..=` occurrence.
pub open spec fn first_incl_sep(s: Seq<char>) -> int {
    choose|i: int| incl_sep_at(s, i) && (forall|j: int| 0 <= j < i ==> !incl_sep_at(s, j))
}

/// The index of the leftmost `..` occurrence.
pub open spec fn first_excl_sep(s: Seq<char>) -> int {
    choose|i: int| excl_sep_at(s, i) && (forall|j: int| 0 <= j < i ==> !excl_sep_at(s, j))
}

pub open spec fn starts_with_dots(s: Seq<char>) -> bool {
    s.len() >= 2 && s[0] == '.' && s[1] == '.'
}

pub open spec fn ends_with_dots(s: Seq<char>) -> bool {
    s.len() >= 2 && s[s.len() - 2] == '.' && s[s.len() - 1] == '.'
}

/// The end bound built from the separator's flavour.
pub open spec fn spec_end_point(inclusive: bool, v: usize) -> Endpoint {
    if inclusive {
        Endpoint::Inclusive(v)
    } else {
        Endpoint::Exclusive(v)
    }
}

/// How a split expression is classified: an open start (`..m`), an open
/// end (`n..`), or a bounded pair (`n..m`).
pub open spec fn spec_parse_split(
    s: Seq<char>,
    left: Seq<char>,
    right: Seq<char>,
    end_inclusive: bool,
) -> Result<DepthRange, RangeError> {
    if starts_with_dots(s) {
        if usize_number(right) {
            Ok(DepthRange {
                start: Endpoint::Inclusive(0),
                end: spec_end_point(end_inclusive, spec_number_value(right) as usize),
            })
        } else {
            Err(RangeError::InvalidEndNumber)
        }
    } else if ends_with_dots(s) {
        if usize_number(left) {
            Ok(DepthRange {
                start: Endpoint::Inclusive(spec_number_value(left) as usize),
                end: Endpoint::Inclusive(usize::MAX),
            })
        } else {
            Err(RangeError::InvalidStartNumber)
        }
    } else if !usize_number(left) {
        Err(RangeError::InvalidStartNumber)
    } else if !usize_number(right) {
        Err(RangeError::InvalidEndNumber)
    } else if spec_number_value(left) > spec_number_value(right) {
        Err(RangeError::StartGreaterThanEnd)
    } else {
        Ok(DepthRange {
            start: Endpoint::Inclusive(spec_number_value(left) as usize),
            end: spec_end_point(end_inclusive, spec_number_value(right) as usize),
        })
    }
}

/// The meaning of a textual depth-range expression: a whole number on
/// its own, or an expression split at most once on the leftmost
/// separator, `..=` taking precedence over `..`.
pub open spec fn spec_parse(s: Seq<char>) -> Result<DepthRange, RangeError> {
    if usize_number(s) {
        Ok(DepthRange {
            start: Endpoint::Inclusive(spec_number_value(s) as usize),
            end: Endpoint::Inclusive(spec_number_value(s) as usize),
        })
    } else if has_incl_sep(s) {
        spec_parse_split(
            s,
            s.subrange(0, first_incl_sep(s)),
            s.subrange(first_incl_sep(s) + 3, s.len() as int),
            true,
        )
    } else if has_excl_sep(s) {
        spec_parse_split(
            s,
            s.subrange(0, first_excl_sep(s)),
            s.subrange(first_excl_sep(s) + 2, s.len() as int),
            false,
        )
    } else {
        Err(RangeError::InvalidFormat)
    }
}

/// A digit sequence denotes a non-negative value.
pub proof fn lemma_number_value_nonneg(s: Seq<char>)
    requires
        forall|i: int| 0 <= i < s.len() ==> is_digit(#[trigger] s[i]),
    ensures
        number_value(s) >= 0,
    decreases s.len(),
{
    if s.len() > 0 {
        lemma_number_value_nonneg(s.drop_last());
    }
}

/// Extending a digit sequence can only grow its value.
pub proof fn lemma_number_value_prefix_le(s: Seq<char>, i: int)
    requires
        0 <= i <= s.len(),
        forall|j: int| 0 <= j < s.len() ==> is_digit(#[trigger] s[j]),
    ensures
        number_value(s.subrange(0, i)) <= number_value(s),
    decreases s.len() - i,
{
    if i < s.len() {
        lemma_number_value_prefix_le(s, i + 1);
        let p = s.subrange(0, i);
        let q = s.subrange(0, i + 1);
        assert(q.drop_last() =~= p);
        assert(forall|j: int| 0 <= j < p.len() ==> is_digit(#[trigger] p[j]));
        lemma_number_value_nonneg(p);
        assert(number_value(q) == number_value(p) * 10 + digit_val(q.last()));
    } else {
        assert(s.subrange(0, i) =~= s);
    }
}

/// If some index below `n` carries a separator, some leftmost one does.
proof fn lemma_exists_first_incl(s: Seq<char>, n: int)
    requires
        exists|i: int| i < n && incl_sep_at(s, i),
    ensures
        exists|i: int|
            incl_sep_at(s, i) && (forall|j: int| 0 <= j < i ==> !incl_sep_at(s, j)),
    decreases n,
{
    let i = choose|i: int| i < n && incl_sep_at(s, i);
    if exists|j: int| j < i && incl_sep_at(s, j) {
        lemma_exists_first_incl(s, i);
    } else {
        assert(incl_sep_at(s, i) && (forall|j: int| 0 <= j < i ==> !incl_sep_at(s, j)));
    }
}

proof fn lemma_exists_first_excl(s: Seq<char>, n: int)
    requires
        exists|i: int| i < n && excl_sep_at(s, i),
    ensures
        exists|i: int|
            excl_sep_at(s, i) && (forall|j: int| 0 <= j < i ==> !excl_sep_at(s, j)),
    decreases n,
{
    let i = choose|i: int| i < n && excl_sep_at(s, i);
    if exists|j: int| j < i && excl_sep_at(s, j) {
        lemma_exists_first_excl(s, i);
    } else {
        assert(excl_sep_at(s, i) && (forall|j: int| 0 <= j < i ==> !excl_sep_at(s, j)));
    }
}

/// A position that carries `..=` with none before it is the leftmost one.
pub proof fn lemma_first_incl_sep_is(s: Seq<char>, k: int)
    requires
        incl_sep_at(s, k),
        forall|j: int| 0 <= j < k ==> !incl_sep_at(s, j),
    ensures
        has_incl_sep(s),
        first_incl_sep(s) == k,
{
    assert(has_incl_sep(s));
    lemma_exists_first_incl(s, s.len() as int);
    let f = first_incl_sep(s);
    assert(incl_sep_at(s, f) && (forall|j: int| 0 <= j < f ==> !incl_sep_at(s, j)));
    if f < k {
        assert(!incl_sep_at(s, f));
    } else if k < f {
        assert(!incl_sep_at(s, k));
    }
}

/// A position that carries `..` with none before it is the leftmost one.
pub proof fn lemma_first_excl_sep_is(s: Seq<char>, k: int)
    requires
        excl_sep_at(s, k),
        forall|j: int| 0 <= j < k ==> !excl_sep_at(s, j),
    ensures
        has_excl_sep(s),
        first_excl_sep(s) == k,
{
    assert(has_excl_sep(s));
    lemma_exists_first_excl(s, s.len() as int);
    let f = first_excl_sep(s);
    assert(excl_sep_at(s, f) && (forall|j: int| 0 <= j < f ==> !excl_sep_at(s, j)));
    if f < k {
        assert(!excl_sep_at(s, f));
    } else if k < f {
        assert(!excl_sep_at(s, k));
    }
}

/// Parses a numeric token (digits after an optional leading `+`)
/// into a `usize`, rejecting anything else, values over `usize::MAX`
/// included.
fn parse_usize(s: &str) -> (r: Option<usize>)
    ensures
        r == if usize_number(s@) {
            Some(spec_number_value(s@) as usize)
        } else {
            None::<usize>
        },
{
    let n = s.unicode_len();
    if n == 0 {
        return None;
    }
    let first: usize = if s.get_char(0) == '+' {
        1
    } else {
        0
    };
    let ghost t = spec_digits(s@);
    proof {
        assert(t =~= s@.subrange(first as int, n as int));
    }
    if n == first {
        return None;
    }
    let mut acc: usize = 0;
    let mut i: usize = first;
    while i < n
        invariant
            first <= i <= n,
            first <= 1,
            n == s@.len(),
            t == spec_digits(s@),
            t == s@.subrange(first as int, n as int),
            forall|j: int| 0 <= j < i - first ==> is_digit(#[trigger] t[j]),
            acc == number_value(t.subrange(0, i - first)),
        decreases n - i,
    {
        let c = s.get_char(i);
        let u = c as u32;
        proof {
            assert(t[i - first] == s@[i as int]);
        }
        if !(48 <= u && u <= 57) {
            assert(!is_digit(t[i - first]));
            return None;
        }
        let d = (u - 48) as usize;
        proof {
            assert(t.subrange(0, i + 1 - first).drop_last() =~= t.subrange(0, i - first));
        }
        let next = match acc.checked_mul(10) {
            Some(v) => v.checked_add(d),
            None => None,
        };
        match next {
            Some(v) => {
                acc = v;
            },
            None => {
                proof {
                    if is_number(s@) {
                        lemma_number_value_prefix_le(t, i + 1 - first);
                    }
                }
                return None;
            },
        }
        i = i + 1;
    }
    proof {
        assert(t.subrange(0, n - first as int) =~= t);
    }
    Some(acc)
}

/// Finds the leftmost occurrence of `..=`.
fn find_sep_incl(s: &str) -> (r: Option<usize>)
    ensures
        match r {
            Some(i) => incl_sep_at(s@, i as int) && (forall|j: int|
                0 <= j < i ==> !incl_sep_at(s@, j)),
            None => !has_incl_sep(s@),
        },
{
    let n = s.unicode_len();
    if n < 3 {
        return None;
    }
    let mut i: usize = 0;
    while i <= n - 3
        invariant
            0 <= i <= n - 2,
            n >= 3,
            n == s@.len(),
            forall|j: int| 0 <= j < i ==> !incl_sep_at(s@, j),
        decreases n - i,
    {
        if s.get_char(i) == '.' && s.get_char(i + 1) == '.' && s.get_char(i + 2) == '=' {
            return Some(i);
        }
        assert(!incl_sep_at(s@, i as int));
        i = i + 1;
    }
    None
}

/// Finds the leftmost occurrence of `..`.
fn find_sep_excl(s: &str) -> (r: Option<usize>)
    ensures
        match r {
            Some(i) => excl_sep_at(s@, i as int) && (forall|j: int|
                0 <= j < i ==> !excl_sep_at(s@, j)),
            None => !has_excl_sep(s@),
        },
{
    let n = s.unicode_len();
    if n < 2 {
        return None;
    }
    let mut i: usize = 0;
    while i <= n - 2
        invariant
            0 <= i <= n - 1,
            n >= 2,
            n == s@.len(),
            forall|j: int| 0 <= j < i ==> !excl_sep_at(s@, j),
        decreases n - i,
    {
        if s.get_char(i) == '.' && s.get_char(i + 1) == '.' {
            return Some(i);
        }
        assert(!excl_sep_at(s@, i as int));
        i = i + 1;
    }
    None
}

impl DepthRange {
    /// Parses a textual depth-range expression: `n`, `n..m`, `n..=m`,
    /// `..m`, `..=m` or `n..`, with the errors the grammar prescribes.
    /// Each number may carry one leading `+`, as std's unsigned
    /// parsing accepts.
    pub fn from_str(s: &str) -> (r: Result<DepthRange, RangeError>)
        ensures
            r == spec_parse(s@),
    {
        if let Some(v) = parse_usize(s) {
            return Ok(DepthRange { start: Endpoint::Inclusive(v), end: Endpoint::Inclusive(v) });
        }
        let sep_pos: usize;
        let sep_len: usize;
        let end_inclusive: bool;
        if let Some(i) = find_sep_incl(s) {
            proof {
                lemma_first_incl_sep_is(s@, i as int);
            }
            sep_pos = i;
            sep_len = 3;
            end_inclusive = true;
        } else if let Some(i) = find_sep_excl(s) {
            proof {
                lemma_first_excl_sep_is(s@, i as int);
            }
            sep_pos = i;
            sep_len = 2;
            end_inclusive = false;
        } else {
            return Err(RangeError::InvalidFormat);
        }
        let n = s.unicode_len();
        let left = s.substring_char(0, sep_pos);
        let right = s.substring_char(sep_pos + sep_len, n);
        let starts_open = n >= 2 && s.get_char(0) == '.' && s.get_char(1) == '.';
        let ends_open = n >= 2 && s.get_char(n - 2) == '.' && s.get_char(n - 1) == '.';
        assert(starts_open == starts_with_dots(s@));
        assert(ends_open == ends_with_dots(s@));
        proof {
            if usize_number(left@) {
                lemma_number_value_nonneg(spec_digits(left@));
            }
            if usize_number(right@) {
                lemma_number_value_nonneg(spec_digits(right@));
            }
        }
        if starts_open {
            match parse_usize(right) {
                Some(v) => Ok(DepthRange {
                    start: Endpoint::Inclusive(0),
                    end: if end_inclusive {
                        Endpoint::Inclusive(v)
                    } else {
                        Endpoint::Exclusive(v)
                    },
                }),
                None => Err(RangeError::InvalidEndNumber),
            }
        } else if ends_open {
            match parse_usize(left) {
                Some(v) => Ok(DepthRange {
                    start: Endpoint::Inclusive(v),
                    end: Endpoint::Inclusive(usize::MAX),
                }),
                None => Err(RangeError::InvalidStartNumber),
            }
        } else {
            let sv = match parse_usize(left) {
                Some(v) => v,
                None => {
                    return Err(RangeError::InvalidStartNumber);
                },
            };
            let ev = match parse_usize(right) {
                Some(v) => v,
                None => {
                    return Err(RangeError::InvalidEndNumber);
                },
            };
            if sv > ev {
                return Err(RangeError::StartGreaterThanEnd);
            }
            Ok(DepthRange {
                start: Endpoint::Inclusive(sv),
                end: if end_inclusive {
                    Endpoint::Inclusive(ev)
                } else {
                    Endpoint::Exclusive(ev)
                },
            })
        }
    }
}

} // verus!
