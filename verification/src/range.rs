//! The range parser: turns a user-supplied range expression such as
//! `"1-3,7,9-11"` into a sorted, deduplicated list of legal relay ids.
//!
//! Grammar: comma-separated tokens, each a single integer or an inclusive
//! `low-high` interval with `low <= high`; every value must fit a byte.
//! A malformed token rejects the whole input; a well-formed input naming
//! an id outside `1..=18` is rejected separately.

use vstd::prelude::*;

use crate::relay::{RELAY_MAX, RELAY_MIN};

verus! {

/// Why a range expression was rejected.
#[derive(Debug, Clone, Copy, PartialEq, Eq, Structural)]
pub enum RangeError {
    /// The input did not parse as the range grammar at all (malformed or
    /// non-numeric token, reversed interval, empty input).
    InvalidRange,
    /// The input parsed, but names a relay id outside `1..=18`.
    InvalidValue,
}

// ---------------------------------------------------------------------
// The grammar, as spec functions.
// ---------------------------------------------------------------------

/// Whether `c` is a decimal digit.
pub open spec fn is_digit(c: char) -> bool {
    '0' <= c && c <= '9'
}

/// The value of digit `c`.
pub open spec fn digit_val(c: char) -> int {
    c as int - 48
}

/// A non-empty run of decimal digits.
pub open spec fn is_number(s: Seq<char>) -> bool {
    s.len() > 0 && forall|i: int| 0 <= i < s.len() ==> is_digit(#[trigger] s[i])
}

/// The value a digit run denotes, most significant digit first.
pub open spec fn number_val(s: Seq<char>) -> int
    decreases s.len(),
{
    if s.len() == 0 {
        0
    } else {
        10 * number_val(s.drop_last()) + digit_val(s.last())
    }
}

/// Index of the first occurrence of `c` in `s` (`s.len()` when absent).
pub open spec fn first_occurrence(s: Seq<char>, c: char) -> nat
    decreases s.len(),
{
    if s.len() == 0 {
        0
    } else if s[0] == c {
        0
    } else {
        1 + first_occurrence(s.skip(1), c)
    }
}

/// The ids a single token denotes: a plain number stands for itself, an
/// interval for every value between its bounds. `None` when the token is
/// malformed: empty, non-numeric, too large for a byte, or reversed.
pub open spec fn token_ids(t: Seq<char>) -> Option<Set<int>> {
    let d = first_occurrence(t, '-') as int;
    if d == t.len() {
        if is_number(t) && number_val(t) <= 255 {
            Some(Set::new(|x: int| x == number_val(t)))
        } else {
            None
        }
    } else {
        let lo = t.take(d);
        let hi = t.skip(d + 1);
        if is_number(lo) && is_number(hi) && number_val(lo) <= 255 && number_val(hi) <= 255
            && number_val(lo) <= number_val(hi) {
            Some(Set::new(|x: int| number_val(lo) <= x <= number_val(hi)))
        } else {
            None
        }
    }
}

/// The ids a whole range expression denotes: the union over its
/// comma-separated tokens, or `None` as soon as any token is malformed.
pub open spec fn parse_ids(s: Seq<char>) -> Option<Set<int>>
    decreases s.len(),
{
    let j = first_occurrence(s, ',') as int;
    if j >= s.len() {
        token_ids(s)
    } else {
        match (token_ids(s.take(j)), parse_ids(s.skip(j + 1))) {
            (Some(a), Some(b)) => Some(a.union(b)),
            _ => None,
        }
    }
}

// ---------------------------------------------------------------------
// Facts about the grammar.
// ---------------------------------------------------------------------

/// A scan that stops at the first `c` really computes `first_occurrence`.
proof fn lemma_first_occurrence_at(t: Seq<char>, c: char, i: int)
    requires
        0 <= i <= t.len(),
        forall|j: int| 0 <= j < i ==> t[j] != c,
        i < t.len() ==> t[i] == c,
    ensures
        first_occurrence(t, c) == i,
    decreases t.len(),
{
    if t.len() > 0 && i > 0 {
        lemma_first_occurrence_at(t.skip(1), c, i - 1);
    }
}

/// The value of a digit run is never negative.
proof fn lemma_number_val_nonneg(s: Seq<char>)
    requires
        forall|i: int| 0 <= i < s.len() ==> is_digit(#[trigger] s[i]),
    ensures
        number_val(s) >= 0,
    decreases s.len(),
{
    if s.len() > 0 {
        lemma_number_val_nonneg(s.drop_last());
    }
}

/// Every id a token denotes fits a byte.
proof fn lemma_token_ids_bounds(t: Seq<char>)
    requires
        token_ids(t) is Some,
    ensures
        forall|x: int| token_ids(t)->Some_0.contains(x) ==> 0 <= x <= 255,
{
    let d = first_occurrence(t, '-') as int;
    if d == t.len() {
        lemma_number_val_nonneg(t);
    } else {
        lemma_number_val_nonneg(t.take(d));
    }
}

/// Every id a well-formed expression denotes fits a byte.
proof fn lemma_parse_ids_bounds(s: Seq<char>)
    requires
        parse_ids(s) is Some,
    ensures
        forall|x: int| parse_ids(s)->Some_0.contains(x) ==> 0 <= x <= 255,
    decreases s.len(),
{
    let j = first_occurrence(s, ',') as int;
    if j >= s.len() {
        lemma_token_ids_bounds(s);
    } else {
        lemma_token_ids_bounds(s.take(j));
        lemma_parse_ids_bounds(s.skip(j + 1));
    }
}

/// A well-formed expression always denotes at least one id.
proof fn lemma_parse_ids_nonempty(s: Seq<char>)
    requires
        parse_ids(s) is Some,
    ensures
        exists|x: int| parse_ids(s)->Some_0.contains(x),
    decreases s.len(),
{
    let j = first_occurrence(s, ',') as int;
    if j >= s.len() {
        let d = first_occurrence(s, '-') as int;
        if d == s.len() {
            assert(token_ids(s)->Some_0.contains(number_val(s)));
        } else {
            assert(token_ids(s)->Some_0.contains(number_val(s.take(d))));
        }
    } else {
        lemma_parse_ids_nonempty(s.skip(j + 1));
        let x = choose|x: int| #[trigger] parse_ids(s.skip(j + 1))->Some_0.contains(x);
        assert(parse_ids(s)->Some_0.contains(x));
    }
}

// ---------------------------------------------------------------------
// The executable parser.
// ---------------------------------------------------------------------

/// Index of the first `,` at or after `pos`, or the text's length.
fn find_comma_from(s: &str, pos: usize) -> (end: usize)
    requires
        pos <= s@.len(),
    ensures
        pos <= end <= s@.len(),
        forall|j: int| pos <= j < end ==> s@[j] != ',',
        end < s@.len() ==> s@[end as int] == ',',
{
    let n = s.unicode_len();
    let mut end: usize = pos;
    while end < n
        invariant
            pos <= end <= n,
            n == s@.len(),
            forall|j: int| pos <= j < end ==> s@[j] != ',',
        decreases n - end,
    {
        if s.get_char(end) == ',' {
            return end;
        }
        end = end + 1;
    }
    end
}

/// Parse `s[from..to]` as a plain decimal number that fits a byte.
fn parse_number(s: &str, from: usize, to: usize) -> (r: Option<u8>)
    requires
        from <= to <= s@.len(),
    ensures
        ({
            let t = s@.subrange(from as int, to as int);
            match r {
                Some(v) => is_number(t) && number_val(t) == v,
                None => !is_number(t) || number_val(t) > 255,
            }
        }),
{
    let ghost t = s@.subrange(from as int, to as int);
    if from == to {
        return None;
    }
    let mut acc: u16 = 0;
    let mut too_big = false;
    let mut j: usize = from;
    while j < to
        invariant
            from <= j <= to <= s@.len(),
            t == s@.subrange(from as int, to as int),
            t.len() == to - from,
            forall|k: int| 0 <= k < j - from ==> is_digit(#[trigger] t[k]),
            !too_big ==> acc == number_val(t.take(j - from)) && acc <= 255,
            too_big ==> number_val(t.take(j - from)) > 255,
        decreases to - j,
    {
        let c = s.get_char(j);
        proof {
            assert(t[j - from] == s@[j as int]);
        }
        if !('0' <= c && c <= '9') {
            return None;
        }
        let d = (c as u8) - 48;
        proof {
            assert(t.take(j - from + 1).drop_last() =~= t.take(j - from));
            assert(t.take(j - from + 1).last() == t[j - from]);
        }
        if too_big || acc > 25 {
            proof {
                let prev = number_val(t.take(j - from));
                assert(number_val(t.take(j - from + 1)) == 10 * prev + d);
                if !too_big {
                    assert(10 * prev + d > 255);
                }
            }
            too_big = true;
        } else {
            acc = acc * 10 + (d as u16);
            if acc > 255 {
                too_big = true;
            }
        }
        j = j + 1;
    }
    proof {
        assert(t.take(t.len() as int) =~= t);
    }
    if too_big {
        None
    } else {
        Some(acc as u8)
    }
}

/// Index of the first `-` in `s[start..end]`, or `end` when there is none.
fn find_dash_between(s: &str, start: usize, end: usize) -> (dp: usize)
    requires
        start <= end <= s@.len(),
    ensures
        start <= dp <= end,
        forall|j: int| start <= j < dp ==> s@[j] != '-',
        dp < end ==> s@[dp as int] == '-',
{
    let mut dp: usize = start;
    while dp < end
        invariant
            start <= dp <= end <= s@.len(),
            forall|j: int| start <= j < dp ==> s@[j] != '-',
        decreases end - dp,
    {
        if s.get_char(dp) == '-' {
            return dp;
        }
        dp = dp + 1;
    }
    dp
}

/// Parse one token `s[start..end]` into its inclusive id interval.
fn parse_token(s: &str, start: usize, end: usize) -> (r: Option<(u8, u8)>)
    requires
        start <= end <= s@.len(),
    ensures
        ({
            let t = s@.subrange(start as int, end as int);
            match r {
                Some(b) => b.0 <= b.1 && token_ids(t) == Some(
                    Set::new(|x: int| b.0 <= x <= b.1),
                ),
                None => token_ids(t) is None,
            }
        }),
{
    let ghost t = s@.subrange(start as int, end as int);
    let dp = find_dash_between(s, start, end);
    proof {
        assert forall|j: int| 0 <= j < dp - start implies t[j] != '-' by {
            assert(t[j] == s@[start + j]);
        }
        if dp < end {
            assert(t[dp - start] == s@[dp as int]);
        }
        lemma_first_occurrence_at(t, '-', dp - start);
    }
    if dp == end {
        // plain number token
        match parse_number(s, start, end) {
            Some(v) => {
                proof {
                    assert(Set::new(|x: int| x == number_val(t)) =~= Set::new(
                        |x: int| v <= x <= v,
                    ));
                }
                Some((v, v))
            },
            None => None,
        }
    } else {
        // interval token
        let lo = match parse_number(s, start, dp) {
            Some(v) => v,
            None => {
                proof {
                    assert(t.take(dp - start) =~= s@.subrange(start as int, dp as int));
                }
                return None;
            },
        };
        let hi = match parse_number(s, dp + 1, end) {
            Some(v) => v,
            None => {
                proof {
                    assert(t.take(dp - start) =~= s@.subrange(start as int, dp as int));
                    assert(t.skip(dp - start + 1) =~= s@.subrange(dp + 1, end as int));
                }
                return None;
            },
        };
        proof {
            assert(t.take(dp - start) =~= s@.subrange(start as int, dp as int));
            assert(t.skip(dp - start + 1) =~= s@.subrange(dp + 1, end as int));
        }
        if lo <= hi {
            Some((lo, hi))
        } else {
            None
        }
    }
}

/// Mark every id of `lo..=hi` as present.
fn mark_range(seen: &mut Vec<bool>, lo: u8, hi: u8)
    requires
        old(seen)@.len() == 256,
        lo <= hi,
    ensures
        final(seen)@.len() == 256,
        forall|x: int|
            0 <= x < 256 ==> final(seen)@[x] == (old(seen)@[x] || lo <= x <= hi),
{
    let mut x: usize = lo as usize;
    while x <= hi as usize
        invariant
            lo <= x <= hi + 1,
            hi < 256,
            seen@.len() == 256,
            forall|y: int| 0 <= y < 256 ==> seen@[y] == (old(seen)@[y] || lo <= y < x),
        decreases hi as usize + 1 - x,
    {
        seen[x] = true;
        x = x + 1;
    }
}

/// Walk the tokens of `s[pos..]`, marking every id they denote.
/// Returns whether the whole suffix parses.
fn scan_ids(s: &str, pos: usize, seen: &mut Vec<bool>) -> (ok: bool)
    requires
        pos <= s@.len(),
        old(seen)@.len() == 256,
    ensures
        final(seen)@.len() == 256,
        ok == (parse_ids(s@.skip(pos as int)) is Some),
        ok ==> forall|x: int|
            0 <= x < 256 ==> final(seen)@[x] == (old(seen)@[x] || parse_ids(
                s@.skip(pos as int),
            )->Some_0.contains(x)),
    decreases s@.len() - pos,
{
    let ghost suffix = s@.skip(pos as int);
    let n = s.unicode_len();
    let end = find_comma_from(s, pos);
    proof {
        assert forall|j: int| 0 <= j < end - pos implies suffix[j] != ',' by {
            assert(suffix[j] == s@[pos + j]);
        }
        if end < n {
            assert(suffix[end - pos] == s@[end as int]);
        }
        lemma_first_occurrence_at(suffix, ',', end - pos);
        assert(suffix.take(end - pos) =~= s@.subrange(pos as int, end as int));
    }
    let tok = parse_token(s, pos, end);
    let (lo, hi) = match tok {
        Some(b) => b,
        None => {
            proof {
                if end == n {
                    assert(suffix =~= s@.subrange(pos as int, end as int));
                }
            }
            return false;
        },
    };
    mark_range(seen, lo, hi);
    if end == n {
        proof {
            assert(suffix =~= s@.subrange(pos as int, end as int));
        }
        true
    } else {
        let rest_ok = scan_ids(s, end + 1, seen);
        proof {
            assert(suffix.skip(end - pos + 1) =~= s@.skip(end + 1));
        }
        rest_ok
    }
}

/// Parse a range expression into the sorted, deduplicated list of relay
/// ids it names.
///
/// `InvalidRange` iff the text does not follow the grammar at all;
/// `InvalidValue` iff it parses but names an id outside `1..=18`;
/// otherwise the result lists exactly the ids the expression denotes,
/// strictly ascending.
pub fn parse_range(text: &str) -> (r: Result<Vec<u8>, RangeError>)
    ensures
        ({
            let parsed = parse_ids(text@);
            match r {
                Ok(v) => parsed is Some && v@.len() > 0 && (forall|a: int, b: int|
                    0 <= a < b < v@.len() ==> v@[a] < v@[b]) && (forall|x: int|
                    parsed->Some_0.contains(x) ==> RELAY_MIN <= x <= RELAY_MAX) && (forall|x: u8|
                    v@.contains(x) <==> parsed->Some_0.contains(x as int)),
                Err(RangeError::InvalidRange) => parsed is None,
                Err(RangeError::InvalidValue) => parsed is Some && exists|x: int|
                    parsed->Some_0.contains(x) && !(RELAY_MIN <= x <= RELAY_MAX),
            }
        }),
{
    let ghost parsed = parse_ids(text@);
    let mut seen: Vec<bool> = Vec::new();
    let mut i: usize = 0;
    while i < 256
        invariant
            i <= 256,
            seen@.len() == i,
            forall|j: int| 0 <= j < i ==> !seen@[j],
        decreases 256 - i,
    {
        seen.push(false);
        i = i + 1;
    }
    proof {
        assert(text@.skip(0) =~= text@);
    }
    let ok = scan_ids(text, 0, &mut seen);
    if !ok {
        return Err(RangeError::InvalidRange);
    }
    proof {
        lemma_parse_ids_bounds(text@);
        lemma_parse_ids_nonempty(text@);
    }
    // reject any id outside the relay domain
    let mut x: usize = 0;
    while x < 256
        invariant
            x <= 256,
            seen@.len() == 256,
            parsed == parse_ids(text@),
            parsed is Some,
            forall|y: int| 0 <= y < 256 ==> seen@[y] == parsed->Some_0.contains(y),
            forall|y: int| 0 <= y < x && parsed->Some_0.contains(y) ==> RELAY_MIN <= y
                <= RELAY_MAX,
        decreases 256 - x,
    {
        if seen[x] && !(RELAY_MIN as usize <= x && x <= RELAY_MAX as usize) {
            proof {
                let xi = x as int;
                assert(parsed->Some_0.contains(xi));
                assert(!(RELAY_MIN <= xi <= RELAY_MAX));
                assert(exists|w: int|
                    #[trigger] parsed->Some_0.contains(w) && !(RELAY_MIN <= w <= RELAY_MAX));
            }
            return Err(RangeError::InvalidValue);
        }
        x = x + 1;
    }
    // collect in ascending id order: sorted and deduplicated by build
    let mut v: Vec<u8> = Vec::new();
    let mut id: usize = RELAY_MIN as usize;
    while id <= RELAY_MAX as usize
        invariant
            RELAY_MIN <= id <= RELAY_MAX + 1,
            seen@.len() == 256,
            parsed == parse_ids(text@),
            parsed is Some,
            forall|y: int| 0 <= y < 256 ==> seen@[y] == parsed->Some_0.contains(y),
            forall|y: int| parsed->Some_0.contains(y) ==> RELAY_MIN <= y <= RELAY_MAX,
            forall|a: int, b: int| 0 <= a < b < v@.len() ==> v@[a] < v@[b],
            forall|k: int| 0 <= k < v@.len() ==> v@[k] < id,
            forall|y: u8| v@.contains(y) <==> (y < id && parsed->Some_0.contains(y as int)),
        decreases RELAY_MAX as usize + 1 - id,
    {
        if seen[id] {
            let ghost prev = v@;
            v.push(id as u8);
            proof {
                assert forall|y: u8| v@.contains(y) <==> (y < id + 1 && parsed->Some_0.contains(
                    y as int,
                )) by {
                    if v@.contains(y) {
                        let k = choose|k: int| 0 <= k < v@.len() && v@[k] == y;
                        if k < prev.len() {
                            assert(prev[k] == y);
                            assert(prev.contains(y));
                        }
                    }
                    if y < id + 1 && parsed->Some_0.contains(y as int) {
                        if y < id {
                            assert(prev.contains(y));
                            let k = choose|k: int| 0 <= k < prev.len() && prev[k] == y;
                            assert(v@[k] == y);
                        } else {
                            assert(v@[v@.len() - 1] == y);
                        }
                    }
                }
            }
        } else {
            proof {
                assert forall|y: u8| v@.contains(y) implies (y < id + 1
                    && parsed->Some_0.contains(y as int)) by {}
                assert forall|y: u8| (y < id + 1 && parsed->Some_0.contains(y as int)) implies v@
                    .contains(y) by {
                    assert(!parsed->Some_0.contains(id as int));
                }
            }
        }
        id = id + 1;
    }
    proof {
        let w = choose|w: int| parsed->Some_0.contains(w);
        assert(v@.contains(w as u8));
        if v@.len() == 0 {
            assert(false);
        }
    }
    Ok(v)
}

} // verus!