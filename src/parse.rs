//! The fixed-point value parser and the line scanner.
use vstd::prelude::*;

verus! {

/// A byte that may stand in a value span: a digit, `-` or `.`.
pub open spec fn is_value_byte(c: u8) -> bool {
    c == 45u8 || c == 46u8 || (48u8 <= c && c <= 57u8)
}

pub open spec fn is_digit(c: u8) -> bool {
    48u8 <= c && c <= 57u8
}

/// The digits of `s`, read left to right as one decimal number; every other
/// byte is skipped.
pub open spec fn magnitude_of(s: Seq<u8>) -> int
    decreases s.len(),
{
    if s.len() == 0 {
        0
    } else {
        let m = magnitude_of(s.drop_last());
        let c = s.last();
        if is_digit(c) {
            m * 10 + (c - 48u8)
        } else {
            m
        }
    }
}

pub open spec fn has_minus(s: Seq<u8>) -> bool {
    exists|i: int| 0 <= i < s.len() && s[i] == 45u8
}

/// The scaled value of a span: its digits with the point removed, negated
/// when a `-` occurs.
pub open spec fn value_of(s: Seq<u8>) -> int {
    if has_minus(s) { -magnitude_of(s) } else { magnitude_of(s) }
}

pub open spec fn pow10(n: nat) -> int
    decreases n,
{
    if n == 0 { 1 } else { 10 * pow10((n - 1) as nat) }
}

/// Length of the optional leading `-` of a value span.
pub open spec fn sign_len(s: Seq<u8>) -> int {
    if s.len() > 0 && s[0] == 45u8 { 1 } else { 0 }
}

/// The value grammar: an optional `-`, one or more digits, a `.` and
/// exactly one fractional digit.
pub open spec fn value_grammar(s: Seq<u8>) -> bool {
    let b = sign_len(s);
    &&& s.len() >= b + 3
    &&& forall|k: int| b <= k < s.len() - 2 ==> is_digit(#[trigger] s[k])
    &&& s[s.len() - 2] == 46u8
    &&& is_digit(s[s.len() - 1])
}

/// A value span that the parser accepts: it follows the grammar and its
/// scaled value fits a 64-bit integer.
pub open spec fn valid_value(s: Seq<u8>) -> bool {
    value_grammar(s) && magnitude_of(s) <= i64::MAX
}

pub proof fn lemma_grammar_bytes(s: Seq<u8>)
    requires
        value_grammar(s),
    ensures
        forall|i: int| 0 <= i < s.len() ==> is_value_byte(#[trigger] s[i]),
{
    assert forall|i: int| 0 <= i < s.len() implies is_value_byte(#[trigger] s[i]) by {
        if i >= sign_len(s) && i < s.len() - 2 {
            assert(is_digit(s[i]));
        }
    }
}

pub proof fn lemma_magnitude_bound(s: Seq<u8>)
    ensures
        0 <= magnitude_of(s) < pow10(s.len()),
    decreases s.len(),
{
    if s.len() > 0 {
        lemma_magnitude_bound(s.drop_last());
    }
}

pub proof fn lemma_magnitude_prefix_mono(s: Seq<u8>, i: int, j: int)
    requires
        0 <= i <= j <= s.len(),
    ensures
        magnitude_of(s.subrange(0, i)) <= magnitude_of(s.subrange(0, j)),
    decreases j - i,
{
    if i < j {
        lemma_magnitude_prefix_mono(s, i, j - 1);
        lemma_magnitude_bound(s.subrange(0, j - 1));
        assert(s.subrange(0, j).drop_last() =~= s.subrange(0, j - 1));
    }
}

/// Parses a value span into its scaled integer: `-3.2` gives `-32`.
pub fn parse_temp(temp: &[u8]) -> (r: i64)
    requires
        forall|i: int| 0 <= i < temp@.len() ==> is_value_byte(#[trigger] temp@[i]),
        magnitude_of(temp@) <= i64::MAX,
    ensures
        r == value_of(temp@),
{
    let mut mult: i64 = 1;
    let mut n: i64 = 0;
    let mut i: usize = 0;
    while i < temp.len()
        invariant
            0 <= i <= temp@.len(),
            n == magnitude_of(temp@.subrange(0, i as int)),
            mult == (if has_minus(temp@.subrange(0, i as int)) { -1int } else { 1int }),
            forall|k: int| 0 <= k < temp@.len() ==> is_value_byte(#[trigger] temp@[k]),
            magnitude_of(temp@) <= i64::MAX,
        decreases temp.len() - i,
    {
        let ch = temp[i];
        let ghost pre = temp@.subrange(0, i as int);
        let ghost next = temp@.subrange(0, i as int + 1);
        proof {
            assert(next.drop_last() =~= pre);
            assert(next.last() == ch);
            lemma_magnitude_prefix_mono(temp@, i as int + 1, temp@.len() as int);
            lemma_magnitude_bound(pre);
            assert(temp@.subrange(0, temp@.len() as int) =~= temp@);
            assert(has_minus(next) == (has_minus(pre) || ch == 45u8)) by {
                if has_minus(pre) {
                    let w = choose|w: int| 0 <= w < pre.len() && pre[w] == 45u8;
                    assert(next[w] == 45u8);
                }
                if ch == 45u8 {
                    assert(next[i as int] == 45u8);
                }
                if has_minus(next) {
                    let w = choose|w: int| 0 <= w < next.len() && next[w] == 45u8;
                    if w < i {
                        assert(pre[w] == 45u8);
                    }
                }
            }
        }
        if ch == 45u8 {
            mult = -1;
        } else if ch == 46u8 {
        } else {
            proof {
                assert(is_digit(ch));
                assert(magnitude_of(next) == n * 10 + (ch - 48u8));
                assert(magnitude_of(next) <= i64::MAX);
                assert(0 <= n * 10) by (nonlinear_arith)
                    requires n >= 0;
            }
            n = n * 10 + (ch - 48u8) as i64;
        }
        i = i + 1;
    }
    proof {
        assert(temp@.subrange(0, i as int) =~= temp@);
        lemma_magnitude_bound(temp@);
    }
    n * mult
}

/// Whether `parse_temp` accepts the span.
pub fn is_valid_value(s: &[u8]) -> (r: bool)
    ensures
        r == valid_value(s@),
{
    let n = s.len();
    let b: usize = if n > 0 && s[0] == 45u8 { 1 } else { 0 };
    if n < b + 3 {
        return false;
    }
    if s[n - 2] != 46u8 || !(48u8 <= s[n - 1] && s[n - 1] <= 57u8) {
        return false;
    }
    let mut k: usize = b;
    while k < n - 2
        invariant
            n == s@.len(),
            b == sign_len(s@),
            n >= b + 3,
            b <= k <= n - 2,
            forall|j: int| b <= j < k ==> is_digit(#[trigger] s@[j]),
        decreases n - 2 - k,
    {
        if !(48u8 <= s[k] && s[k] <= 57u8) {
            return false;
        }
        k = k + 1;
    }
    let mut m: u128 = 0;
    let mut i: usize = 0;
    while i < n
        invariant
            n == s@.len(),
            0 <= i <= n,
            m == magnitude_of(s@.subrange(0, i as int)),
            m <= i64::MAX,
        decreases n - i,
    {
        let c = s[i];
        proof {
            let next = s@.subrange(0, i as int + 1);
            assert(next.drop_last() =~= s@.subrange(0, i as int));
            lemma_magnitude_prefix_mono(s@, i as int + 1, n as int);
            assert(s@.subrange(0, n as int) =~= s@);
        }
        if 48u8 <= c && c <= 57u8 {
            m = m * 10 + (c - 48u8) as u128;
            if m > i64::MAX as u128 {
                return false;
            }
        }
        i = i + 1;
    }
    proof {
        assert(s@.subrange(0, n as int) =~= s@);
    }
    true
}

/// Index of the first `c` in `s` at or after `from`; `s.len()` when none.
pub open spec fn find_byte(s: Seq<u8>, c: u8, from: int) -> int
    decreases s.len() - from,
{
    if from < 0 || from >= s.len() {
        s.len() as int
    } else if s[from] == c {
        from
    } else {
        find_byte(s, c, from + 1)
    }
}

pub open spec fn sep_index(s: Seq<u8>) -> int {
    find_byte(s, 59u8, 0)
}

pub open spec fn nl_index(s: Seq<u8>) -> int {
    find_byte(s, 10u8, sep_index(s))
}

/// The first line of `s` ends before any `;`: a line without a separator.
pub open spec fn line_broken(s: Seq<u8>) -> bool {
    find_byte(s, 10u8, 0) < sep_index(s)
}

/// `s` begins with a complete record: a `;` on its first line, then the
/// newline that ends that line.
pub open spec fn has_record(s: Seq<u8>) -> bool {
    !line_broken(s) && sep_index(s) < s.len() && nl_index(s) < s.len()
}

/// Bytes taken by the record at the front of `s`, newline included.
pub open spec fn record_len(s: Seq<u8>) -> int {
    nl_index(s) + 1
}

/// The key of the record at the front of `s`.
pub open spec fn record_key(s: Seq<u8>) -> Seq<u8> {
    s.subrange(0, sep_index(s))
}

/// The value span of the record at the front of `s`.
pub open spec fn record_value_span(s: Seq<u8>) -> Seq<u8> {
    s.subrange(sep_index(s) + 1, nl_index(s))
}

pub proof fn lemma_find_byte_range(s: Seq<u8>, c: u8, from: int)
    requires
        0 <= from,
    ensures
        from <= find_byte(s, c, from) <= s.len() || (from > s.len() && find_byte(s, c, from) == s.len()),
        find_byte(s, c, from) < s.len() ==> s[find_byte(s, c, from)] == c,
        forall|j: int| from <= j < find_byte(s, c, from) ==> s[j] != c,
    decreases s.len() - from,
{
    if from < s.len() && s[from] != c {
        lemma_find_byte_range(s, c, from + 1);
    }
}

/// The first `c` at or after `from`, found by a scan.
fn find_from(s: &[u8], c: u8, from: usize) -> (r: usize)
    requires
        from <= s@.len(),
    ensures
        r == find_byte(s@, c, from as int),
        from <= r <= s@.len(),
{
    let mut i: usize = from;
    while i < s.len()
        invariant
            from <= i <= s@.len(),
            find_byte(s@, c, from as int) == find_byte(s@, c, i as int),
        decreases s.len() - i,
    {
        if s[i] == c {
            return i;
        }
        i = i + 1;
    }
    i
}

/// A complete record at the front of a buffer.
pub struct ParsedLine<'a> {
    /// Bytes the record takes, newline included.
    pub data_read: usize,
    /// The key, a view into the buffer.
    pub name: &'a [u8],
    /// The scaled value.
    pub temp: i64,
}

/// A line that breaks the record format.
#[derive(Clone, Copy, Debug, PartialEq, Eq)]
pub enum LineError {
    /// The value span does not follow the grammar or does not fit.
    BadValue,
    /// The line ends before any `;`.
    MissingSeparator,
}

/// Finds the record at the front of `data`: `Ok(None)` while no complete
/// record is buffered, `Err` when its first line breaks the format.
pub fn parse_line<'a>(data: &'a [u8]) -> (r: Result<Option<ParsedLine<'a>>, LineError>)
    ensures
        line_broken(data@) ==> r == Err::<Option<ParsedLine<'a>>, LineError>(LineError::MissingSeparator),
        !line_broken(data@) && !has_record(data@) ==> r is Ok && r->Ok_0 is None,
        has_record(data@) && !valid_value(record_value_span(data@))
            ==> r == Err::<Option<ParsedLine<'a>>, LineError>(LineError::BadValue),
        has_record(data@) && valid_value(record_value_span(data@)) ==> r is Ok && r->Ok_0 is Some
            && r->Ok_0->Some_0.data_read == record_len(data@)
            && r->Ok_0->Some_0.name@ == record_key(data@)
            && r->Ok_0->Some_0.temp == value_of(record_value_span(data@)),
{
    let name_end = find_from(data, 59u8, 0);
    let first_nl = find_from(data, 10u8, 0);
    if first_nl < name_end {
        return Err(LineError::MissingSeparator);
    }
    if name_end == data.len() {
        return Ok(None);
    }
    let line_end = find_from(data, 10u8, name_end);
    if line_end == data.len() {
        return Ok(None);
    }
    proof {
        lemma_find_byte_range(data@, 59u8, 0);
        lemma_find_byte_range(data@, 10u8, name_end as int);
    }
    let span = &data[name_end + 1..line_end];
    assert(span@ == record_value_span(data@));
    if !is_valid_value(span) {
        return Err(LineError::BadValue);
    }
    proof {
        lemma_grammar_bytes(span@);
    }
    let name = &data[0..name_end];
    assert(name@ == record_key(data@));
    Ok(Some(ParsedLine { data_read: line_end + 1, name, temp: parse_temp(span) }))
}

} // verus!
