//! Parsing one sensor's raw status file content into a millidegree reading.
//!
//! The content is line-oriented text; the second line must carry a field
//! `t=<integer>` giving millidegrees Celsius.  Parsing takes the integer
//! written directly after the first `t=` of that line: an optional sign
//! followed by a maximal run of decimal digits.

use vstd::prelude::*;

verus! {

/// Why a sensor reading could not be produced from a device's status file.
#[derive(Clone, Copy, PartialEq, Eq, Debug)]
pub enum ReadError {
    /// The status file could not be read at all.
    MissingFile,
    /// The content has fewer than two lines, or the second line has no `t=` field.
    MalformedContent,
    /// The text after `t=` does not begin with an integer, or its value is out of range.
    ParseError,
}

/// Index of the first occurrence of `c` in `s` at or after `from`; `s.len()` if none.
pub open spec fn find_char_from(s: Seq<char>, c: char, from: int) -> int
    decreases s.len() - from,
{
    if from < 0 || from >= s.len() {
        s.len() as int
    } else if s[from] == c {
        from
    } else {
        find_char_from(s, c, from + 1)
    }
}

/// The content has a second line (in the sense of line-oriented text split on `'\n'`).
pub open spec fn has_second_line(s: Seq<char>) -> bool {
    find_char_from(s, '\n', 0) + 1 < s.len()
}

/// The second line of the content: from past the first `'\n'` up to the next
/// `'\n'` or the end.
pub open spec fn second_line(s: Seq<char>) -> Seq<char> {
    let b = find_char_from(s, '\n', 0) + 1;
    s.subrange(b, find_char_from(s, '\n', b))
}

/// Index of the first occurrence of the two characters `t=` in `l` at or after
/// `from`; `l.len()` if none.
pub open spec fn find_t_eq(l: Seq<char>, from: int) -> int
    decreases l.len() - from,
{
    if from < 0 || from + 1 >= l.len() {
        l.len() as int
    } else if l[from] == 't' && l[from + 1] == '=' {
        from
    } else {
        find_t_eq(l, from + 1)
    }
}

/// The line carries a `t=` field.
pub open spec fn has_t_field(l: Seq<char>) -> bool {
    find_t_eq(l, 0) < l.len()
}

/// Everything after the first `t=` of the line.
pub open spec fn t_rest(l: Seq<char>) -> Seq<char> {
    l.subrange(find_t_eq(l, 0) + 2, l.len() as int)
}

pub open spec fn is_dec_digit(c: char) -> bool {
    48 <= c as int <= 57
}

pub open spec fn digit_val(c: char) -> int {
    c as int - 48
}

/// Value of a string of decimal digits, most significant first.
pub open spec fn digits_value(ds: Seq<char>) -> int
    decreases ds.len(),
{
    if ds.len() == 0 {
        0
    } else {
        digits_value(ds.drop_last()) * 10 + digit_val(ds.last())
    }
}

/// Length of the run of decimal digits in `s` starting at `from`.
pub open spec fn digit_run_len(s: Seq<char>, from: int) -> int
    decreases s.len() - from,
{
    if from < 0 || from >= s.len() || !is_dec_digit(s[from]) {
        0
    } else {
        1 + digit_run_len(s, from + 1)
    }
}

/// Length of the sign prefix (`+` or `-`) of the text after `t=`.
pub open spec fn sign_len(r: Seq<char>) -> int {
    if r.len() > 0 && (r[0] == '-' || r[0] == '+') {
        1
    } else {
        0
    }
}

pub open spec fn is_neg(r: Seq<char>) -> bool {
    r.len() > 0 && r[0] == '-'
}

/// Number of digits of the integer written at the start of `r`, after its sign.
pub open spec fn num_digits(r: Seq<char>) -> int {
    digit_run_len(r, sign_len(r))
}

/// Magnitude of the integer written at the start of `r`.
pub open spec fn magnitude(r: Seq<char>) -> int {
    digits_value(r.subrange(sign_len(r), sign_len(r) + num_digits(r)))
}

/// The integer written at the start of `r`: an optional sign and at least one digit.
pub open spec fn parsed_value(r: Seq<char>) -> Option<int> {
    if num_digits(r) == 0 {
        None
    } else if is_neg(r) {
        Some(-magnitude(r))
    } else {
        Some(magnitude(r))
    }
}

/// The millidegree reading carried by well-formed content, ignoring the
/// machine range of the result.
pub open spec fn spec_reading(s: Seq<char>) -> Option<int> {
    if !has_second_line(s) {
        None
    } else {
        let l = second_line(s);
        if !has_t_field(l) {
            None
        } else {
            parsed_value(t_rest(l))
        }
    }
}

/// The reading value fits the exported integer type.  The most negative
/// machine value is excluded so that magnitudes are symmetric.
pub open spec fn in_reading_range(v: int) -> bool {
    -(i64::MAX as int) <= v <= i64::MAX as int
}

/// `Some(v)` exactly when `parse_reading` on content `s` returns `Ok(v)`.
pub open spec fn reading_of(s: Seq<char>) -> Option<int> {
    match spec_reading(s) {
        Some(v) => if in_reading_range(v) {
            Some(v)
        } else {
            None
        },
        None => None,
    }
}

proof fn lemma_digits_value_nonneg(ds: Seq<char>)
    requires
        forall|m: int| 0 <= m < ds.len() ==> is_dec_digit(#[trigger] ds[m]),
    ensures
        digits_value(ds) >= 0,
    decreases ds.len(),
{
    if ds.len() > 0 {
        lemma_digits_value_nonneg(ds.drop_last());
    }
}

/// Appending digits never shrinks the value of an all-digit string.
proof fn lemma_digits_value_prefix(ds: Seq<char>, m: int)
    requires
        0 <= m <= ds.len(),
        forall|k: int| 0 <= k < ds.len() ==> is_dec_digit(#[trigger] ds[k]),
    ensures
        digits_value(ds) >= digits_value(ds.subrange(0, m)),
    decreases ds.len(),
{
    lemma_digits_value_nonneg(ds);
    if m < ds.len() {
        assert(ds.drop_last().subrange(0, m) =~= ds.subrange(0, m));
        lemma_digits_value_prefix(ds.drop_last(), m);
        lemma_digits_value_nonneg(ds.drop_last());
    } else {
        assert(ds.subrange(0, m) =~= ds);
    }
}

/// A run of digits over `[a, b)` splits additively into counted part and rest.
proof fn lemma_digit_run_split(s: Seq<char>, a: int, b: int)
    requires
        0 <= a <= b <= s.len(),
        forall|m: int| a <= m < b ==> is_dec_digit(#[trigger] s[m]),
    ensures
        digit_run_len(s, a) == (b - a) + digit_run_len(s, b),
    decreases b - a,
{
    if a < b {
        lemma_digit_run_split(s, a + 1, b);
    }
}

/// Parse the raw content of a sensor's status file into a millidegree reading.
///
/// Succeeds exactly on content with a second line that carries a `t=` field
/// followed by an in-range integer; the three failure modes say which part
/// was missing.
pub fn parse_reading(content: &str) -> (r: Result<i64, ReadError>)
    ensures
        ({
            let s = content@;
            &&& (!has_second_line(s) ==> r == Err::<i64, ReadError>(ReadError::MalformedContent))
            &&& (has_second_line(s) && !has_t_field(second_line(s)) ==> r == Err::<
                i64,
                ReadError,
            >(ReadError::MalformedContent))
            &&& (has_second_line(s) && has_t_field(second_line(s)) && reading_of(s) is None
                ==> r == Err::<i64, ReadError>(ReadError::ParseError))
            &&& (reading_of(s) is Some ==> r is Ok && r->Ok_0 == reading_of(s)->Some_0)
            &&& (r is Ok <==> reading_of(s) is Some)
        }),
{
    let ghost s = content@;
    let n = content.unicode_len();
    // Find the first newline.
    let mut i: usize = 0;
    loop
        invariant
            s == content@,
            0 <= i <= n,
            n == s.len(),
            find_char_from(s, '\n', 0) == find_char_from(s, '\n', i as int),
        ensures
            0 <= i <= n,
            i < n ==> find_char_from(s, '\n', 0) == i as int,
            i == n ==> find_char_from(s, '\n', 0) == n as int,
        decreases n - i,
    {
        if i >= n {
            break;
        }
        let c = content.get_char(i);
        if c == '\n' {
            break;
        }
        i += 1;
    }
    if i >= n || i + 1 >= n {
        // No newline at all, or nothing after it: no second line.
        assert(!has_second_line(s));
        return Err(ReadError::MalformedContent);
    }
    let b = i + 1;
    assert(has_second_line(s));
    // Find the end of the second line.
    let mut j: usize = b;
    loop
        invariant
            s == content@,
            b <= j <= n,
            n == s.len(),
            find_char_from(s, '\n', b as int) == find_char_from(s, '\n', j as int),
        ensures
            b <= j <= n,
            find_char_from(s, '\n', b as int) == j as int,
        decreases n - j,
    {
        if j >= n {
            break;
        }
        let c = content.get_char(j);
        if c == '\n' {
            break;
        }
        j += 1;
    }
    let ghost l = second_line(s);
    proof {
        assert(l =~= s.subrange(b as int, j as int));
    }
    // Find `t=` inside the second line.
    let mut k: usize = b;
    loop
        invariant
            s == content@,
            b <= k <= j <= n,
            n == s.len(),
            l == s.subrange(b as int, j as int),
            find_t_eq(l, 0) == find_t_eq(l, k - b),
        ensures
            b <= k <= j <= n,
            j - k >= 2 ==> find_t_eq(l, 0) == k - b && has_t_field(l),
            j - k < 2 ==> !has_t_field(l),
        decreases j - k,
    {
        if j - k < 2 {
            assert(find_t_eq(l, k - b) == l.len());
            break;
        }
        let c0 = content.get_char(k);
        let c1 = content.get_char(k + 1);
        assert(l[k - b] == s[k as int]);
        assert(l[k - b + 1] == s[k + 1]);
        if c0 == 't' && c1 == '=' {
            assert(find_t_eq(l, k - b) == k - b);
            break;
        }
        k += 1;
    }
    if j - k < 2 {
        return Err(ReadError::MalformedContent);
    }
    assert(has_t_field(l));
    let ghost rest = t_rest(l);
    proof {
        assert(rest =~= s.subrange(k + 2, j as int));
    }
    // Sign.
    let mut p: usize = k + 2;
    let mut neg = false;
    if p < j {
        let c = content.get_char(p);
        if c == '-' {
            neg = true;
            p += 1;
        } else if c == '+' {
            p += 1;
        }
    }
    let ghost off = sign_len(rest);
    assert(p - (k + 2) == off);
    assert(neg == is_neg(rest));
    // Digits.
    let limit: u64 = 9223372036854775807;
    assert(limit == i64::MAX as u64);
    let mut acc: u64 = 0;
    let mut q: usize = p;
    loop
        invariant
            s == content@,
            k + 2 <= p <= q <= j <= n,
            n == s.len(),
            neg == is_neg(rest),
            l == s.subrange(b as int, j as int),
            rest == s.subrange(k + 2, j as int),
            has_second_line(s),
            l == second_line(s),
            has_t_field(l),
            rest == t_rest(l),
            off == p - (k + 2),
            off == sign_len(rest),
            limit == i64::MAX as u64,
            forall|m: int| off <= m < q - (k + 2) ==> is_dec_digit(#[trigger] rest[m]),
            acc as int == digits_value(rest.subrange(off, q - (k + 2))),
            acc <= limit,
        ensures
            p <= q <= j,
            forall|m: int| off <= m < q - (k + 2) ==> is_dec_digit(#[trigger] rest[m]),
            acc as int == digits_value(rest.subrange(off, q - (k + 2))),
            acc <= limit,
            digit_run_len(rest, q - (k + 2)) == 0,
        decreases j - q,
    {
        if q >= j {
            assert(q - (k + 2) == rest.len());
            break;
        }
        let c = content.get_char(q);
        assert(rest[q - (k + 2)] == s[q as int]);
        let d32 = c as u32;
        if d32 < 48 || d32 > 57 {
            assert(!is_dec_digit(rest[q - (k + 2)]));
            break;
        }
        assert(is_dec_digit(rest[q - (k + 2)]));
        let d = (d32 - 48) as u64;
        assert(d as int == digit_val(rest[q - (k + 2)]));
        let ghost qr = q - (k + 2);
        proof {
            assert(rest.subrange(off, qr + 1).drop_last() =~= rest.subrange(off, qr));
            assert(rest.subrange(off, qr + 1).last() == rest[qr]);
        }
        if acc > (limit - d) / 10 {
            // The run continues with this digit, so the full magnitude
            // already exceeds the range: out-of-range integers are a parse
            // failure.
            proof {
                let nd = num_digits(rest);
                lemma_digit_run_split(rest, off, qr + 1);
                lemma_digit_run_nonneg(rest, qr + 1);
                lemma_digit_run_bound(rest, off);
                assert(nd >= qr + 1 - off);
                assert(off + nd <= rest.len());
                let run = rest.subrange(off, off + nd);
                assert(forall|m: int| 0 <= m < run.len() ==> is_dec_digit(#[trigger] run[m]))
                    by {
                    assert(forall|m: int| off <= m < off + nd ==> is_dec_digit(
                        #[trigger] rest[m],
                    )) by {
                        lemma_digit_run_all_digits(rest, off);
                    }
                };
                assert(run.subrange(0, qr + 1 - off) =~= rest.subrange(off, qr + 1));
                lemma_digits_value_prefix(run, qr + 1 - off);
                assert(digits_value(rest.subrange(off, qr + 1)) == acc * 10 + d);
                assert(acc * 10 + d > limit) by (nonlinear_arith)
                    requires
                        acc > (limit - d) / 10,
                        d <= 9,
                        limit >= 9,
                ;
                assert(magnitude(rest) > i64::MAX as int);
                assert(reading_of(s) is None);
            }
            return Err(ReadError::ParseError);
        }
        proof {
            assert(acc * 10 + d <= limit) by (nonlinear_arith)
                requires
                    acc <= (limit - d) / 10,
                    d <= 9,
                    limit >= 9,
            ;
        }
        acc = acc * 10 + d;
        q += 1;
    }
    // End of the digit run.
    let ghost qr = q - (k + 2);
    proof {
        lemma_digit_run_split_all(rest, off, qr);
        assert(num_digits(rest) == qr - off);
    }
    if q == p {
        // No digit after the sign.
        assert(num_digits(rest) == 0);
        assert(parsed_value(rest) is None);
        return Err(ReadError::ParseError);
    }
    proof {
        assert(rest.subrange(off, off + num_digits(rest)) =~= rest.subrange(off, qr));
        assert(magnitude(rest) == acc as int);
        assert(parsed_value(rest) is Some);
    }
    if neg {
        let v = -(acc as i64);
        assert(v as int == -magnitude(rest));
        assert(reading_of(s) == Some(v as int));
        Ok(v)
    } else {
        let v = acc as i64;
        assert(reading_of(s) == Some(v as int));
        Ok(v)
    }
}

proof fn lemma_digit_run_nonneg(s: Seq<char>, a: int)
    ensures
        digit_run_len(s, a) >= 0,
    decreases s.len() - a,
{
    if 0 <= a < s.len() && is_dec_digit(s[a]) {
        lemma_digit_run_nonneg(s, a + 1);
    }
}

proof fn lemma_digit_run_bound(s: Seq<char>, a: int)
    requires
        0 <= a <= s.len(),
    ensures
        digit_run_len(s, a) <= s.len() - a,
    decreases s.len() - a,
{
    if a < s.len() && is_dec_digit(s[a]) {
        lemma_digit_run_bound(s, a + 1);
    }
}

/// Every position inside a digit run holds a digit.
proof fn lemma_digit_run_all_digits(s: Seq<char>, a: int)
    requires
        0 <= a <= s.len(),
    ensures
        forall|m: int|
            a <= m < a + digit_run_len(s, a) ==> is_dec_digit(#[trigger] s[m]),
    decreases s.len() - a,
{
    if a < s.len() && is_dec_digit(s[a]) {
        lemma_digit_run_all_digits(s, a + 1);
    }
}

/// A run that is all digits on `[a, b)` and stops at `b` has length `b - a`.
proof fn lemma_digit_run_split_all(s: Seq<char>, a: int, b: int)
    requires
        0 <= a <= b <= s.len(),
        forall|m: int| a <= m < b ==> is_dec_digit(#[trigger] s[m]),
        digit_run_len(s, b) == 0,
    ensures
        digit_run_len(s, a) == b - a,
    decreases b - a,
{
    if a < b {
        lemma_digit_run_split_all(s, a + 1, b);
    }
}

} // verus!
