//! Formatting millidegree readings as exact decimal Celsius text, for the
//! exposition of the exported series.

use vstd::prelude::*;

verus! {

/// The character for one decimal digit.
pub open spec fn digit_char(d: int) -> char {
    if d == 0 {
        '0'
    } else if d == 1 {
        '1'
    } else if d == 2 {
        '2'
    } else if d == 3 {
        '3'
    } else if d == 4 {
        '4'
    } else if d == 5 {
        '5'
    } else if d == 6 {
        '6'
    } else if d == 7 {
        '7'
    } else if d == 8 {
        '8'
    } else {
        '9'
    }
}

/// The decimal digits of a non-negative number, most significant first.
pub open spec fn dec_digits(n: int) -> Seq<char>
    decreases n,
{
    if n < 10 {
        seq![digit_char(n)]
    } else {
        dec_digits(n / 10).push(digit_char(n % 10))
    }
}

/// Three zero-padded digits for the millidegree fraction `r`, `0 <= r < 1000`.
pub open spec fn frac3_chars(r: int) -> Seq<char> {
    seq![digit_char(r / 100), digit_char((r / 10) % 10), digit_char(r % 10)]
}

/// Millidegrees as exact decimal Celsius text: optional sign, integer part,
/// decimal point, three fraction digits.
pub open spec fn millis_chars(v: int) -> Seq<char> {
    let m = if v < 0 {
        -v
    } else {
        v
    };
    let sign: Seq<char> = if v < 0 {
        seq!['-']
    } else {
        Seq::empty()
    };
    sign + dec_digits(m / 1000) + seq!['.'] + frac3_chars(m % 1000)
}

/// One exposition line for one series: the family name, the sensor label,
/// and the current value.
pub open spec fn metric_line(p: (Seq<char>, int)) -> Seq<char> {
    "temperature_celsius{sensor=\""@ + p.0 + "\"} "@ + millis_chars(p.1) + "\n"@
}

/// The exposition lines of all series, in registration order.
pub open spec fn render_lines(ms: Seq<(Seq<char>, int)>) -> Seq<char>
    decreases ms.len(),
{
    if ms.len() == 0 {
        Seq::empty()
    } else {
        render_lines(ms.drop_last()) + metric_line(ms.last())
    }
}

/// The full exposition: header comments naming the family and its type, then
/// one line per series; empty while nothing is registered.
pub open spec fn spec_render(ms: Seq<(Seq<char>, int)>) -> Seq<char> {
    if ms.len() == 0 {
        Seq::empty()
    } else {
        "# HELP temperature_celsius Temperature reading in degrees Celsius\n# TYPE temperature_celsius gauge\n"@
            + render_lines(ms)
    }
}

/// Relies on String::push: appends exactly one character.
#[verifier::external_body]
pub(crate) fn push_char(s: &mut String, c: char)
    ensures
        final(s)@ == old(s)@.push(c),
{
    s.push(c);
}

/// The digit character for a value below ten.
fn digit_char_of(d: u64) -> (c: char)
    requires
        d < 10,
    ensures
        c == digit_char(d as int),
{
    if d == 0 {
        '0'
    } else if d == 1 {
        '1'
    } else if d == 2 {
        '2'
    } else if d == 3 {
        '3'
    } else if d == 4 {
        '4'
    } else if d == 5 {
        '5'
    } else if d == 6 {
        '6'
    } else if d == 7 {
        '7'
    } else if d == 8 {
        '8'
    } else {
        '9'
    }
}

/// Append the decimal digits of `n`.
fn push_digits(s: &mut String, n: u64)
    ensures
        final(s)@ == old(s)@ + dec_digits(n as int),
    decreases n,
{
    if n < 10 {
        let c = digit_char_of(n);
        push_char(s, c);
        proof {
            assert(old(s)@ + dec_digits(n as int) =~= old(s)@.push(digit_char(n as int)));
        }
    } else {
        push_digits(s, n / 10);
        let c = digit_char_of(n % 10);
        push_char(s, c);
        proof {
            assert(old(s)@ + dec_digits(n as int) =~= (old(s)@ + dec_digits((n / 10) as int)).push(
                digit_char((n % 10) as int),
            ));
        }
    }
}

/// Millidegrees as exact decimal Celsius text.
pub fn format_millis(v: i64) -> (out: String)
    ensures
        out@ == millis_chars(v as int),
{
    let mut out = String::new();
    let m: u64 = if v < 0 {
        push_char(&mut out, '-');
        ((-(v + 1)) as u64) + 1
    } else {
        v as u64
    };
    assert(m as int == if v < 0 {
        -(v as int)
    } else {
        v as int
    });
    let q = m / 1000;
    let r = m % 1000;
    push_digits(&mut out, q);
    push_char(&mut out, '.');
    let f0 = digit_char_of(r / 100);
    push_char(&mut out, f0);
    let f1 = digit_char_of((r / 10) % 10);
    push_char(&mut out, f1);
    let f2 = digit_char_of(r % 10);
    push_char(&mut out, f2);
    proof {
        assert(out@ =~= millis_chars(v as int));
    }
    out
}

} // verus!
