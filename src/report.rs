//! The report as tab-separated text: one header row, then one row per country
//! with its times in milliseconds, three decimals after a decimal comma.
use vstd::prelude::*;
use vstd::string::StringExecFns;
use crate::groups::CountryGroups;
use crate::stats::{CountryStatistics, StatsView, aggregate, report, view_stats};

verus! {

/// Relies on `String::push`: appends the one character to the string.
#[verifier::external_body]
fn push_char(s: &mut String, c: char)
    ensures
        final(s)@ == old(s)@.push(c),
{
    s.push(c)
}

/// The decimal digit of value `d`.
pub open spec fn digit(d: int) -> char {
    if d == 0 { '0' }
    else if d == 1 { '1' }
    else if d == 2 { '2' }
    else if d == 3 { '3' }
    else if d == 4 { '4' }
    else if d == 5 { '5' }
    else if d == 6 { '6' }
    else if d == 7 { '7' }
    else if d == 8 { '8' }
    else { '9' }
}

/// `n` in decimal, without leading zeros.
pub open spec fn decimal(n: nat) -> Seq<char>
    decreases n,
{
    if n < 10 {
        seq![digit(n as int)]
    } else {
        decimal(n / 10).push(digit((n % 10) as int))
    }
}

/// A time of `ns` nanoseconds in milliseconds, rounded to the nearest
/// microsecond (halves up): whole milliseconds, a comma, three decimals.
pub open spec fn ms_text(ns: u64) -> Seq<char> {
    let us = (ns as int + 500) / 1000;
    let f = us % 1000;
    decimal((us / 1000) as nat) + seq![',', digit(f / 100), digit((f / 10) % 10), digit(f % 10)]
}

pub open spec fn header() -> Seq<char> {
    "Country\tMin RTT\tMedian RTT\tAverage RTT\tMax RTT\n"@
}

/// The row of one country.
pub open spec fn row_text(c: StatsView) -> Seq<char> {
    c.country + seq!['\t'] + ms_text(c.min_ns) + seq!['\t'] + ms_text(c.median_ns) + seq!['\t']
        + ms_text(c.average_ns) + seq!['\t'] + ms_text(c.max_ns) + seq!['\n']
}

/// The rows of `rows`, one after the other.
pub open spec fn rows_text(rows: Seq<StatsView>) -> Seq<char>
    decreases rows.len(),
{
    if rows.len() == 0 {
        Seq::empty()
    } else {
        rows_text(rows.drop_last()) + row_text(rows.last())
    }
}

/// The whole text: the header, then the rows.
pub open spec fn csv_text(rows: Seq<StatsView>) -> Seq<char> {
    header() + rows_text(rows)
}

fn digit_char(d: u64) -> (c: char)
    requires
        d < 10,
    ensures
        c == digit(d as int),
{
    if d == 0 { '0' }
    else if d == 1 { '1' }
    else if d == 2 { '2' }
    else if d == 3 { '3' }
    else if d == 4 { '4' }
    else if d == 5 { '5' }
    else if d == 6 { '6' }
    else if d == 7 { '7' }
    else if d == 8 { '8' }
    else { '9' }
}

fn push_decimal(out: &mut String, n: u64)
    ensures
        final(out)@ == old(out)@ + decimal(n as nat),
    decreases n,
{
    if n >= 10 {
        push_decimal(out, n / 10);
    }
    push_char(out, digit_char(n % 10));
}

fn push_ms(out: &mut String, ns: u64)
    ensures
        final(out)@ == old(out)@ + ms_text(ns),
{
    let us: u64 = ns / 1000 + if ns % 1000 >= 500 { 1 } else { 0 };
    assert(us == (ns as int + 500) / 1000);
    let f = us % 1000;
    push_decimal(out, us / 1000);
    push_char(out, ',');
    push_char(out, digit_char(f / 100));
    push_char(out, digit_char((f / 10) % 10));
    push_char(out, digit_char(f % 10));
    assert(final(out)@ =~= old(out)@ + ms_text(ns));
}

fn push_row(out: &mut String, c: &CountryStatistics)
    ensures
        final(out)@ == old(out)@ + row_text(c@),
{
    out.append(c.country.as_str());
    push_char(out, '\t');
    push_ms(out, c.min_ns);
    push_char(out, '\t');
    push_ms(out, c.median_ns);
    push_char(out, '\t');
    push_ms(out, c.average_ns);
    push_char(out, '\t');
    push_ms(out, c.max_ns);
    push_char(out, '\n');
    assert(final(out)@ =~= old(out)@ + row_text(c@));
}

/// The text of a report whose rows are `rows`, in their order.
pub fn render_report(rows: &Vec<CountryStatistics>) -> (r: String)
    ensures
        r@ == csv_text(view_stats(rows@)),
{
    let ghost vs = view_stats(rows@);
    let mut out = String::from_str("Country\tMin RTT\tMedian RTT\tAverage RTT\tMax RTT\n");
    let n = rows.len();
    let mut i: usize = 0;
    while i < n
        invariant
            n == rows@.len(),
            vs == view_stats(rows@),
            i <= n,
            out@ == header() + rows_text(vs.take(i as int)),
        decreases n - i,
    {
        assert(vs.take(i + 1).drop_last() =~= vs.take(i as int));
        assert(vs[i as int] == rows@[i as int]@);
        push_row(&mut out, &rows[i]);
        assert(out@ =~= header() + rows_text(vs.take(i + 1)));
        i = i + 1;
    }
    assert(vs.take(n as int) =~= vs);
    out
}

/// The report of `groups` as text: the statistics of every non-empty group,
/// ascending by minimum round-trip time.
pub fn generate_csv(groups: &CountryGroups) -> (r: String)
    ensures
        r@ == csv_text(report(groups@)),
{
    let rows = aggregate(groups);
    render_report(&rows)
}

} // verus!
