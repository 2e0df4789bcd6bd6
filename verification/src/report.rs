//! Text for people and rows for machines.
//!
//! A row is `timestamp,status,latency`: the start of the request as an
//! RFC 3339 instant in UTC with nine fraction digits, the status code, and
//! the latency in nanoseconds.

use crate::digits::{
    all_digits, decimal, decimal_string, decimal_value, is_digit, lemma_decimal_round_trip,
    lemma_decimal_shape, parse_decimal, push_decimal,
};
use crate::duration::{duration_text, format_duration};
use crate::fixed::{align_right, precise_string, precise_text, right_aligned};
use crate::histogram::{largest_count, max_count, Bucket};
use crate::request::Response;
use crate::summary::Summary;
use vstd::prelude::*;
use vstd::string::*;

verus! {

/// The text that `chrono` gives for an instant, counted in nanoseconds
/// since the Unix epoch, in the RFC 3339 form with nine fraction digits and
/// `Z` for UTC.
pub uninterp spec fn rfc3339_text(nanos: i64) -> Seq<char>;

/// Calls `DateTime::from_timestamp_nanos` and, on its result,
/// `DateTime::to_rfc3339_opts` with nanosecond precision and `Z`. Every
/// count of nanoseconds is an instant that `chrono` can hold, and the text
/// is a function of the count alone.
#[verifier::external_body]
fn timestamp_string(nanos: i64) -> (text: String)
    ensures
        text@ == rfc3339_text(nanos),
{
    chrono::DateTime::from_timestamp_nanos(nanos).to_rfc3339_opts(chrono::SecondsFormat::Nanos, true)
}

/// The text that `StatusCode` shows for a status code, the code and its
/// reason phrase; none for a number that is no status code.
pub uninterp spec fn status_display(code: u16) -> Option<Seq<char>>;

/// Calls `StatusCode::from_u16` and, on a status code, `to_string`, which
/// gives the code and its reason phrase. The text is a function of the
/// number alone.
#[verifier::external_body]
fn status_string(code: u16) -> (text: Option<String>)
    ensures
        match text {
            Some(shown) => status_display(code) == Some(shown@),
            None => status_display(code) is None,
        },
{
    match reqwest::StatusCode::from_u16(code) {
        Ok(status) => Some(status.to_string()),
        Err(_) => None,
    }
}

/// How a status is shown: as a status code with its reason phrase, or as
/// the bare number where it is no status code.
pub open spec fn status_text(code: u16) -> Seq<char> {
    match status_display(code) {
        Some(shown) => shown,
        None => decimal(code as nat),
    }
}

/// Appends a status as it is shown.
fn push_status(out: &mut String, code: u16)
    ensures
        final(out)@ == old(out)@ + status_text(code),
{
    match status_string(code) {
        Some(shown) => {
            out.append(shown.as_str());
        },
        None => {
            push_decimal(out, code as u128);
        },
    }
}

/// One line of the summary: a label, a time in a column ten wide with four
/// fraction digits, and the status code of the response the time is of,
/// where it is of one.
pub open spec fn figure_line(label: Seq<char>, nanos: nat, status: Option<u16>) -> Seq<char> {
    label + duration_text(nanos, 10, Some(4nat)) + match status {
        Some(code) => "  ("@ + status_text(code) + ")"@,
        None => Seq::<char>::empty(),
    } + "\n"@
}

/// One line of the histogram: the status code, its count in a column
/// `pad` wide, and its share of all `all` responses in percent, in a column
/// five wide with two fraction digits.
pub open spec fn bucket_line(bucket: Bucket, pad: nat, all: nat) -> Seq<char> {
    status_text(bucket.status) + ":  "@ + right_aligned(decimal(bucket.count as nat), pad)
        + " ("@ + right_aligned(precise_text(bucket.count as nat * 100, all, 2), 5) + "%)\n"@
}

/// The lines of the first `upto` buckets.
pub open spec fn bucket_lines(buckets: Seq<Bucket>, upto: nat, pad: nat, all: nat) -> Seq<char>
    decreases upto,
{
    if upto == 0 {
        Seq::<char>::empty()
    } else {
        bucket_lines(buckets, (upto - 1) as nat, pad, all) + bucket_line(
            buckets[upto - 1],
            pad,
            all,
        )
    }
}

/// The text of a summary: a heading with the number of responses, one line
/// for each figure, an empty line, and the histogram with its counts in a
/// column as wide as the largest of them.
pub open spec fn summary_text(summary: Summary) -> Seq<char> {
    let pad = decimal(largest_count(summary.histogram@)).len();
    "Results of "@ + decimal(summary.count as nat) + " probes:\n\n"@ + figure_line(
        "Min:        "@,
        summary.min.took as nat,
        Some(summary.min.status),
    ) + figure_line("Max:        "@, summary.max.took as nat, Some(summary.max.status))
        + figure_line("First:      "@, summary.first.took as nat, Some(summary.first.status))
        + figure_line("Average:    "@, summary.mean as nat, None) + figure_line(
        "Median:     "@,
        summary.median as nat,
        None,
    ) + figure_line("Std. Dev.:  "@, summary.std_dev as nat, None) + figure_line(
        "90th %ile.: "@,
        summary.pct_90 as nat,
        None,
    ) + figure_line("95th %ile.: "@, summary.pct_95 as nat, None) + figure_line(
        "99th %ile.: "@,
        summary.pct_99 as nat,
        None,
    ) + figure_line("Total:      "@, summary.sum as nat, None) + "\n"@ + bucket_lines(
        summary.histogram@,
        summary.histogram@.len(),
        pad,
        summary.count as nat,
    )
}

/// Appends one line of the summary.
fn push_figure_line(out: &mut String, label: &str, nanos: u128, status: Option<u16>)
    ensures
        final(out)@ == old(out)@ + figure_line(label@, nanos as nat, status),
{
    out.append(label);
    let time = format_duration(nanos).to_padded_string(10, Some(4));
    out.append(time.as_str());
    match status {
        Some(code) => {
            out.append("  (");
            push_status(out, code);
            out.append(")");
        },
        None => {},
    }
    out.append("\n");
    assert(final(out)@ =~= old(out)@ + figure_line(label@, nanos as nat, status));
}

/// Appends one line of the histogram.
fn push_bucket_line(out: &mut String, bucket: Bucket, pad: usize, all: usize)
    requires
        all > 0,
    ensures
        final(out)@ == old(out)@ + bucket_line(bucket, pad as nat, all as nat),
{
    push_status(out, bucket.status);
    out.append(":  ");
    let count = decimal_string(bucket.count as u128);
    let column = align_right(count.as_str(), pad);
    out.append(column.as_str());
    out.append(" (");
    let share = precise_string(bucket.count as u128 * 100, all as u64, 2);
    let share_column = align_right(share.as_str(), 5);
    out.append(share_column.as_str());
    out.append("%)\n");
    assert(final(out)@ =~= old(out)@ + bucket_line(bucket, pad as nat, all as nat));
}

/// The text of a summary.
pub fn render_summary(summary: &Summary) -> (text: String)
    requires
        summary.count > 0,
    ensures
        text@ == summary_text(*summary),
{
    let mut text = String::new();
    text.append("Results of ");
    push_decimal(&mut text, summary.count as u128);
    text.append(" probes:\n\n");
    push_figure_line(&mut text, "Min:        ", summary.min.took as u128, Some(summary.min.status));
    push_figure_line(&mut text, "Max:        ", summary.max.took as u128, Some(summary.max.status));
    push_figure_line(
        &mut text,
        "First:      ",
        summary.first.took as u128,
        Some(summary.first.status),
    );
    push_figure_line(&mut text, "Average:    ", summary.mean as u128, None);
    push_figure_line(&mut text, "Median:     ", summary.median as u128, None);
    push_figure_line(&mut text, "Std. Dev.:  ", summary.std_dev as u128, None);
    push_figure_line(&mut text, "90th %ile.: ", summary.pct_90 as u128, None);
    push_figure_line(&mut text, "95th %ile.: ", summary.pct_95 as u128, None);
    push_figure_line(&mut text, "99th %ile.: ", summary.pct_99 as u128, None);
    push_figure_line(&mut text, "Total:      ", summary.sum, None);
    text.append("\n");
    let widest = decimal_string(max_count(&summary.histogram) as u128);
    let pad: usize = widest.as_str().unicode_len();
    let ghost head = text@;
    let mut i: usize = 0;
    assert(text@ =~= head + bucket_lines(summary.histogram@, 0, pad as nat, summary.count as nat));
    while i < summary.histogram.len()
        invariant
            i <= summary.histogram.len(),
            summary.count > 0,
            text@ == head + bucket_lines(
                summary.histogram@,
                i as nat,
                pad as nat,
                summary.count as nat,
            ),
        decreases summary.histogram.len() - i,
    {
        push_bucket_line(&mut text, summary.histogram[i], pad, summary.count);
        i = i + 1;
        assert(text@ =~= head + bucket_lines(
            summary.histogram@,
            i as nat,
            pad as nat,
            summary.count as nat,
        ));
    }
    assert(text@ =~= summary_text(*summary));
    text
}

/// The row of one response.
pub open spec fn csv_line(sample: Response) -> Seq<char> {
    rfc3339_text(sample.timestamp) + seq![','] + decimal(sample.status as nat) + seq![',']
        + decimal(sample.took as nat)
}

/// The row of one response.
pub fn render_csv_line(sample: &Response) -> (line: String)
    ensures
        line@ == csv_line(*sample),
{
    let mut line = timestamp_string(sample.timestamp);
    proof {
        reveal_strlit(",");
    }
    line.append(",");
    push_decimal(&mut line, sample.status as u128);
    line.append(",");
    push_decimal(&mut line, sample.took as u128);
    assert(line@ =~= csv_line(*sample)) by {
        assert(","@ =~= seq![',']);
    }
    line
}

/// The rows of `samples`, one for each response, in the order given.
pub fn render_csv(samples: &Vec<Response>) -> (lines: Vec<String>)
    ensures
        lines.len() == samples.len(),
        forall|i: int| 0 <= i < samples.len() ==> (#[trigger] lines@[i])@ == csv_line(samples@[i]),
{
    let mut lines: Vec<String> = Vec::new();
    let mut i: usize = 0;
    while i < samples.len()
        invariant
            i <= samples.len(),
            lines.len() == i,
            forall|k: int| 0 <= k < i ==> (#[trigger] lines@[k])@ == csv_line(samples@[k]),
        decreases samples.len() - i,
    {
        lines.push(render_csv_line(&samples[i]));
        i = i + 1;
    }
    lines
}

/// The place of the last comma before `end`.
pub open spec fn last_comma(s: Seq<char>, end: int) -> Option<int>
    decreases end,
{
    if end <= 0 || end > s.len() {
        None
    } else if s[end - 1] == ',' {
        Some(end - 1)
    } else {
        last_comma(s, end - 1)
    }
}

/// The number that a field shows, where it is a run of digits that shows
/// at most `limit`.
pub open spec fn field_value(field: Seq<char>, limit: nat) -> Option<nat> {
    if field.len() > 0 && all_digits(field) && decimal_value(field) <= limit {
        Some(decimal_value(field))
    } else {
        None
    }
}

/// The status code and the latency that a row holds in its last two
/// fields, where it has three fields or more and those two are numbers in
/// range.
pub open spec fn parsed_line(line: Seq<char>) -> Option<(u16, u64)> {
    match last_comma(line, line.len() as int) {
        None => None,
        Some(j) => match last_comma(line, j) {
            None => None,
            Some(i) => match (
                field_value(line.subrange(i + 1, j), u16::MAX as nat),
                field_value(line.subrange(j + 1, line.len() as int), u64::MAX as nat),
            ) {
                (Some(status), Some(took)) => Some((status as u16, took as u64)),
                _ => None,
            },
        },
    }
}

/// Finds the last comma of `text` before `end`.
fn find_last_comma(text: &str, end: usize) -> (at: Option<usize>)
    requires
        end <= text@.len(),
    ensures
        match at {
            Some(i) => last_comma(text@, end as int) == Some(i as int) && i < end,
            None => last_comma(text@, end as int) is None,
        },
{
    let mut i: usize = end;
    while i > 0
        invariant
            i <= end <= text@.len(),
            last_comma(text@, end as int) == last_comma(text@, i as int),
        decreases i,
    {
        if text.get_char(i - 1) == ',' {
            return Some(i - 1);
        }
        i = i - 1;
    }
    None
}

/// Reads the status code and the latency back from a row.
pub fn parse_csv_line(line: &str) -> (pair: Option<(u16, u64)>)
    ensures
        pair == parsed_line(line@),
{
    let len = line.unicode_len();
    let j = match find_last_comma(line, len) {
        Some(j) => j,
        None => {
            return None;
        },
    };
    let i = match find_last_comma(line, j) {
        Some(i) => i,
        None => {
            return None;
        },
    };
    let status = parse_decimal(line.substring_char(i + 1, j));
    let took = parse_decimal(line.substring_char(j + 1, len));
    match (status, took) {
        (Some(status), Some(took)) => if status <= 0xFFFF {
            Some((status as u16, took))
        } else {
            None
        },
        _ => None,
    }
}

/// The last comma of a text that ends in a comma and a run of digits is
/// the comma before the digits.
proof fn lemma_comma_before_digits(head: Seq<char>, digits: Seq<char>)
    requires
        all_digits(digits),
    ensures
        last_comma(head + seq![','] + digits, (head.len() + 1 + digits.len()) as int) == Some(
            head.len() as int,
        ),
    decreases digits.len(),
{
    let s = head + seq![','] + digits;
    if digits.len() > 0 {
        let rest = digits.drop_last();
        assert(is_digit(digits.last()));
        assert(s[s.len() - 1] == digits.last());
        lemma_comma_before_digits(head, rest);
        let shorter = head + seq![','] + rest;
        lemma_last_comma_prefix(s, shorter, shorter.len() as int);
    } else {
        assert(s[head.len() as int] == ',');
    }
}

/// Where two texts agree before `end`, their last commas before `end` are
/// at one place.
proof fn lemma_last_comma_prefix(a: Seq<char>, b: Seq<char>, end: int)
    requires
        0 <= end <= a.len(),
        end <= b.len(),
        forall|k: int| 0 <= k < end ==> a[k] == b[k],
    ensures
        last_comma(a, end) == last_comma(b, end),
    decreases end,
{
    if end > 0 && a[end - 1] != ',' {
        lemma_last_comma_prefix(a, b, end - 1);
    }
}

/// Reading a row back gives the status code and the latency of the
/// response that the row was written for, whatever its timestamp.
pub proof fn lemma_csv_round_trip(sample: Response)
    ensures
        parsed_line(csv_line(sample)) == Some((sample.status, sample.took)),
{
    let stamp = rfc3339_text(sample.timestamp);
    let status = decimal(sample.status as nat);
    let took = decimal(sample.took as nat);
    let line = csv_line(sample);
    lemma_decimal_shape(sample.status as nat);
    lemma_decimal_shape(sample.took as nat);
    lemma_decimal_round_trip(sample.status as nat);
    lemma_decimal_round_trip(sample.took as nat);
    let head = stamp + seq![','] + status;
    assert(line =~= head + seq![','] + took);
    lemma_comma_before_digits(head, took);
    let j = head.len() as int;
    assert(last_comma(line, line.len() as int) == Some(j));
    lemma_comma_before_digits(stamp, status);
    lemma_last_comma_prefix(line, head, j);
    let i = stamp.len() as int;
    assert(last_comma(line, j) == Some(i));
    assert(line.subrange(i + 1, j) =~= status);
    assert(line.subrange(j + 1, line.len() as int) =~= took);
}

/// Reading the rows of a set of responses back gives, row for row, the
/// status codes and latencies of the responses in their order.
pub proof fn lemma_csv_rows_round_trip(samples: Seq<Response>, lines: Seq<Seq<char>>)
    requires
        lines.len() == samples.len(),
        forall|i: int| 0 <= i < samples.len() ==> #[trigger] lines[i] == csv_line(samples[i]),
    ensures
        forall|i: int|
            0 <= i < samples.len() ==> parsed_line(#[trigger] lines[i]) == Some(
                (samples[i].status, samples[i].took),
            ),
{
    assert forall|i: int| 0 <= i < samples.len() implies parsed_line(#[trigger] lines[i]) == Some(
        (samples[i].status, samples[i].took),
    ) by {
        lemma_csv_round_trip(samples[i]);
    }
}

} // verus!
