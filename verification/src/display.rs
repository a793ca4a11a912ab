//! What the status table shows of a row: the colour of its category and the
//! text of its time.

use crate::status::{classify, classify_spec, Status};
use crate::store::StatusRow;
use crate::view::RowGroup;
use vstd::prelude::*;

verus! {

/// The mark that stands for one outcome in a target's row.
pub const PIP: char = '\u{25AE}';

/// The background class of a table row whose newest outcome has this category.
pub fn row_class(status: Status) -> (class: &'static str)
    ensures
        status == Status::Success ==> class@ == "bg-green-200"@,
        status == Status::Redirect ==> class@ == "bg-yellow-200"@,
        status == Status::Failure ==> class@ == "bg-red-200"@,
{
    match status {
        Status::Success => "bg-green-200",
        Status::Redirect => "bg-yellow-200",
        Status::Failure => "bg-red-200",
    }
}

/// The text class of the mark of an outcome with this category.
pub fn pip_class(status: Status) -> (class: &'static str)
    ensures
        status == Status::Success ==> class@ == "text-green-500"@,
        status == Status::Redirect ==> class@ == "text-yellow-500"@,
        status == Status::Failure ==> class@ == "text-red-500"@,
{
    match status {
        Status::Success => "text-green-500",
        Status::Redirect => "text-yellow-500",
        Status::Failure => "text-red-500",
    }
}

/// The category of a group of rows: that of its first row, which is the
/// newest where the rows come from the recent-history view.
pub fn group_status(rows: &Vec<StatusRow>, group: RowGroup) -> (status: Status)
    requires
        group.start < group.end <= rows@.len(),
    ensures
        status == classify_spec(rows@[group.start as int].last_status as int),
{
    classify(rows[group.start].last_status)
}

/// The text that chrono shows for the date and time of day, in UTC, that lie
/// `micros` microseconds after the Unix epoch: `None` where chrono has no
/// such date.
pub uninterp spec fn timestamp_text(micros: i64) -> Option<Seq<char>>;

/// Makes the date and time with `chrono::DateTime::from_timestamp_micros`,
/// which gives `None` for a count outside the dates that chrono holds, and
/// renders its `chrono::NaiveDateTime` with `to_string`. The contract claims
/// only that the text depends on `micros` alone.
#[verifier::external_body]
fn render_timestamp(micros: i64) -> (text: Option<String>)
    ensures
        text matches Some(t) ==> timestamp_text(micros) == Some(t@),
        text is None ==> timestamp_text(micros) is None,
{
    match chrono::DateTime::from_timestamp_micros(micros) {
        Some(time) => Some(time.naive_utc().to_string()),
        None => None,
    }
}

/// The text of the time at which a row's outcome was observed.
pub fn poll_time_text(row: &StatusRow) -> (text: Option<String>)
    ensures
        text matches Some(t) ==> timestamp_text(row.poll_time) == Some(t@),
        text is None ==> timestamp_text(row.poll_time) is None,
{
    render_timestamp(row.poll_time)
}

} // verus!
