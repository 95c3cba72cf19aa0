//! The commit record and its date.

use vstd::prelude::*;

verus! {

/// What the report needs of a commit's point in time: its calendar month and
/// its rendered form (`2024-06-05 10:00:00 +00:00`).
pub struct CommitDate {
    /// Calendar month, from 1 (January) to 12.
    pub month: u32,
    /// The date and time as chrono displays it.
    pub text: String,
}

/// One commit of a log: identifier, date and message.
pub struct GitLogElement {
    pub commit_id: String,
    pub date: CommitDate,
    pub commit_message: String,
}

/// The mathematical content of a `GitLogElement`.
pub struct EntryView {
    pub commit_id: Seq<char>,
    pub month: u32,
    pub date_text: Seq<char>,
    pub message: Seq<char>,
}

impl View for GitLogElement {
    type V = EntryView;

    open spec fn view(&self) -> EntryView {
        EntryView {
            commit_id: self.commit_id@,
            month: self.date.month,
            date_text: self.date.text@,
            message: self.commit_message@,
        }
    }
}

/// The views of a sequence of records.
pub open spec fn entries(v: Seq<GitLogElement>) -> Seq<EntryView> {
    v.map_values(|e: GitLogElement| e@)
}

/// What chrono reads from an RFC 2822 date: `None` where it rejects the text,
/// else the month of the parsed date and its display form.
pub uninterp spec fn rfc2822_reading(s: Seq<char>) -> Option<(u32, Seq<char>)>;

/// Relies on chrono's `DateTime::parse_from_rfc2822` to parse the date, on
/// `Datelike::month` for its month (1 to 12) and on its `Display` for the text.
#[verifier::external_body]
pub(crate) fn parse_rfc2822(s: &str) -> (r: Option<CommitDate>)
    ensures
        match r {
            None => rfc2822_reading(s@) is None,
            Some(d) => {
                &&& rfc2822_reading(s@) == Some((d.month, d.text@))
                &&& 1 <= d.month <= 12
            },
        },
{
    match chrono::DateTime::parse_from_rfc2822(s) {
        Ok(t) => Some(CommitDate { month: chrono::Datelike::month(&t), text: t.to_string() }),
        Err(_) => None,
    }
}

} // verus!
