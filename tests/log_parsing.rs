use git_raport::log::{block_element, parse_git_log, parse_git_log_with};
use git_raport::model::CommitDate;

const WED_JUNE: &str = "commit abc123\nAuthor: x\nDate:   Wed, 05 Jun 2024 10:00:00 +0000\n    Fix bug\n";
const MON_JULY: &str = "commit def456\nAuthor: y\nDate:   Mon, 01 Jul 2024 09:00:00 +0000\n    Add feature\n";

#[test]
fn trailing_block_is_not_emitted() {
    let text = format!("{}{}", WED_JUNE, MON_JULY);
    let r = parse_git_log(&text);
    assert_eq!(r.len(), 1);
    assert_eq!(r[0].commit_id, "abc123");
    assert_eq!(r[0].date.month, 6);
    assert_eq!(r[0].date.text, "2024-06-05 10:00:00 +00:00");
    assert_eq!(r[0].commit_message, "Fix bug");
}

#[test]
fn literal_log_with_placeholder_weekday_gives_no_record() {
    // With the fixed eight-character date prefix the date handed to the parser
    // is "X, 05 Jun 2024 10:00:00 +0000", which is no RFC 2822 date.
    let text = "commit abc123\nAuthor: x\nDate: XXX, 05 Jun 2024 10:00:00 +0000\n    Fix bug\ncommit def456\nAuthor: y\nDate: XXX, 01 Jul 2024 09:00:00 +0000\n    Add feature\n";
    let r = parse_git_log(text);
    assert_eq!(r.len(), 0);
}

#[test]
fn k_terminated_blocks_give_k_records() {
    let third = "commit 0badf00d\nAuthor: z\nDate:   Tue, 02 Jul 2024 08:30:00 +0200\n    Third\n";
    let text = format!("{}{}{}", WED_JUNE, MON_JULY, third);
    let r = parse_git_log(&text);
    assert_eq!(r.len(), 2);
    assert_eq!(r[0].commit_id, "abc123");
    assert_eq!(r[1].commit_id, "def456");
    assert_eq!(r[1].date.month, 7);
    assert_eq!(r[1].commit_message, "Add feature");
}

#[test]
fn block_with_bad_date_is_dropped() {
    let bad = "commit 111\nAuthor: q\nDate:   not a date\n    Broken\n";
    let text = format!("{}{}{}", bad, WED_JUNE, MON_JULY);
    let r = parse_git_log(&text);
    assert_eq!(r.len(), 1);
    assert_eq!(r[0].commit_id, "abc123");
}

#[test]
fn message_lines_are_concatenated_without_separator() {
    let text = format!(
        "commit abc123\nAuthor: x\nDate:   Wed, 05 Jun 2024 10:00:00 +0000\n\n    Fix bug\n\n    More detail\n{}",
        MON_JULY
    );
    let r = parse_git_log(&text);
    assert_eq!(r.len(), 1);
    assert_eq!(r[0].commit_message, "Fix bug    More detail");
}

#[test]
fn empty_text_gives_no_record() {
    assert_eq!(parse_git_log("").len(), 0);
}

#[test]
fn single_block_gives_no_record() {
    assert_eq!(parse_git_log(WED_JUNE).len(), 0);
}

#[test]
fn crlf_line_endings_are_accepted() {
    let text = "commit abc123\r\nAuthor: x\r\nDate:   Wed, 05 Jun 2024 10:00:00 +0000\r\n    Fix bug\r\ncommit def456\r\n";
    let r = parse_git_log(text);
    assert_eq!(r.len(), 1);
    assert_eq!(r[0].commit_id, "abc123");
    assert_eq!(r[0].commit_message, "Fix bug");
}

#[test]
fn short_lines_lose_their_whole_prefix() {
    let text = format!("commit\nAuthor: x\nDate:   Wed, 05 Jun 2024 10:00:00 +0000\nab\n{}", MON_JULY);
    let r = parse_git_log(&text);
    assert_eq!(r.len(), 1);
    assert_eq!(r[0].commit_id, "");
    assert_eq!(r[0].commit_message, "");
}

#[test]
fn date_offset_is_kept_in_the_text() {
    let text = format!(
        "commit 42\nAuthor: x\nDate:   Sun, 31 Mar 2024 23:30:00 -0500\n    Late\n{}",
        MON_JULY
    );
    let r = parse_git_log(&text);
    assert_eq!(r.len(), 1);
    assert_eq!(r[0].date.month, 3);
    assert_eq!(r[0].date.text, "2024-03-31 23:30:00 -05:00");
}

#[test]
fn flushing_reports_the_last_block_too() {
    let text = format!("{}{}", WED_JUNE, MON_JULY);
    let r = parse_git_log_with(&text, true);
    assert_eq!(r.len(), 2);
    assert_eq!(r[1].commit_id, "def456");
    assert_eq!(r[1].date.text, "2024-07-01 09:00:00 +00:00");
    assert_eq!(r[1].commit_message, "Add feature");
    assert_eq!(parse_git_log_with(&text, false).len(), 1);
    assert_eq!(parse_git_log_with("", true).len(), 0);
}

#[test]
fn block_element_strips_prefixes_and_keeps_the_date() {
    let id: Vec<char> = "commit abc123".chars().collect();
    let msg: Vec<char> = "    Fix bug    and more".chars().collect();
    let d = CommitDate { month: 11, text: "2021-11-02 03:04:05 +01:00".to_string() };
    let e = block_element(&id, Some(d), &msg).unwrap();
    assert_eq!(e.commit_id, "abc123");
    assert_eq!(e.date.month, 11);
    assert_eq!(e.date.text, "2021-11-02 03:04:05 +01:00");
    assert_eq!(e.commit_message, "Fix bug    and more");
    assert!(block_element(&id, None, &msg).is_none());
}
