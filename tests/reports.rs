use std::collections::HashMap;

use git_raport::model::{CommitDate, GitLogElement};
use git_raport::report::{
    generate_reports, record_block, report_file_name, repository_header, ReportChunk,
};

fn element(id: &str, month: u32, message: &str) -> GitLogElement {
    GitLogElement {
        commit_id: id.to_string(),
        date: CommitDate { month, text: format!("2024-{:02}-01 12:00:00 +00:00", month) },
        commit_message: message.to_string(),
    }
}

fn append_all(files: &mut HashMap<String, String>, chunks: &[ReportChunk]) {
    for c in chunks {
        files.entry(c.file_name.clone()).or_default().push_str(&c.text);
    }
}

const URL: &str = "https://example.org/team/repo";

#[test]
fn file_name_is_unpadded() {
    assert_eq!(report_file_name(2024, 6), "raport_6_2024.txt");
    assert_eq!(report_file_name(2023, 12), "raport_12_2023.txt");
    assert_eq!(report_file_name(-7, 1), "raport_1_-7.txt");
    assert_eq!(report_file_name(0, 10), "raport_10_0.txt");
}

#[test]
fn header_and_record_block_text() {
    assert_eq!(repository_header(URL), "Repository: https://example.org/team/repo\n\n\n");
    let e = element("abc123", 6, "Fix bug");
    assert_eq!(
        record_block(&e, URL),
        "Date: 2024-06-01 12:00:00 +00:00\nhttps://example.org/team/repo/abc123\nMessage: Fix bug\n\n"
    );
}

#[test]
fn empty_records_touch_no_file() {
    let chunks = generate_reports(&Vec::new(), 2024, URL);
    assert!(chunks.is_empty());
}

#[test]
fn month_boundaries_give_one_chunk_per_month() {
    let es = vec![
        element("a", 3, "one"),
        element("b", 3, "two"),
        element("c", 4, "three"),
        element("d", 4, "four"),
        element("e", 5, "five"),
    ];
    let chunks = generate_reports(&es, 2024, URL);
    assert_eq!(chunks.len(), 3);
    let months: Vec<u32> = chunks.iter().map(|c| c.month).collect();
    assert_eq!(months, vec![3, 4, 5]);
    assert_eq!(chunks[0].file_name, "raport_3_2024.txt");
    assert_eq!(chunks[1].file_name, "raport_4_2024.txt");
    assert_eq!(chunks[2].file_name, "raport_5_2024.txt");
    let header = repository_header(URL);
    for c in &chunks {
        assert_eq!(c.text.matches("Repository: ").count(), 1);
        assert!(c.text.starts_with(&header));
    }
    let expected_march = format!(
        "{}{}{}",
        header,
        record_block(&es[0], URL),
        record_block(&es[1], URL)
    );
    assert_eq!(chunks[0].text, expected_march);
    let expected_april = format!(
        "{}{}{}",
        header,
        record_block(&es[2], URL),
        record_block(&es[3], URL)
    );
    assert_eq!(chunks[1].text, expected_april);
    assert_eq!(chunks[2].text, format!("{}{}", header, record_block(&es[4], URL)));
}

#[test]
fn returning_month_opens_a_new_chunk() {
    let es = vec![element("a", 5, "x"), element("b", 4, "y"), element("c", 5, "z")];
    let chunks = generate_reports(&es, 2024, URL);
    assert_eq!(chunks.len(), 3);
    assert_eq!(chunks[0].file_name, chunks[2].file_name);
}

#[test]
fn writing_twice_duplicates_blocks() {
    let es = vec![element("a", 3, "one"), element("b", 4, "two")];
    let first = generate_reports(&es, 2024, URL);
    let second = generate_reports(&es, 2024, URL);
    let mut files: HashMap<String, String> = HashMap::new();
    append_all(&mut files, &first);
    let once = files.clone();
    append_all(&mut files, &second);
    for (name, text) in &files {
        let single = &once[name];
        assert_eq!(*text, format!("{}{}", single, single));
        assert_eq!(text.matches("Repository: ").count(), 2);
    }
    assert_ne!(files, once);
}
