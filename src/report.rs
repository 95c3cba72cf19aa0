//! The monthly report files: their names, their text, and the appends that a
//! repository's records make to them.

use vstd::prelude::*;
use vstd::string::StringExecFns;
use crate::model::{entries, EntryView, GitLogElement};
use crate::text::{int_decimal, push_int_decimal};

verus! {

/// Name of the report file of a month: `raport_<month>_<year>.txt`, numbers unpadded.
pub open spec fn report_file_name_of(year: int, month: int) -> Seq<char> {
    "raport_"@ + int_decimal(month) + "_"@ + int_decimal(year) + ".txt"@
}

/// The block that opens a repository's part of a report file.
pub open spec fn header_of(url: Seq<char>) -> Seq<char> {
    "Repository: "@ + url + "\n\n\n"@
}

/// The block of one record.
pub open spec fn record_block_of(e: EntryView, url: Seq<char>) -> Seq<char> {
    "Date: "@ + e.date_text + "\n"@ + url + "/"@ + e.commit_id + "\n"@ + "Message: "@ + e.message
        + "\n\n"@
}

/// One append to a report file: the file's month, its name and the text added.
pub struct ReportChunk {
    pub month: u32,
    pub file_name: String,
    pub text: String,
}

/// The mathematical content of a `ReportChunk`.
pub struct ChunkView {
    pub month: u32,
    pub file_name: Seq<char>,
    pub text: Seq<char>,
}

impl View for ReportChunk {
    type V = ChunkView;

    open spec fn view(&self) -> ChunkView {
        ChunkView { month: self.month, file_name: self.file_name@, text: self.text@ }
    }
}

/// The views of a sequence of chunks.
pub open spec fn chunks(v: Seq<ReportChunk>) -> Seq<ChunkView> {
    v.map_values(|c: ReportChunk| c@)
}

/// The appends that a repository's records make, in order: a record whose
/// month is that of the chunk before it joins that chunk; any other record
/// opens a new chunk for its month, starting with the repository header.
pub open spec fn report_plan(es: Seq<EntryView>, year: int, url: Seq<char>) -> Seq<ChunkView>
    decreases es.len(),
{
    if es.len() == 0 {
        Seq::empty()
    } else {
        let p = report_plan(es.drop_last(), year, url);
        let e = es.last();
        if p.len() > 0 && p.last().month == e.month {
            p.update(
                p.len() - 1,
                ChunkView { text: p.last().text + record_block_of(e, url), ..p.last() },
            )
        } else {
            p.push(
                ChunkView {
                    month: e.month,
                    file_name: report_file_name_of(year, e.month as int),
                    text: header_of(url) + record_block_of(e, url),
                },
            )
        }
    }
}

/// The name of the report file for `month` of `year`.
pub fn report_file_name(year: i32, month: u32) -> (r: String)
    ensures
        r@ == report_file_name_of(year as int, month as int),
{
    let mut r = String::new();
    r.append("raport_");
    push_int_decimal(&mut r, month as i64);
    r.append("_");
    push_int_decimal(&mut r, year as i64);
    r.append(".txt");
    r
}

/// The header block of a repository with remote `repository_url`.
pub fn repository_header(repository_url: &str) -> (r: String)
    ensures
        r@ == header_of(repository_url@),
{
    let mut r = String::new();
    r.append("Repository: ");
    r.append(repository_url);
    r.append("\n\n\n");
    r
}

/// The block that reports one record.
pub fn record_block(e: &GitLogElement, repository_url: &str) -> (r: String)
    ensures
        r@ == record_block_of(e@, repository_url@),
{
    let mut r = String::new();
    r.append("Date: ");
    r.append(e.date.text.as_str());
    r.append("\n");
    r.append(repository_url);
    r.append("/");
    r.append(e.commit_id.as_str());
    r.append("\n");
    r.append("Message: ");
    r.append(e.commit_message.as_str());
    r.append("\n\n");
    r
}

/// The appends to the report files of `year` that the records of one
/// repository make, in the order in which they are to be made; none for no
/// records.
pub fn generate_reports(elements: &Vec<GitLogElement>, year: i32, repository_url: &str) -> (r: Vec<
    ReportChunk,
>)
    ensures
        chunks(r@) == report_plan(entries(elements@), year as int, repository_url@),
        elements@.len() == 0 ==> r@.len() == 0,
{
    let ghost es = entries(elements@);
    let mut r: Vec<ReportChunk> = Vec::new();
    let mut i: usize = 0;
    while i < elements.len()
        invariant
            i <= elements.len(),
            es == entries(elements@),
            chunks(r@) == report_plan(es.subrange(0, i as int), year as int, repository_url@),
        decreases elements.len() - i,
    {
        let e = &elements[i];
        let ghost before = chunks(r@);
        assert(es.subrange(0, i + 1).drop_last() =~= es.subrange(0, i as int));
        assert(es.subrange(0, i + 1).last() == e@);
        let block = record_block(e, repository_url);
        if r.len() > 0 && r[r.len() - 1].month == e.date.month {
            let mut last = r.pop().unwrap();
            last.text.append(block.as_str());
            r.push(last);
            assert(chunks(r@) =~= before.update(
                before.len() - 1,
                ChunkView { text: before.last().text + record_block_of(e@, repository_url@), ..before.last() },
            ));
        } else {
            let mut text = repository_header(repository_url);
            text.append(block.as_str());
            let c = ReportChunk {
                month: e.date.month,
                file_name: report_file_name(year, e.date.month),
                text,
            };
            r.push(c);
            assert(chunks(r@) =~= before.push(c@));
        }
        i = i + 1;
    }
    assert(es.subrange(0, es.len() as int) =~= es);
    r
}

/// Whether record `i` opens a run of records of one month.
pub open spec fn opens_run(es: Seq<EntryView>, i: int) -> bool {
    i == 0 || es[i].month != es[i - 1].month
}

/// The number of runs of consecutive records of one month.
pub open spec fn run_count(es: Seq<EntryView>) -> nat
    decreases es.len(),
{
    if es.len() == 0 {
        0
    } else {
        run_count(es.drop_last()) + if opens_run(es, es.len() - 1) { 1nat } else { 0nat }
    }
}

/// What a repository adds to the reports, read in order: each record's
/// block, with the repository header in front of each record that opens a run.
pub open spec fn report_stream(es: Seq<EntryView>, url: Seq<char>) -> Seq<char>
    decreases es.len(),
{
    if es.len() == 0 {
        Seq::empty()
    } else {
        report_stream(es.drop_last(), url) + (if opens_run(es, es.len() - 1) {
            header_of(url)
        } else {
            Seq::empty()
        }) + record_block_of(es.last(), url)
    }
}

/// The texts of the chunks, one after the other.
pub open spec fn chunk_texts(p: Seq<ChunkView>) -> Seq<char>
    decreases p.len(),
{
    if p.len() == 0 {
        Seq::empty()
    } else {
        chunk_texts(p.drop_last()) + p.last().text
    }
}

/// One header per run of one month: the plan has one chunk per run of
/// consecutive records of one month, neighbouring chunks are for different
/// months, each chunk goes to its month's file and starts with the
/// repository header, and the chunks together hold each record's block in
/// order, a header in front of the first record of each run and nowhere else.
pub proof fn law_one_chunk_per_month_run(es: Seq<EntryView>, year: int, url: Seq<char>)
    ensures
        ({
            let p = report_plan(es, year, url);
            &&& p.len() == run_count(es)
            &&& es.len() > 0 ==> p.last().month == es.last().month
            &&& forall|j: int| 0 <= j < p.len() - 1 ==> (#[trigger] p[j]).month != p[j + 1].month
            &&& forall|j: int|
                0 <= j < p.len() ==> (#[trigger] p[j]).file_name == report_file_name_of(
                    year,
                    p[j].month as int,
                )
            &&& forall|j: int|
                0 <= j < p.len() ==> (#[trigger] p[j]).text.len() >= header_of(url).len()
                    && p[j].text.subrange(0, header_of(url).len() as int) == header_of(url)
            &&& chunk_texts(p) == report_stream(es, url)
        }),
    decreases es.len(),
{
    if es.len() > 0 {
        let q = report_plan(es.drop_last(), year, url);
        law_one_chunk_per_month_run(es.drop_last(), year, url);
        let p = report_plan(es, year, url);
        let e = es.last();
        let h = header_of(url);
        if q.len() > 0 && q.last().month == e.month {
            assert(es.len() >= 2);
            assert(es.drop_last().last() == es[es.len() - 2]);
            assert(!opens_run(es, es.len() - 1));
            assert(p.drop_last() =~= q.drop_last());
            assert forall|j: int| 0 <= j < p.len() implies (#[trigger] p[j]).text.len() >= h.len()
                && p[j].text.subrange(0, h.len() as int) == h by {
                if j == p.len() - 1 {
                    assert(q[j].text.subrange(0, h.len() as int) == h);
                    assert(p[j].text.subrange(0, h.len() as int) =~= q[j].text.subrange(
                        0,
                        h.len() as int,
                    ));
                }
            }
            assert(chunk_texts(p) =~= chunk_texts(q.drop_last()) + (q.last().text + record_block_of(e, url)));
            assert(chunk_texts(q) == chunk_texts(q.drop_last()) + q.last().text);
            assert(chunk_texts(p) =~= report_stream(es, url));
        } else {
            if es.len() >= 2 {
                assert(es.drop_last().last() == es[es.len() - 2]);
                assert(opens_run(es, es.len() - 1));
            }
            assert(p.drop_last() =~= q);
            assert forall|j: int| 0 <= j < p.len() implies (#[trigger] p[j]).text.len() >= h.len()
                && p[j].text.subrange(0, h.len() as int) == h by {
                if j == p.len() - 1 {
                    assert(p[j].text.subrange(0, h.len() as int) =~= h);
                } else {
                    assert(p[j] == q[j]);
                }
            }
            assert(chunk_texts(p) =~= report_stream(es, url));
        }
    }
}

/// What the file `name` holds in `files`; empty when there is no such file.
pub open spec fn file_text(files: Map<Seq<char>, Seq<char>>, name: Seq<char>) -> Seq<char> {
    if files.contains_key(name) {
        files[name]
    } else {
        Seq::empty()
    }
}

/// The report files, by name, once the chunks of `p` are appended to them in
/// order; a file that does not exist is created.
pub open spec fn append_chunks(files: Map<Seq<char>, Seq<char>>, p: Seq<ChunkView>) -> Map<
    Seq<char>,
    Seq<char>,
>
    decreases p.len(),
{
    if p.len() == 0 {
        files
    } else {
        let f = append_chunks(files, p.drop_last());
        let c = p.last();
        f.insert(c.file_name, file_text(f, c.file_name) + c.text)
    }
}

/// The text that the chunks of `p` add to the file `name`.
pub open spec fn added_text(p: Seq<ChunkView>, name: Seq<char>) -> Seq<char>
    decreases p.len(),
{
    if p.len() == 0 {
        Seq::empty()
    } else {
        added_text(p.drop_last(), name) + if p.last().file_name == name {
            p.last().text
        } else {
            Seq::empty()
        }
    }
}

proof fn lemma_append_chunks(files: Map<Seq<char>, Seq<char>>, p: Seq<ChunkView>, name: Seq<char>)
    ensures
        file_text(append_chunks(files, p), name) == file_text(files, name) + added_text(p, name),
    decreases p.len(),
{
    if p.len() == 0 {
        assert(file_text(files, name) + Seq::<char>::empty() =~= file_text(files, name));
    } else {
        lemma_append_chunks(files, p.drop_last(), name);
        let f = append_chunks(files, p.drop_last());
        if p.last().file_name == name {
            assert(file_text(append_chunks(files, p), name) =~= file_text(files, name) + added_text(
                p,
                name,
            ));
        } else {
            assert(file_text(append_chunks(files, p), name) == file_text(f, name));
            assert(added_text(p, name) =~= added_text(p.drop_last(), name));
        }
    }
}

proof fn lemma_added_text_holds_chunk(p: Seq<ChunkView>, j: int)
    requires
        0 <= j < p.len(),
    ensures
        added_text(p, p[j].file_name).len() >= p[j].text.len(),
    decreases p.len(),
{
    if j < p.len() - 1 {
        lemma_added_text_holds_chunk(p.drop_last(), j);
        assert(p.drop_last()[j] == p[j]);
    }
}

/// Writing the same records twice is not idempotent: appending a
/// repository's plan a second time adds to each report file exactly what the
/// first time added, so every block appears twice, and each file that the
/// plan touches grows.
pub proof fn law_second_write_duplicates(
    files: Map<Seq<char>, Seq<char>>,
    es: Seq<EntryView>,
    year: int,
    url: Seq<char>,
)
    ensures
        ({
            let p = report_plan(es, year, url);
            let once = append_chunks(files, p);
            let twice = append_chunks(once, p);
            &&& forall|name: Seq<char>|
                #[trigger] file_text(twice, name) == file_text(files, name) + added_text(p, name)
                    + added_text(p, name)
            &&& forall|j: int|
                0 <= j < p.len() ==> file_text(twice, (#[trigger] p[j]).file_name).len()
                    > file_text(once, p[j].file_name).len()
        }),
{
    let p = report_plan(es, year, url);
    let once = append_chunks(files, p);
    let twice = append_chunks(once, p);
    law_one_chunk_per_month_run(es, year, url);
    assert forall|name: Seq<char>|
        #[trigger] file_text(twice, name) == file_text(files, name) + added_text(p, name)
            + added_text(p, name) by {
        lemma_append_chunks(files, p, name);
        lemma_append_chunks(once, p, name);
    }
    assert forall|j: int|
        0 <= j < p.len() implies file_text(twice, (#[trigger] p[j]).file_name).len() > file_text(
        once,
        p[j].file_name,
    ).len() by {
        lemma_append_chunks(once, p, p[j].file_name);
        lemma_added_text_holds_chunk(p, j);
        assert(p[j].text.len() >= header_of(url).len());
        assert(header_of(url).len() > 0) by {
            reveal_strlit("Repository: ");
        }
    }
}

} // verus!
