//! Parsing of `git log --date rfc` output into commit records.
//!
//! A commit block is a line that starts with `commit`, one ignored line (the
//! author), a `Date:` line, then message lines up to the next `commit` line.
//! A block is turned into a record only when the next `commit` line arrives,
//! so the last block of the text is not emitted unless the caller asks for it.

use vstd::prelude::*;
use crate::model::{entries, parse_rfc2822, rfc2822_reading, CommitDate, EntryView, GitLogElement};
use crate::text::{chars_of, drop_prefix, line_split, lines_of, split_lines, string_from, views};

verus! {

/// Characters in front of the identifier on a `commit <id>` line.
pub const ID_PREFIX_LEN: usize = 7;

/// Characters in front of the date on a `Date:   <date>` line.
pub const DATE_PREFIX_LEN: usize = 8;

/// Indentation that git puts in front of the message.
pub const MESSAGE_INDENT: usize = 4;

/// The word that opens a commit block.
pub open spec fn commit_marker() -> Seq<char> {
    seq!['c', 'o', 'm', 'm', 'i', 't']
}

/// Whether a line opens a commit block.
pub open spec fn is_marker(line: Seq<char>) -> bool {
    line.len() >= 6 && line.subrange(0, 6) == commit_marker()
}

/// The state of the scan after some lines.
pub struct ScanState {
    /// Position of the next line within its block, counted up to 3.
    pub counter: nat,
    /// Whether a `commit` line was seen.
    pub started: bool,
    pub id: Seq<char>,
    pub date: Seq<char>,
    pub msg: Seq<char>,
    /// The records emitted so far.
    pub out: Seq<EntryView>,
}

pub open spec fn initial_state() -> ScanState {
    ScanState {
        counter: 0,
        started: false,
        id: Seq::empty(),
        date: Seq::empty(),
        msg: Seq::empty(),
        out: Seq::empty(),
    }
}

/// The record of a block with identifier line `id`, date line `date` and
/// message lines concatenated into `msg`; `None` where the date does not parse.
pub open spec fn block_record(id: Seq<char>, date: Seq<char>, msg: Seq<char>) -> Option<EntryView> {
    match rfc2822_reading(drop_prefix(date, DATE_PREFIX_LEN as nat)) {
        Some((m, t)) => Some(
            EntryView {
                commit_id: drop_prefix(id, ID_PREFIX_LEN as nat),
                month: m,
                date_text: t,
                message: drop_prefix(msg, MESSAGE_INDENT as nat),
            },
        ),
        None => None,
    }
}

/// `out` with `r` appended when there is one.
pub open spec fn push_some(out: Seq<EntryView>, r: Option<EntryView>) -> Seq<EntryView> {
    match r {
        Some(e) => out.push(e),
        None => out,
    }
}

/// The state once a `commit` line has been seen: the pending block is closed.
pub open spec fn open_block(st: ScanState) -> ScanState {
    if st.started {
        ScanState {
            counter: 0,
            out: push_some(st.out, block_record(st.id, st.date, st.msg)),
            msg: Seq::empty(),
            ..st
        }
    } else {
        ScanState { counter: 0, started: true, ..st }
    }
}

/// One line of the scan.
pub open spec fn scan_step(st: ScanState, line: Seq<char>) -> ScanState {
    let s1 = if is_marker(line) { open_block(st) } else { st };
    let s2 = if s1.counter == 0 {
        ScanState { id: line, ..s1 }
    } else if s1.counter == 2 {
        ScanState { date: line, ..s1 }
    } else if s1.counter >= 3 {
        ScanState { msg: s1.msg + line, ..s1 }
    } else {
        s1
    };
    ScanState { counter: if s2.counter >= 3 { 3 } else { s2.counter + 1 }, ..s2 }
}

/// The scan continued from `st` over `lines`.
pub open spec fn scan_from(st: ScanState, lines: Seq<Seq<char>>) -> ScanState
    decreases lines.len(),
{
    if lines.len() == 0 {
        st
    } else {
        scan_step(scan_from(st, lines.drop_last()), lines.last())
    }
}

/// The records that a log text holds.
pub open spec fn parsed_log(text: Seq<char>) -> Seq<EntryView> {
    scan_from(initial_state(), lines_of(text)).out
}

fn starts_with_marker(line: &Vec<char>) -> (r: bool)
    ensures
        r == is_marker(line@),
{
    if line.len() < 6 {
        return false;
    }
    let m: Vec<char> = vec!['c', 'o', 'm', 'm', 'i', 't'];
    let mut i: usize = 0;
    while i < 6
        invariant
            i <= 6 <= line.len(),
            m@ == commit_marker(),
            line@.subrange(0, i as int) == m@.subrange(0, i as int),
        decreases 6 - i,
    {
        if line[i] != m[i] {
            assert(line@.subrange(0, 6)[i as int] != m@[i as int]);
            return false;
        }
        assert(line@.subrange(0, i + 1) =~= line@.subrange(0, i as int).push(line@[i as int]));
        assert(m@.subrange(0, i + 1) =~= m@.subrange(0, i as int).push(m@[i as int]));
        i = i + 1;
    }
    assert(m@.subrange(0, 6) =~= m@);
    true
}

/// The record of a block with identifier line `id` and message lines `msg`,
/// given what its date line was read as; none where the date did not parse.
pub fn block_element(id: &Vec<char>, date: Option<CommitDate>, msg: &Vec<char>) -> (r: Option<
    GitLogElement,
>)
    ensures
        match date {
            None => r is None,
            Some(d) => r matches Some(e) && e@ == (EntryView {
                commit_id: drop_prefix(id@, ID_PREFIX_LEN as nat),
                month: d.month,
                date_text: d.text@,
                message: drop_prefix(msg@, MESSAGE_INDENT as nat),
            }),
        },
{
    match date {
        Some(d) => Some(
            GitLogElement {
                commit_id: string_from(id, ID_PREFIX_LEN),
                date: d,
                commit_message: string_from(msg, MESSAGE_INDENT),
            },
        ),
        None => None,
    }
}

fn close_block(out: &mut Vec<GitLogElement>, id: &Vec<char>, date: &Vec<char>, msg: &Vec<char>)
    ensures
        entries(final(out)@) == push_some(entries(old(out)@), block_record(id@, date@, msg@)),
{
    let date_text = string_from(date, DATE_PREFIX_LEN);
    match block_element(id, parse_rfc2822(date_text.as_str()), msg) {
        Some(e) => {
            out.push(e);
            assert(entries(final(out)@) =~= entries(old(out)@).push(e@));
        },
        None => {},
    }
}

/// The records that a log text holds when the last block is closed by the
/// end of the text as well.
pub open spec fn parsed_log_flushed(text: Seq<char>) -> Seq<EntryView> {
    closed_out(scan_from(initial_state(), lines_of(text)))
}

/// Parses the output of `git log --date rfc` into its commit records, in the
/// order of the text: see `parsed_log`. The last block of the text is not
/// reported, as no `commit` line closes it.
pub fn parse_git_log(text: &str) -> (r: Vec<GitLogElement>)
    ensures
        entries(r@) == parsed_log(text@),
{
    parse_git_log_with(text, false)
}

/// Parses a log text as `parse_git_log` does; where `flush_last_block` holds,
/// the end of the text closes the last block too, so it is reported like the
/// others.
pub fn parse_git_log_with(text: &str, flush_last_block: bool) -> (r: Vec<GitLogElement>)
    ensures
        entries(r@) == if flush_last_block {
            parsed_log_flushed(text@)
        } else {
            parsed_log(text@)
        },
{
    let chars = chars_of(text);
    let lines = split_lines(&chars);
    let ghost ls = views(lines@);
    let mut out: Vec<GitLogElement> = Vec::new();
    let mut counter: usize = 0;
    let mut started = false;
    let mut id: Vec<char> = Vec::new();
    let mut date: Vec<char> = Vec::new();
    let mut msg: Vec<char> = Vec::new();
    for line in it: lines
        invariant
            ls == lines_of(text@),
            ls == views(it.seq()),
            it.index() <= ls.len(),
            ({
                let st = scan_from(initial_state(), ls.subrange(0, it.index() as int));
                &&& counter as nat == st.counter
                &&& started == st.started
                &&& id@ == st.id
                &&& date@ == st.date
                &&& msg@ == st.msg
                &&& entries(out@) == st.out
            }),
    {
        let mut line = line;
        let ghost l = line@;
        let ghost prev = scan_from(initial_state(), ls.subrange(0, it.index() as int));
        assert(it.seq()[it.index() as int] == line);
        assert(ls[it.index() as int] == l);
        if starts_with_marker(&line) {
            if started {
                close_block(&mut out, &id, &date, &msg);
                msg = Vec::new();
            }
            started = true;
            counter = 0;
        }
        if counter == 0 {
            id = line;
        } else if counter == 2 {
            date = line;
        } else if counter >= 3 {
            msg.append(&mut line);
        }
        if counter < 3 {
            counter = counter + 1;
        }
        assert(ls.subrange(0, it.index() + 1).drop_last() =~= ls.subrange(0, it.index() as int));
        assert(scan_from(initial_state(), ls.subrange(0, it.index() + 1)) == scan_step(prev, l));
    }
    assert(ls.subrange(0, ls.len() as int) =~= ls);
    if flush_last_block && started {
        close_block(&mut out, &id, &date, &msg);
    }
    out
}

/// The lines of `ls` run together, with no separator.
pub open spec fn concat_lines(ls: Seq<Seq<char>>) -> Seq<char>
    decreases ls.len(),
{
    if ls.len() == 0 {
        Seq::empty()
    } else {
        concat_lines(ls.drop_last()) + ls.last()
    }
}

/// A text with each of `ls` on a line of its own, each ended by `\n`.
pub open spec fn log_text(ls: Seq<Seq<char>>) -> Seq<char>
    decreases ls.len(),
{
    if ls.len() == 0 {
        Seq::empty()
    } else {
        log_text(ls.drop_last()) + ls.last() + seq!['\n']
    }
}

/// A line that can stand in a text: no `\n` in it, and no `\r` at its end.
pub open spec fn is_line(l: Seq<char>) -> bool {
    &&& forall|i: int| 0 <= i < l.len() ==> l[i] != '\n'
    &&& !(l.len() > 0 && l.last() == '\r')
}

/// A well-formed commit block: a `commit` line, an author line, a date line,
/// then message lines; no line but the first opens a block.
pub open spec fn is_block(b: Seq<Seq<char>>) -> bool {
    &&& b.len() >= 3
    &&& is_marker(b[0])
    &&& forall|i: int| 1 <= i < b.len() ==> !is_marker(#[trigger] b[i])
    &&& forall|i: int| 0 <= i < b.len() ==> is_line(#[trigger] b[i])
}

/// The record of a block, when its date parses.
pub open spec fn record_of_block(b: Seq<Seq<char>>) -> Option<EntryView> {
    block_record(b[0], b[2], concat_lines(b.subrange(3, b.len() as int)))
}

/// The records of the blocks that have one, in order.
pub open spec fn block_records(bs: Seq<Seq<Seq<char>>>) -> Seq<EntryView>
    decreases bs.len(),
{
    if bs.len() == 0 {
        Seq::empty()
    } else {
        push_some(block_records(bs.drop_last()), record_of_block(bs.last()))
    }
}

/// The lines of the blocks, one block after the other.
pub open spec fn block_lines(bs: Seq<Seq<Seq<char>>>) -> Seq<Seq<char>>
    decreases bs.len(),
{
    if bs.len() == 0 {
        Seq::empty()
    } else {
        block_lines(bs.drop_last()) + bs.last()
    }
}

proof fn lemma_split_line(a: Seq<char>, done: Seq<Seq<char>>, l: Seq<char>, k: int)
    requires
        line_split(a) == (done, Seq::<char>::empty()),
        is_line(l),
        0 <= k <= l.len(),
    ensures
        line_split(a + l.subrange(0, k)) == (done, l.subrange(0, k)),
    decreases k,
{
    if k == 0 {
        assert(a + l.subrange(0, 0) =~= a);
        assert(l.subrange(0, 0) =~= Seq::<char>::empty());
    } else {
        lemma_split_line(a, done, l, k - 1);
        assert((a + l.subrange(0, k)).drop_last() =~= a + l.subrange(0, k - 1));
        assert((a + l.subrange(0, k)).last() == l[k - 1]);
        assert(l.subrange(0, k - 1).push(l[k - 1]) =~= l.subrange(0, k));
    }
}

proof fn lemma_split_text(ls: Seq<Seq<char>>)
    requires
        forall|i: int| 0 <= i < ls.len() ==> is_line(#[trigger] ls[i]),
    ensures
        line_split(log_text(ls)) == (ls, Seq::<char>::empty()),
    decreases ls.len(),
{
    if ls.len() > 0 {
        let a = log_text(ls.drop_last());
        let l = ls.last();
        lemma_split_text(ls.drop_last());
        assert(is_line(ls[ls.len() - 1]));
        lemma_split_line(a, ls.drop_last(), l, l.len() as int);
        assert(l.subrange(0, l.len() as int) =~= l);
        assert((a + l + seq!['\n']).drop_last() =~= a + l);
        assert(ls.drop_last().push(l) =~= ls);
    } else {
        assert(log_text(ls) =~= Seq::<char>::empty());
    }
}

/// The lines of a text made of lines are those lines.
proof fn lemma_lines_of_text(ls: Seq<Seq<char>>)
    requires
        forall|i: int| 0 <= i < ls.len() ==> is_line(#[trigger] ls[i]),
    ensures
        lines_of(log_text(ls)) == ls,
{
    lemma_split_text(ls);
}

proof fn lemma_scan_append(st: ScanState, a: Seq<Seq<char>>, b: Seq<Seq<char>>)
    ensures
        scan_from(st, a + b) == scan_from(scan_from(st, a), b),
    decreases b.len(),
{
    if b.len() == 0 {
        assert(a + b =~= a);
    } else {
        lemma_scan_append(st, a, b.drop_last());
        assert((a + b).drop_last() =~= a + b.drop_last());
        assert((a + b).last() == b.last());
    }
}

/// The records of `st` once its pending block, if any, is closed.
pub open spec fn closed_out(st: ScanState) -> Seq<EntryView> {
    if st.started {
        push_some(st.out, block_record(st.id, st.date, st.msg))
    } else {
        st.out
    }
}

/// Reading the first `k` lines of a block from `st`.
proof fn lemma_scan_block_prefix(st: ScanState, b: Seq<Seq<char>>, k: int)
    requires
        is_block(b),
        1 <= k <= b.len(),
        st.started || st.msg.len() == 0,
    ensures
        ({
            let r = scan_from(st, b.subrange(0, k));
            &&& r.started
            &&& r.counter == if k >= 3 { 3 } else { k as nat }
            &&& r.out == closed_out(st)
            &&& r.id == b[0]
            &&& k >= 3 ==> r.date == b[2]
            &&& r.msg == if k >= 3 { concat_lines(b.subrange(3, k)) } else { Seq::empty() }
        }),
    decreases k,
{
    let sub = b.subrange(0, k);
    assert(sub.drop_last() =~= b.subrange(0, k - 1));
    assert(sub.last() == b[k - 1]);
    let prev = scan_from(st, b.subrange(0, k - 1));
    assert(scan_from(st, sub) == scan_step(prev, b[k - 1]));
    if k == 1 {
        assert(b.subrange(0, 0) =~= Seq::<Seq<char>>::empty());
        assert(prev == st);
        assert(is_marker(b[0]));
        let s1 = open_block(st);
        assert(s1.out == closed_out(st));
        if !st.started {
            assert(st.msg =~= Seq::<char>::empty());
        }
        assert(s1.msg == Seq::<char>::empty());
    } else {
        lemma_scan_block_prefix(st, b, k - 1);
        assert(!is_marker(b[k - 1]));
        if k >= 4 {
            assert(b.subrange(3, k).drop_last() =~= b.subrange(3, k - 1));
            assert(b.subrange(3, k).last() == b[k - 1]);
        } else if k == 3 {
            assert(b.subrange(3, 3) =~= Seq::<Seq<char>>::empty());
        }
    }
}

/// Reading the lines of well-formed blocks: all blocks but the last are
/// closed, the last one is pending.
proof fn lemma_scan_blocks(bs: Seq<Seq<Seq<char>>>)
    requires
        bs.len() >= 1,
        forall|i: int| 0 <= i < bs.len() ==> is_block(#[trigger] bs[i]),
    ensures
        ({
            let r = scan_from(initial_state(), block_lines(bs));
            let b = bs.last();
            &&& r.started
            &&& r.out == block_records(bs.drop_last())
            &&& r.id == b[0]
            &&& r.date == b[2]
            &&& r.msg == concat_lines(b.subrange(3, b.len() as int))
        }),
    decreases bs.len(),
{
    let b = bs.last();
    assert(is_block(bs[bs.len() - 1]));
    let prev = scan_from(initial_state(), block_lines(bs.drop_last()));
    if bs.len() == 1 {
        assert(block_lines(bs.drop_last()) =~= Seq::<Seq<char>>::empty());
        assert(bs.drop_last() =~= Seq::<Seq<Seq<char>>>::empty());
    } else {
        let cs = bs.drop_last();
        assert forall|i: int| 0 <= i < cs.len() implies is_block(#[trigger] cs[i]) by {
            assert(cs[i] == bs[i]);
        }
        lemma_scan_blocks(cs);
        assert(cs.drop_last().push(cs.last()) =~= cs);
    }
    lemma_scan_append(initial_state(), block_lines(bs.drop_last()), b);
    lemma_scan_block_prefix(prev, b, b.len() as int);
    assert(b.subrange(0, b.len() as int) =~= b);
}

proof fn lemma_block_lines_are_lines(bs: Seq<Seq<Seq<char>>>)
    requires
        forall|i: int| 0 <= i < bs.len() ==> is_block(#[trigger] bs[i]),
    ensures
        forall|j: int| 0 <= j < block_lines(bs).len() ==> is_line(#[trigger] block_lines(bs)[j]),
    decreases bs.len(),
{
    if bs.len() > 0 {
        let cs = bs.drop_last();
        assert forall|i: int| 0 <= i < cs.len() implies is_block(#[trigger] cs[i]) by {
            assert(cs[i] == bs[i]);
        }
        lemma_block_lines_are_lines(cs);
        let b = bs.last();
        assert(is_block(bs[bs.len() - 1]));
        assert forall|j: int| 0 <= j < block_lines(bs).len() implies is_line(
            #[trigger] block_lines(bs)[j],
        ) by {
            if j < block_lines(cs).len() {
                assert(block_lines(bs)[j] == block_lines(cs)[j]);
            } else {
                assert(block_lines(bs)[j] == b[j - block_lines(cs).len()]);
            }
        }
    }
}

/// Each record of `block_records(bs)` is the record of one of the blocks.
proof fn lemma_records_from_blocks(bs: Seq<Seq<Seq<char>>>)
    ensures
        block_records(bs).len() <= bs.len(),
        forall|i: int|
            0 <= i < block_records(bs).len() ==> exists|j: int|
                0 <= j < bs.len() && record_of_block(#[trigger] bs[j]) == Some(
                    #[trigger] block_records(bs)[i],
                ),
        (forall|j: int| 0 <= j < bs.len() ==> (#[trigger] record_of_block(bs[j])) is Some)
            ==> block_records(bs).len() == bs.len(),
    decreases bs.len(),
{
    if bs.len() > 0 {
        let cs = bs.drop_last();
        lemma_records_from_blocks(cs);
        let rs = block_records(bs);
        assert forall|i: int| 0 <= i < rs.len() implies exists|j: int|
            0 <= j < bs.len() && record_of_block(#[trigger] bs[j]) == Some(#[trigger] rs[i]) by {
            if i < block_records(cs).len() {
                let j = choose|j: int|
                    0 <= j < cs.len() && record_of_block(#[trigger] cs[j]) == Some(
                        block_records(cs)[i],
                    );
                assert(cs[j] == bs[j]);
                assert(record_of_block(bs[j]) == Some(rs[i]));
            } else {
                assert(record_of_block(bs[bs.len() - 1]) == Some(rs[i]));
            }
        }
        if forall|j: int| 0 <= j < bs.len() ==> (#[trigger] record_of_block(bs[j])) is Some {
            assert forall|j: int| 0 <= j < cs.len() implies (#[trigger] record_of_block(
                cs[j],
            )) is Some by {
                assert(cs[j] == bs[j]);
            }
            assert(record_of_block(bs[bs.len() - 1]) is Some);
        }
    }
}

/// Only terminated blocks are reported: in a text of well-formed blocks, every
/// block but the last gives its record (when its date parses) in order, and
/// the last block, with no `commit` line after it, gives none. So a text of
/// `k` terminated blocks and one trailing block yields at most `k` records,
/// and exactly `k` when every terminated block's date parses.
pub proof fn law_trailing_block_dropped(bs: Seq<Seq<Seq<char>>>)
    requires
        bs.len() >= 1,
        forall|i: int| 0 <= i < bs.len() ==> is_block(#[trigger] bs[i]),
    ensures
        parsed_log(log_text(block_lines(bs))) == block_records(bs.drop_last()),
        parsed_log(log_text(block_lines(bs))).len() <= bs.len() - 1,
        (forall|j: int| 0 <= j < bs.len() - 1 ==> (#[trigger] record_of_block(bs[j])) is Some)
            ==> parsed_log(log_text(block_lines(bs))).len() == bs.len() - 1,
{
    lemma_block_lines_are_lines(bs);
    lemma_lines_of_text(block_lines(bs));
    lemma_scan_blocks(bs);
    let cs = bs.drop_last();
    lemma_records_from_blocks(cs);
    if forall|j: int| 0 <= j < bs.len() - 1 ==> (#[trigger] record_of_block(bs[j])) is Some {
        assert forall|j: int| 0 <= j < cs.len() implies (#[trigger] record_of_block(cs[j])) is Some by {
            assert(cs[j] == bs[j]);
        }
    }
}

/// Whether `r` carries the identifier and the message lines of block `b`.
pub open spec fn taken_from_block(r: EntryView, b: Seq<Seq<char>>) -> bool {
    &&& r.message == drop_prefix(concat_lines(b.subrange(3, b.len() as int)), MESSAGE_INDENT as nat)
    &&& r.commit_id == drop_prefix(b[0], ID_PREFIX_LEN as nat)
}

/// Whether each of `out` carries the identifier and message lines of one of
/// the blocks of `bs` but the last.
pub open spec fn records_from_blocks(out: Seq<EntryView>, bs: Seq<Seq<Seq<char>>>) -> bool {
    forall|i: int|
        0 <= i < out.len() ==> exists|j: int|
            0 <= j < bs.len() - 1 && taken_from_block(#[trigger] out[i], bs[j])
}

/// A record's message is the message lines of its block run together, with
/// no separator (and the indentation of the first one dropped); its
/// identifier is the block's `commit` line without the `commit ` prefix.
pub proof fn law_message_is_block_lines(bs: Seq<Seq<Seq<char>>>)
    requires
        bs.len() >= 1,
        forall|i: int| 0 <= i < bs.len() ==> is_block(#[trigger] bs[i]),
    ensures
        records_from_blocks(parsed_log(log_text(block_lines(bs))), bs),
{
    law_trailing_block_dropped(bs);
    let cs = bs.drop_last();
    lemma_records_from_blocks(cs);
    let out = parsed_log(log_text(block_lines(bs)));
    assert forall|i: int| 0 <= i < out.len() implies exists|j: int|
        0 <= j < bs.len() - 1 && taken_from_block(#[trigger] out[i], bs[j]) by {
        let r = block_records(cs)[i];
        let j = choose|j: int| 0 <= j < cs.len() && record_of_block(#[trigger] cs[j]) == Some(r);
        assert(cs[j] == bs[j]);
        assert(record_of_block(bs[j]) == Some(r));
        assert(taken_from_block(r, bs[j]));
    }
}

} // verus!
