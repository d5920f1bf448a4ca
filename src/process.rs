//! Per-process records: the resident memory on a status text's `VmRSS:` line,
//! the short name, and the selection of the process root's numeric entries.
use vstd::prelude::*;

use crate::text::{
    all_digits, all_spaces, chars_of, digits_value, ends_word, has_prefix, is_digit,
    lemma_first_word_number, lemma_skip_spaces_concat, lemma_word_concat, lines, no_spaces,
    parse_u64, parse_u64_at, second_word, skip_spaces_from, starts_with, trim_spaces, word_end,
};

verus! {

/// The label of the resident-memory line of a status text.
pub open spec fn rss_label() -> Seq<char> {
    "VmRSS:"@
}

/// The first line of `ls` that starts with `label`.
pub open spec fn first_line_with(ls: Seq<Seq<char>>, label: Seq<char>) -> Option<Seq<char>>
    decreases ls.len(),
{
    if ls.len() == 0 {
        None
    } else if first_line_with(ls.drop_last(), label) is Some {
        first_line_with(ls.drop_last(), label)
    } else if starts_with(ls.last(), label) {
        Some(ls.last())
    } else {
        None
    }
}

/// The resident memory that a status text gives: the second word of its first
/// `VmRSS:` line, read as a number of kilobytes. `None` where the text has no
/// such line or that word is not a number.
pub open spec fn rss_of(s: Seq<char>) -> Option<u64> {
    match first_line_with(lines(s), rss_label()) {
        Some(l) => parse_u64(second_word(l)),
        None => None,
    }
}

/// Whether `s` names a process: one or more decimal digits and nothing else.
pub open spec fn is_pid_name(s: Seq<char>) -> bool {
    s.len() > 0 && all_digits(s)
}

/// The number that the second word of `line` spells.
fn second_word_value(line: &Vec<char>) -> (r: Option<u64>)
    ensures
        r == parse_u64(second_word(line@)),
{
    assert(line@.skip(0) =~= line@);
    let i = skip_spaces_from(line, 0);
    let j = word_end(line, i);
    let i2 = skip_spaces_from(line, j);
    let j2 = word_end(line, i2);
    parse_u64_at(line, i2, j2)
}

/// Reads the resident memory, in kilobytes, from a process status text such
/// as the content of `/proc/<pid>/status`.
pub fn parse_process_status(status: &str) -> (r: Option<u64>)
    ensures
        r == rss_of(status@),
{
    let v = chars_of(status);
    let key = chars_of("VmRSS:");
    let mut found = false;
    let mut value: Option<u64> = None;
    let mut line: Vec<char> = Vec::new();
    let ghost mut done: Seq<Seq<char>> = Seq::empty();
    let mut k: usize = 0;
    assert(v@.take(0) =~= Seq::<char>::empty());
    while k < v.len()
        invariant
            0 <= k <= v.len(),
            v@ == status@,
            key@ == rss_label(),
            lines(v@.take(k as int)) == done.push(line@),
            found == first_line_with(done, rss_label()) is Some,
            found ==> value == parse_u64(second_word(first_line_with(done, rss_label())->0)),
        decreases v.len() - k,
    {
        let c = v[k];
        assert(v@.take(k + 1).drop_last() =~= v@.take(k as int));
        if c == '\n' {
            if !found && has_prefix(&line, &key) {
                value = second_word_value(&line);
                found = true;
            }
            proof {
                assert(done.push(line@).drop_last() =~= done);
                done = done.push(line@);
            }
            line = Vec::new();
        } else {
            let ghost before = line@;
            line.push(c);
            assert(done.push(before).update(done.len() as int, before.push(c)) =~= done.push(
                line@,
            ));
        }
        k = k + 1;
    }
    if !found && has_prefix(&line, &key) {
        value = second_word_value(&line);
        found = true;
    }
    proof {
        assert(done.push(line@).drop_last() =~= done);
        done = done.push(line@);
        assert(v@.take(v.len() as int) =~= v@);
    }
    if found {
        value
    } else {
        None
    }
}

/// Whether a directory entry name names a process: it is made of decimal
/// digits alone.
pub fn is_pid(name: &str) -> (r: bool)
    ensures
        r == is_pid_name(name@),
{
    let v = chars_of(name);
    if v.len() == 0 {
        return false;
    }
    let mut k: usize = 0;
    while k < v.len()
        invariant
            0 <= k <= v.len(),
            v@ == name@,
            forall|i: int| 0 <= i < k ==> is_digit(#[trigger] v@[i]),
        decreases v.len() - k,
    {
        let c = v[k];
        if !('0' <= c && c <= '9') {
            assert(!is_digit(v@[k as int]));
            return false;
        }
        k = k + 1;
    }
    true
}

/// Where no line of `ls` starts with `label`, there is no first such line.
proof fn lemma_first_line_none(ls: Seq<Seq<char>>, label: Seq<char>)
    requires
        forall|k: int| 0 <= k < ls.len() ==> !starts_with(#[trigger] ls[k], label),
    ensures
        first_line_with(ls, label) is None,
    decreases ls.len(),
{
    if ls.len() > 0 {
        assert(!starts_with(ls[ls.len() - 1], label));
        lemma_first_line_none(ls.drop_last(), label);
    }
}

/// The first line of `ls` that starts with `label` is the `i`-th where that
/// one does and none before it does.
proof fn lemma_first_line_at(ls: Seq<Seq<char>>, label: Seq<char>, i: int)
    requires
        0 <= i < ls.len(),
        starts_with(ls[i], label),
        forall|k: int| 0 <= k < i ==> !starts_with(#[trigger] ls[k], label),
    ensures
        first_line_with(ls, label) == Some(ls[i]),
    decreases ls.len(),
{
    if i < ls.len() - 1 {
        lemma_first_line_at(ls.drop_last(), label, i);
    } else {
        lemma_first_line_none(ls.drop_last(), label);
    }
}

/// A status text without a `VmRSS:` line gives no resident memory, and that
/// is an answer, not a failure.
pub proof fn lemma_rss_missing(s: Seq<char>)
    requires
        forall|k: int| 0 <= k < lines(s).len() ==> !starts_with(#[trigger] lines(s)[k], rss_label()),
    ensures
        rss_of(s) is None,
{
    lemma_first_line_none(lines(s), rss_label());
}

/// On the first `VmRSS:` line of a status text, the number that follows the
/// label after white space is the resident memory, whatever white space
/// stands before it and whatever follows it after white space.
pub proof fn lemma_rss_value(s: Seq<char>, i: int, pad: Seq<char>, d: Seq<char>, tail: Seq<char>)
    requires
        0 <= i < lines(s).len(),
        lines(s)[i] == rss_label() + pad + d + tail,
        pad.len() > 0,
        all_spaces(pad),
        d.len() > 0,
        all_digits(d),
        digits_value(d) <= u64::MAX,
        ends_word(tail),
        forall|k: int| 0 <= k < i ==> !starts_with(#[trigger] lines(s)[k], rss_label()),
    ensures
        rss_of(s) == Some(digits_value(d) as u64),
{
    reveal_strlit("VmRSS:");
    let label = rss_label();
    let l = lines(s)[i];
    let rest = pad + d + tail;
    assert(l =~= label + rest);
    assert(l.take(label.len() as int) =~= label);
    lemma_first_line_at(lines(s), label, i);
    assert(Seq::<char>::empty() + l =~= l);
    lemma_skip_spaces_concat(Seq::empty(), l);
    assert(no_spaces(label));
    lemma_word_concat(label, rest);
    lemma_first_word_number(pad, d, tail);
}

/// A process with its short name and its resident memory in kilobytes.
pub struct ProcessRecord {
    pub pid: String,
    pub name: String,
    pub resident_kb: u64,
}

/// What a `ProcessRecord` holds, with its texts as character sequences.
pub struct ProcessView {
    pub pid: Seq<char>,
    pub name: Seq<char>,
    pub resident_kb: u64,
}

impl View for ProcessRecord {
    type V = ProcessView;

    open spec fn view(&self) -> ProcessView {
        ProcessView { pid: self.pid@, name: self.name@, resident_kb: self.resident_kb }
    }
}

/// An entry of the process root with what could be read under it: the
/// entry's name, the content of its short-name file (empty where that could
/// not be read), and the content of its status file, where it could be read.
pub struct ScannedEntry {
    pub name: String,
    pub comm: String,
    pub status: Option<String>,
}

/// Relies on `str::trim`, which removes the leading and trailing characters
/// that `char::is_whitespace` accepts.
#[verifier::external_body]
fn trim(s: &str) -> (r: &str)
    ensures
        r@ == trim_spaces(s@),
{
    s.trim()
}

/// The name and resident memory of a process, from the contents of its
/// short-name file and of its status file. A process without readable
/// resident memory gives `None`; an unreadable name is only an empty one.
pub fn read_process(comm: &str, status: Option<&str>) -> (r: Option<(String, u64)>)
    ensures
        match r {
            Some((name, mem)) => status is Some && rss_of(status->0@) == Some(mem) && name@
                == trim_spaces(comm@),
            None => status is None || rss_of(status->0@) is None,
        },
{
    let mem = match status {
        Some(s) => parse_process_status(s),
        None => None,
    };
    match mem {
        Some(m) => Some((trim(comm).to_owned(), m)),
        None => None,
    }
}

/// The record that a scanned entry gives, if any: only an entry whose name
/// is a process number and whose status text gives resident memory has one.
pub open spec fn entry_record(e: ScannedEntry) -> Option<ProcessView> {
    if is_pid_name(e.name@) && e.status is Some && rss_of(e.status->0@) is Some {
        Some(
            ProcessView {
                pid: e.name@,
                name: trim_spaces(e.comm@),
                resident_kb: rss_of(e.status->0@)->0,
            },
        )
    } else {
        None
    }
}

/// The records of the entries `es` that give one, in the entries' order.
pub open spec fn records_of(es: Seq<ScannedEntry>) -> Seq<ProcessView>
    decreases es.len(),
{
    if es.len() == 0 {
        Seq::empty()
    } else {
        match entry_record(es.last()) {
            Some(p) => records_of(es.drop_last()).push(p),
            None => records_of(es.drop_last()),
        }
    }
}

/// The views of `ps`.
pub open spec fn views(ps: Seq<ProcessRecord>) -> Seq<ProcessView> {
    ps.map_values(|p: ProcessRecord| p@)
}

/// The process records of the entries of a process root, in the entries'
/// order. Entries whose names are not process numbers are passed over, and so
/// are processes whose resident memory could not be read.
pub fn list_processes_from(entries: &Vec<ScannedEntry>) -> (r: Vec<ProcessRecord>)
    ensures
        views(r@) == records_of(entries@),
{
    let mut out: Vec<ProcessRecord> = Vec::new();
    let mut i: usize = 0;
    while i < entries.len()
        invariant
            0 <= i <= entries.len(),
            views(out@) == records_of(entries@.take(i as int)),
        decreases entries.len() - i,
    {
        let e = &entries[i];
        assert(entries@.take(i + 1).drop_last() =~= entries@.take(i as int));
        assert(entries@.take(i + 1).last() == *e);
        if is_pid(e.name.as_str()) {
            let status = match &e.status {
                Some(s) => Some(s.as_str()),
                None => None,
            };
            match read_process(e.comm.as_str(), status) {
                Some((name, mem)) => {
                    let ghost before = out@;
                    out.push(ProcessRecord { pid: e.name.clone(), name, resident_kb: mem });
                    assert(views(out@) =~= views(before).push(out@.last()@));
                },
                None => {},
            }
        }
        i = i + 1;
    }
    assert(entries@.take(entries.len() as int) =~= entries@);
    out
}

/// Every record made from scanned entries belongs to an entry whose name is
/// a process number: no other entry is taken for a process.
pub proof fn lemma_records_have_pid_names(es: Seq<ScannedEntry>)
    ensures
        forall|i: int|
            0 <= i < records_of(es).len() ==> is_pid_name(#[trigger] records_of(es)[i].pid),
    decreases es.len(),
{
    if es.len() > 0 {
        let prev = records_of(es.drop_last());
        lemma_records_have_pid_names(es.drop_last());
        assert forall|i: int| 0 <= i < records_of(es).len() implies is_pid_name(
            #[trigger] records_of(es)[i].pid,
        ) by {
            if i < prev.len() {
                assert(records_of(es)[i] == prev[i]);
            }
        }
    }
}

} // verus!
