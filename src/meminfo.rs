//! The system-wide memory summary: a `MemTotal:` and a `MemAvailable:` line,
//! each with a number of kilobytes.
use vstd::prelude::*;

use crate::text::{
    all_digits, all_spaces, chars_of, digits_value, ends_word, first_word, has_prefix, lemma_first_word_number, lines, parse_u64,
    parse_u64_at, skip_spaces_from, starts_with, word_end,
};

verus! {

/// Total and available memory, in kilobytes.
#[derive(Clone, Copy, Debug, PartialEq, Eq, Structural)]
pub struct MemInfo {
    pub total: u64,
    pub available: u64,
}

/// Why a memory summary could not be read.
#[derive(Clone, Copy, Debug, PartialEq, Eq, Structural)]
pub enum MemInfoError {
    /// The text has no `MemTotal:` line or no `MemAvailable:` line.
    MissingField,
    /// A `MemTotal:` or `MemAvailable:` line does not hold a number.
    InvalidValue,
}

/// The label of the total-memory line.
pub open spec fn total_label() -> Seq<char> {
    "MemTotal:"@
}

/// The label of the available-memory line.
pub open spec fn available_label() -> Seq<char> {
    "MemAvailable:"@
}

/// The number on a line that starts with `label`: the first word after the
/// label, read as an unsigned number.
pub open spec fn field_value(line: Seq<char>, label: Seq<char>) -> Option<u64> {
    parse_u64(first_word(line.skip(label.len() as int)))
}

/// The last line of `ls` that starts with `label`.
pub open spec fn last_line_with(ls: Seq<Seq<char>>, label: Seq<char>) -> Option<Seq<char>>
    decreases ls.len(),
{
    if ls.len() == 0 {
        None
    } else if starts_with(ls.last(), label) {
        Some(ls.last())
    } else {
        last_line_with(ls.drop_last(), label)
    }
}

/// Whether some line of `ls` starts with `label` and holds no number after it.
pub open spec fn has_bad_field(ls: Seq<Seq<char>>, label: Seq<char>) -> bool
    decreases ls.len(),
{
    if ls.len() == 0 {
        false
    } else {
        (starts_with(ls.last(), label) && field_value(ls.last(), label) is None) || has_bad_field(
            ls.drop_last(),
            label,
        )
    }
}

/// The number on the last line of `ls` that starts with `label`.
pub open spec fn last_field(ls: Seq<Seq<char>>, label: Seq<char>) -> Option<u64> {
    match last_line_with(ls, label) {
        Some(l) => field_value(l, label),
        None => None,
    }
}

/// What a memory summary text says. Where a label occurs on several lines,
/// the last of them gives the value, and every one of them must hold a number.
pub open spec fn meminfo_of(s: Seq<char>) -> Result<MemInfo, MemInfoError> {
    let ls = lines(s);
    if has_bad_field(ls, total_label()) || has_bad_field(ls, available_label()) {
        Err(MemInfoError::InvalidValue)
    } else if last_line_with(ls, total_label()) is None || last_line_with(
        ls,
        available_label(),
    ) is None {
        Err(MemInfoError::MissingField)
    } else {
        Ok(
            MemInfo {
                total: last_field(ls, total_label())->0,
                available: last_field(ls, available_label())->0,
            },
        )
    }
}

/// Whether `line` starts with `label`, and if so the number after the label.
fn labeled_value(line: &Vec<char>, label: &Vec<char>) -> (r: Option<Option<u64>>)
    ensures
        r == (if starts_with(line@, label@) {
            Some(field_value(line@, label@))
        } else {
            None
        }),
{
    if !has_prefix(line, label) {
        return None;
    }
    let start = skip_spaces_from(line, label.len());
    let end = word_end(line, start);
    Some(parse_u64_at(line, start, end))
}

/// Takes one more line into what is known of `label` so far: the number on the
/// last line that starts with it, and whether some such line held no number.
fn fold_line(line: &Vec<char>, label: &Vec<char>, value: Option<u64>, bad: bool) -> (r: (
    Option<u64>,
    bool,
))
    ensures
        r.0 == (if starts_with(line@, label@) {
            field_value(line@, label@)
        } else {
            value
        }),
        r.1 == (bad || (starts_with(line@, label@) && field_value(line@, label@) is None)),
{
    match labeled_value(line, label) {
        None => (value, bad),
        Some(None) => (None, true),
        Some(Some(x)) => (Some(x), bad),
    }
}

/// Where no line with `label` lacks a number, the last such line has one.
proof fn lemma_last_field_present(ls: Seq<Seq<char>>, label: Seq<char>)
    requires
        !has_bad_field(ls, label),
    ensures
        last_field(ls, label) is Some <==> last_line_with(ls, label) is Some,
    decreases ls.len(),
{
    if ls.len() > 0 && !starts_with(ls.last(), label) {
        lemma_last_field_present(ls.drop_last(), label);
    }
}

/// Where exactly one line of `ls`, the `i`-th, starts with `label`, that line
/// is the last with it, and it alone decides whether a number is missing.
proof fn lemma_single_labeled_line(ls: Seq<Seq<char>>, label: Seq<char>, i: int)
    requires
        0 <= i < ls.len(),
        starts_with(ls[i], label),
        forall|k: int| 0 <= k < ls.len() && k != i ==> !starts_with(#[trigger] ls[k], label),
    ensures
        last_line_with(ls, label) == Some(ls[i]),
        has_bad_field(ls, label) == (field_value(ls[i], label) is None),
    decreases ls.len(),
{
    let prev = ls.drop_last();
    if i < ls.len() - 1 {
        assert(!starts_with(ls[ls.len() - 1], label));
        lemma_single_labeled_line(prev, label, i);
    } else {
        lemma_no_labeled_line(prev, label);
    }
}

/// Where no line of `ls` starts with `label`, no such line is missing a number.
proof fn lemma_no_labeled_line(ls: Seq<Seq<char>>, label: Seq<char>)
    requires
        forall|k: int| 0 <= k < ls.len() ==> !starts_with(#[trigger] ls[k], label),
    ensures
        !has_bad_field(ls, label),
    decreases ls.len(),
{
    if ls.len() > 0 {
        assert(!starts_with(ls[ls.len() - 1], label));
        lemma_no_labeled_line(ls.drop_last(), label);
    }
}

/// A summary with one `MemTotal:` line and one `MemAvailable:` line, each
/// holding a number (after optional white space, and followed by white space
/// or the end of the line), reads as exactly those two numbers, whatever the
/// other lines say.
pub proof fn lemma_meminfo_fields(
    s: Seq<char>,
    i: int,
    total_pad: Seq<char>,
    total_digits: Seq<char>,
    total_tail: Seq<char>,
    j: int,
    available_pad: Seq<char>,
    available_digits: Seq<char>,
    available_tail: Seq<char>,
)
    requires
        0 <= i < lines(s).len(),
        0 <= j < lines(s).len(),
        lines(s)[i] == total_label() + total_pad + total_digits + total_tail,
        lines(s)[j] == available_label() + available_pad + available_digits + available_tail,
        all_spaces(total_pad),
        all_spaces(available_pad),
        total_digits.len() > 0,
        available_digits.len() > 0,
        all_digits(total_digits),
        all_digits(available_digits),
        digits_value(total_digits) <= u64::MAX,
        digits_value(available_digits) <= u64::MAX,
        ends_word(total_tail),
        ends_word(available_tail),
        forall|k: int|
            0 <= k < lines(s).len() && k != i ==> !starts_with(#[trigger] lines(s)[k], total_label()),
        forall|k: int|
            0 <= k < lines(s).len() && k != j ==> !starts_with(
                #[trigger] lines(s)[k],
                available_label(),
            ),
    ensures
        meminfo_of(s) == Ok::<MemInfo, MemInfoError>(
            MemInfo {
                total: digits_value(total_digits) as u64,
                available: digits_value(available_digits) as u64,
            },
        ),
{
    let ls = lines(s);
    let tl = total_label();
    let al = available_label();
    assert(ls[i].take(tl.len() as int) =~= tl);
    assert(ls[j].take(al.len() as int) =~= al);
    assert(ls[i].skip(tl.len() as int) =~= total_pad + total_digits + total_tail);
    assert(ls[j].skip(al.len() as int) =~= available_pad + available_digits + available_tail);
    lemma_first_word_number(total_pad, total_digits, total_tail);
    lemma_first_word_number(available_pad, available_digits, available_tail);
    lemma_single_labeled_line(ls, tl, i);
    lemma_single_labeled_line(ls, al, j);
}

impl MemInfo {
    /// Reads a memory summary such as the content of `/proc/meminfo`.
    pub fn parse_from_str(content: &str) -> (r: Result<MemInfo, MemInfoError>)
        ensures
            r == meminfo_of(content@),
    {
        let v = chars_of(content);
        let total_key = chars_of("MemTotal:");
        let available_key = chars_of("MemAvailable:");
        let mut total: Option<u64> = None;
        let mut available: Option<u64> = None;
        let mut bad_total = false;
        let mut bad_available = false;
        let mut line: Vec<char> = Vec::new();
        let ghost mut done: Seq<Seq<char>> = Seq::empty();
        let mut k: usize = 0;
        assert(v@.take(0) =~= Seq::<char>::empty());
        while k < v.len()
            invariant
                0 <= k <= v.len(),
                v@ == content@,
                total_key@ == total_label(),
                available_key@ == available_label(),
                lines(v@.take(k as int)) == done.push(line@),
                bad_total == has_bad_field(done, total_label()),
                bad_available == has_bad_field(done, available_label()),
                bad_total || total == last_field(done, total_label()),
                bad_available || available == last_field(done, available_label()),
            decreases v.len() - k,
        {
            let c = v[k];
            assert(v@.take(k + 1).drop_last() =~= v@.take(k as int));
            if c == '\n' {
                let (t, bt) = fold_line(&line, &total_key, total, bad_total);
                let (a, ba) = fold_line(&line, &available_key, available, bad_available);
                total = t;
                bad_total = bt;
                available = a;
                bad_available = ba;
                proof {
                    assert(done.push(line@).drop_last() =~= done);
                    done = done.push(line@);
                }
                line = Vec::new();
            } else {
                let ghost before = line@;
                line.push(c);
                assert(done.push(before).update(done.len() as int, before.push(c)) =~= done.push(
                    line@,
                ));
            }
            k = k + 1;
        }
        let (t, bt) = fold_line(&line, &total_key, total, bad_total);
        let (a, ba) = fold_line(&line, &available_key, available, bad_available);
        proof {
            assert(done.push(line@).drop_last() =~= done);
            done = done.push(line@);
            assert(v@.take(v.len() as int) =~= v@);
            if !bt {
                lemma_last_field_present(done, total_label());
            }
            if !ba {
                lemma_last_field_present(done, available_label());
            }
        }
        if bt || ba {
            return Err(MemInfoError::InvalidValue);
        }
        match (t, a) {
            (Some(total), Some(available)) => Ok(MemInfo { total, available }),
            _ => Err(MemInfoError::MissingField),
        }
    }

    /// Memory in use: total minus available, or zero where more is available
    /// than the total.
    pub fn used(&self) -> (r: u64)
        ensures
            r == (if self.total >= self.available {
                self.total - self.available
            } else {
                0
            }),
    {
        self.total.saturating_sub(self.available)
    }
}

} // verus!
