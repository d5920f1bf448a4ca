//! Character-level text handling shared by the record parsers: lines,
//! whitespace-separated words and unsigned decimal numbers.
use vstd::prelude::*;
use vstd::std_specs::iter::IteratorSpec;

verus! {

broadcast use vstd::string::group_string_axioms;

/// Copies the characters of `s` into a vector.
pub fn chars_of(s: &str) -> (r: Vec<char>)
    ensures
        r@ == s@,
{
    let mut out: Vec<char> = Vec::new();
    for c in it: s.chars()
        invariant
            it.seq() == s@,
            out@ == s@.take(it.index() as int),
    {
        out.push(c);
    }
    assert(out@ == s@);
    out
}

/// Whether `c` is white space in the sense of Unicode's `White_Space`
/// property, the set that `char::is_whitespace` accepts.
pub open spec fn is_space(c: char) -> bool {
    let u = c as u32;
    ||| 0x9 <= u <= 0xd
    ||| u == 0x20
    ||| u == 0x85
    ||| u == 0xa0
    ||| u == 0x1680
    ||| 0x2000 <= u <= 0x200a
    ||| u == 0x2028
    ||| u == 0x2029
    ||| u == 0x202f
    ||| u == 0x205f
    ||| u == 0x3000
}

/// Whether `c` is one of the ASCII digits `0` to `9`.
pub open spec fn is_digit(c: char) -> bool {
    '0' <= c <= '9'
}

/// The lines of `s`, split at each newline character. A text that ends with a
/// newline has a last, empty line; a carriage return before a newline stays at
/// the end of its line. Neither changes what a record means, since an empty line
/// carries no label and a carriage return is white space.
pub open spec fn lines(s: Seq<char>) -> Seq<Seq<char>>
    decreases s.len(),
{
    if s.len() == 0 {
        seq![Seq::empty()]
    } else {
        let prev = lines(s.drop_last());
        if s.last() == '\n' {
            prev.push(Seq::empty())
        } else {
            prev.update(prev.len() - 1, prev.last().push(s.last()))
        }
    }
}

/// Whether `s` begins with `p`.
pub open spec fn starts_with(s: Seq<char>, p: Seq<char>) -> bool {
    p.len() <= s.len() && s.take(p.len() as int) == p
}

/// `s` without its leading white space.
pub open spec fn skip_spaces(s: Seq<char>) -> Seq<char>
    decreases s.len(),
{
    if s.len() > 0 && is_space(s[0]) {
        skip_spaces(s.drop_first())
    } else {
        s
    }
}

/// The run of non-space characters at the start of `s`.
pub open spec fn word(s: Seq<char>) -> Seq<char>
    decreases s.len(),
{
    if s.len() > 0 && !is_space(s[0]) {
        seq![s[0]] + word(s.drop_first())
    } else {
        Seq::empty()
    }
}

/// What follows the run of non-space characters at the start of `s`.
pub open spec fn after_word(s: Seq<char>) -> Seq<char>
    decreases s.len(),
{
    if s.len() > 0 && !is_space(s[0]) {
        after_word(s.drop_first())
    } else {
        s
    }
}

/// The first whitespace-separated word of `s`, empty where there is none.
pub open spec fn first_word(s: Seq<char>) -> Seq<char> {
    word(skip_spaces(s))
}

/// The second whitespace-separated word of `s`, empty where there is none.
pub open spec fn second_word(s: Seq<char>) -> Seq<char> {
    first_word(after_word(skip_spaces(s)))
}

/// `s` without its trailing white space.
pub open spec fn trim_end_spaces(s: Seq<char>) -> Seq<char>
    decreases s.len(),
{
    if s.len() > 0 && is_space(s.last()) {
        trim_end_spaces(s.drop_last())
    } else {
        s
    }
}

/// `s` without its leading and trailing white space.
pub open spec fn trim_spaces(s: Seq<char>) -> Seq<char> {
    trim_end_spaces(skip_spaces(s))
}

/// The value of a digit character.
pub open spec fn digit_value(c: char) -> nat {
    (c as u32 - '0' as u32) as nat
}

/// The number that the decimal digits `d` spell, most significant first.
pub open spec fn digits_value(d: Seq<char>) -> nat
    decreases d.len(),
{
    if d.len() == 0 {
        0
    } else {
        digits_value(d.drop_last()) * 10 + digit_value(d.last())
    }
}

/// Whether every character of `d` is a digit.
pub open spec fn all_digits(d: Seq<char>) -> bool {
    forall|i: int| 0 <= i < d.len() ==> is_digit(#[trigger] d[i])
}

/// `s` without one leading plus sign, if it has one.
pub open spec fn unsigned_part(s: Seq<char>) -> Seq<char> {
    if s.len() > 0 && s[0] == '+' {
        s.drop_first()
    } else {
        s
    }
}

/// The unsigned 64-bit number that `s` spells in Rust's integer syntax: an
/// optional plus sign and then one or more decimal digits, with a value that
/// fits; `None` for any other text.
pub open spec fn parse_u64(s: Seq<char>) -> Option<u64> {
    let d = unsigned_part(s);
    if d.len() > 0 && all_digits(d) && digits_value(d) <= u64::MAX {
        Some(digits_value(d) as u64)
    } else {
        None
    }
}

/// Whether `c` is white space; the test that `char::is_whitespace` makes.
pub fn is_space_char(c: char) -> (r: bool)
    ensures
        r == is_space(c),
{
    let u = c as u32;
    (0x9 <= u && u <= 0xd) || u == 0x20 || u == 0x85 || u == 0xa0 || u == 0x1680 || (0x2000
        <= u && u <= 0x200a) || u == 0x2028 || u == 0x2029 || u == 0x202f || u == 0x205f || u
        == 0x3000
}

/// The first position at or after `i` that does not hold white space.
pub fn skip_spaces_from(v: &Vec<char>, i: usize) -> (j: usize)
    requires
        i <= v.len(),
    ensures
        i <= j <= v.len(),
        v@.skip(j as int) == skip_spaces(v@.skip(i as int)),
{
    let mut k: usize = i;
    while k < v.len() && is_space_char(v[k])
        invariant
            i <= k <= v.len(),
            skip_spaces(v@.skip(i as int)) == skip_spaces(v@.skip(k as int)),
        decreases v.len() - k,
    {
        assert(v@.skip(k as int).drop_first() =~= v@.skip(k + 1));
        k = k + 1;
    }
    k
}

/// The end of the run of non-space characters that starts at `i`.
pub fn word_end(v: &Vec<char>, i: usize) -> (j: usize)
    requires
        i <= v.len(),
    ensures
        i <= j <= v.len(),
        v@.subrange(i as int, j as int) == word(v@.skip(i as int)),
        v@.skip(j as int) == after_word(v@.skip(i as int)),
{
    let mut k: usize = i;
    while k < v.len() && !is_space_char(v[k])
        invariant
            i <= k <= v.len(),
            word(v@.skip(i as int)) == v@.subrange(i as int, k as int) + word(v@.skip(k as int)),
            after_word(v@.skip(i as int)) == after_word(v@.skip(k as int)),
        decreases v.len() - k,
    {
        assert(v@.skip(k as int).drop_first() =~= v@.skip(k + 1));
        assert(v@.subrange(i as int, k as int) + seq![v@[k as int]] =~= v@.subrange(
            i as int,
            k + 1,
        ));
        k = k + 1;
    }
    assert(v@.subrange(i as int, k as int) + Seq::<char>::empty() =~= v@.subrange(
        i as int,
        k as int,
    ));
    k
}

/// A number spelled with digits is at least what any prefix of them spells.
proof fn lemma_digits_prefix_le(d: Seq<char>, k: int)
    requires
        0 <= k <= d.len(),
    ensures
        digits_value(d.take(k)) <= digits_value(d),
    decreases d.len(),
{
    if k < d.len() {
        assert(d.drop_last().take(k) =~= d.take(k));
        lemma_digits_prefix_le(d.drop_last(), k);
    } else {
        assert(d.take(k) =~= d);
    }
}

/// The number that the characters of `v` from `start` to `end` spell; see
/// `parse_u64`.
pub fn parse_u64_at(v: &Vec<char>, start: usize, end: usize) -> (r: Option<u64>)
    requires
        start <= end <= v.len(),
    ensures
        r == parse_u64(v@.subrange(start as int, end as int)),
{
    let ghost s = v@.subrange(start as int, end as int);
    let mut i: usize = start;
    if i < end && v[i] == '+' {
        i = i + 1;
    }
    let ghost d = v@.subrange(i as int, end as int);
    assert(d =~= unsigned_part(s));
    if i == end {
        return None;
    }
    let mut acc: u64 = 0;
    let mut k: usize = i;
    while k < end
        invariant
            start <= i <= k <= end <= v.len(),
            d == v@.subrange(i as int, end as int),
            s == v@.subrange(start as int, end as int),
            d == unsigned_part(s),
            all_digits(v@.subrange(i as int, k as int)),
            acc as nat == digits_value(v@.subrange(i as int, k as int)),
        decreases end - k,
    {
        let c = v[k];
        assert(d[k - i] == c);
        if !('0' <= c && c <= '9') {
            assert(!is_digit(d[k - i]));
            assert(!all_digits(d));
            return None;
        }
        let dg = (c as u32 - '0' as u32) as u64;
        let ghost next = v@.subrange(i as int, k + 1);
        assert(next.drop_last() =~= v@.subrange(i as int, k as int));
        assert(next.last() == c);
        assert(digits_value(next) == acc * 10 + dg);
        if acc > (u64::MAX - dg) / 10 {
            proof {
                assert(digits_value(next) > u64::MAX) by (nonlinear_arith)
                    requires
                        digits_value(next) == acc * 10 + dg,
                        acc > (u64::MAX - dg) / 10,
                        dg <= 9,
                ;
                if all_digits(d) {
                    assert(d.take(k + 1 - i) =~= next);
                    lemma_digits_prefix_le(d, k + 1 - i);
                    assert(digits_value(d) > u64::MAX);
                }
            }
            return None;
        }
        proof {
            assert(acc * 10 + dg <= u64::MAX) by (nonlinear_arith)
                requires
                    acc <= (u64::MAX - dg) / 10,
                    dg <= 9,
            ;
        }
        acc = acc * 10 + dg;
        k = k + 1;
    }
    assert(v@.subrange(i as int, k as int) =~= d);
    Some(acc)
}

/// Whether `line` begins with `p`.
pub fn has_prefix(line: &Vec<char>, p: &Vec<char>) -> (r: bool)
    ensures
        r == starts_with(line@, p@),
{
    if p.len() > line.len() {
        return false;
    }
    let mut k: usize = 0;
    while k < p.len()
        invariant
            p.len() <= line.len(),
            0 <= k <= p.len(),
            line@.take(k as int) == p@.take(k as int),
        decreases p.len() - k,
    {
        if line[k] != p[k] {
            assert(line@.take(p.len() as int)[k as int] != p@[k as int]);
            return false;
        }
        assert(line@.take(k + 1) =~= line@.take(k as int).push(line@[k as int]));
        assert(p@.take(k + 1) =~= p@.take(k as int).push(p@[k as int]));
        k = k + 1;
    }
    assert(p@.take(p.len() as int) =~= p@);
    true
}

/// Whether every character of `s` is white space.
pub open spec fn all_spaces(s: Seq<char>) -> bool {
    forall|i: int| 0 <= i < s.len() ==> is_space(#[trigger] s[i])
}

/// Whether no character of `s` is white space.
pub open spec fn no_spaces(s: Seq<char>) -> bool {
    forall|i: int| 0 <= i < s.len() ==> !is_space(#[trigger] s[i])
}

/// Whether `s` is empty or starts with white space: whether a word that `s`
/// follows ends there.
pub open spec fn ends_word(s: Seq<char>) -> bool {
    s.len() == 0 || is_space(s[0])
}

/// Leading white space is skipped up to the first other character.
pub proof fn lemma_skip_spaces_concat(a: Seq<char>, b: Seq<char>)
    requires
        all_spaces(a),
        b.len() == 0 || !is_space(b[0]),
    ensures
        skip_spaces(a + b) == b,
    decreases a.len(),
{
    if a.len() == 0 {
        assert(a + b =~= b);
    } else {
        assert((a + b).drop_first() =~= a.drop_first() + b);
        lemma_skip_spaces_concat(a.drop_first(), b);
    }
}

/// A run of non-space characters that white space or the end follows is one
/// word.
pub proof fn lemma_word_concat(a: Seq<char>, b: Seq<char>)
    requires
        no_spaces(a),
        ends_word(b),
    ensures
        word(a + b) == a,
        after_word(a + b) == b,
    decreases a.len(),
{
    if a.len() == 0 {
        assert(a + b =~= b);
    } else {
        assert((a + b).drop_first() =~= a.drop_first() + b);
        lemma_word_concat(a.drop_first(), b);
        assert(seq![a[0]] + a.drop_first() =~= a);
    }
}

/// A number after optional white space, with white space or the end after it,
/// is what the first word spells.
pub proof fn lemma_first_word_number(w: Seq<char>, d: Seq<char>, rest: Seq<char>)
    requires
        all_spaces(w),
        d.len() > 0,
        all_digits(d),
        digits_value(d) <= u64::MAX,
        ends_word(rest),
    ensures
        first_word(w + d + rest) == d,
        parse_u64(d) == Some(digits_value(d) as u64),
{
    assert(!is_space(d[0]));
    assert(no_spaces(d)) by {
        assert forall|i: int| 0 <= i < d.len() implies !is_space(#[trigger] d[i]) by {
            assert(is_digit(d[i]));
        }
    }
    assert(w + d + rest =~= w + (d + rest));
    lemma_skip_spaces_concat(w, d + rest);
    lemma_word_concat(d, rest);
    assert(is_digit(d[0]));
}

} // verus!
