//! Choosing what the monitor shows: the processes with the most resident
//! memory, largest first.
use vstd::prelude::*;

use crate::process::ProcessRecord;

verus! {

/// `s` with `p` placed before the first record whose resident memory is at
/// most `p`'s.
pub open spec fn insert_by_memory(s: Seq<ProcessRecord>, p: ProcessRecord) -> Seq<ProcessRecord>
    decreases s.len(),
{
    if s.len() == 0 || s[0].resident_kb <= p.resident_kb {
        seq![p] + s
    } else {
        seq![s[0]] + insert_by_memory(s.drop_first(), p)
    }
}

/// `s` ordered by resident memory from largest down. The order is stable:
/// records with equal memory keep the order they have in `s`.
pub open spec fn sorted_by_memory(s: Seq<ProcessRecord>) -> Seq<ProcessRecord>
    decreases s.len(),
{
    if s.len() == 0 {
        s
    } else {
        insert_by_memory(sorted_by_memory(s.drop_first()), s[0])
    }
}

/// The smaller of `a` and `b`.
pub open spec fn min_nat(a: nat, b: nat) -> nat {
    if a <= b {
        a
    } else {
        b
    }
}

/// Inserting at the first place whose record has at most `p`'s memory.
proof fn lemma_insert_at(s: Seq<ProcessRecord>, p: ProcessRecord, j: int)
    requires
        0 <= j <= s.len(),
        forall|i: int| 0 <= i < j ==> #[trigger] s[i].resident_kb > p.resident_kb,
        j == s.len() || s[j].resident_kb <= p.resident_kb,
    ensures
        insert_by_memory(s, p) == s.insert(j, p),
    decreases s.len(),
{
    if j == 0 {
        assert(seq![p] + s =~= s.insert(0, p));
    } else {
        lemma_insert_at(s.drop_first(), p, j - 1);
        assert(seq![s[0]] + s.drop_first().insert(j - 1, p) =~= s.insert(j, p));
    }
}

/// Whether `s` is ordered by resident memory from largest down.
pub open spec fn is_descending(s: Seq<ProcessRecord>) -> bool {
    forall|i: int, j: int|
        0 <= i < j < s.len() ==> #[trigger] s[i].resident_kb >= #[trigger] s[j].resident_kb
}

/// Inserting keeps the records, adds `p`, and keeps the order descending.
proof fn lemma_insert_by_memory(s: Seq<ProcessRecord>, p: ProcessRecord)
    ensures
        insert_by_memory(s, p).len() == s.len() + 1,
        insert_by_memory(s, p).to_multiset() == s.to_multiset().insert(p),
        insert_by_memory(s, p)[0] == p || (s.len() > 0 && insert_by_memory(s, p)[0] == s[0]),
        is_descending(s) ==> is_descending(insert_by_memory(s, p)),
    decreases s.len(),
{
    broadcast use vstd::seq_lib::to_multiset_insert;

    let r = insert_by_memory(s, p);
    if s.len() == 0 || s[0].resident_kb <= p.resident_kb {
        assert(r =~= s.insert(0, p));
    } else {
        let rest = s.drop_first();
        let x = insert_by_memory(rest, p);
        lemma_insert_by_memory(rest, p);
        assert(r =~= x.insert(0, s[0]));
        assert(s =~= rest.insert(0, s[0]));
        assert(r.to_multiset() =~= s.to_multiset().insert(p));
        if is_descending(s) {
            assert forall|i: int, j: int| 0 <= i < j < r.len() implies #[trigger] r[i].resident_kb
                >= #[trigger] r[j].resident_kb by {
                if i == 0 {
                    assert(x[0].resident_kb <= s[0].resident_kb);
                    if j > 1 {
                        assert(x[0].resident_kb >= x[j - 1].resident_kb);
                    }
                } else {
                    assert(x[i - 1].resident_kb >= x[j - 1].resident_kb);
                }
            }
        }
    }
}

/// Ordering by memory keeps every record, as often as it occurs, and orders
/// them from the largest resident memory down.
pub proof fn lemma_sorted_by_memory(s: Seq<ProcessRecord>)
    ensures
        sorted_by_memory(s).len() == s.len(),
        sorted_by_memory(s).to_multiset() == s.to_multiset(),
        is_descending(sorted_by_memory(s)),
    decreases s.len(),
{
    broadcast use vstd::seq_lib::to_multiset_insert;

    if s.len() > 0 {
        lemma_sorted_by_memory(s.drop_first());
        lemma_insert_by_memory(sorted_by_memory(s.drop_first()), s[0]);
        assert(s =~= s.drop_first().insert(0, s[0]));
    }
}

/// The rows shown for a count `n` are `min(n, |s|)` records of `s`, ordered
/// from the largest resident memory down, and no record left out has more
/// memory than any record shown.
pub proof fn lemma_top_processes(s: Seq<ProcessRecord>, n: nat)
    ensures
        ({
            let all = sorted_by_memory(s);
            let k = min_nat(n, s.len()) as int;
            &&& all.take(k).len() == k
            &&& is_descending(all.take(k))
            &&& all.to_multiset() == s.to_multiset()
            &&& forall|i: int, j: int|
                0 <= i < k <= j < s.len() ==> #[trigger] all[i].resident_kb
                    >= #[trigger] all[j].resident_kb
        }),
{
    lemma_sorted_by_memory(s);
}

/// Sorts records by resident memory, largest first, keeping the order of
/// records with equal memory.
pub fn sort_by_memory(procs: Vec<ProcessRecord>) -> (r: Vec<ProcessRecord>)
    ensures
        r@ == sorted_by_memory(procs@),
{
    let ghost all = procs@;
    let mut rest = procs;
    let mut out: Vec<ProcessRecord> = Vec::new();
    assert(all.skip(all.len() as int) =~= Seq::<ProcessRecord>::empty());
    while rest.len() > 0
        invariant
            rest@ == all.take(rest.len() as int),
            rest.len() <= all.len(),
            out@ == sorted_by_memory(all.skip(rest.len() as int)),
        decreases rest.len(),
    {
        let p = rest.pop().unwrap();
        let ghost tail = all.skip(rest.len() as int);
        assert(tail.drop_first() =~= all.skip(rest.len() + 1));
        assert(tail[0] == p);
        assert(rest@ =~= all.take(rest.len() as int));
        let mut j: usize = 0;
        while j < out.len() && out[j].resident_kb > p.resident_kb
            invariant
                0 <= j <= out.len(),
                forall|i: int| 0 <= i < j ==> #[trigger] out@[i].resident_kb > p.resident_kb,
            decreases out.len() - j,
        {
            j = j + 1;
        }
        proof {
            lemma_insert_at(out@, p, j as int);
        }
        out.insert(j, p);
    }
    assert(all.skip(0) =~= all);
    out
}

/// The `n` records with the most resident memory, largest first; all of them
/// where there are fewer than `n`. Records with equal memory keep their order.
pub fn top_processes(procs: Vec<ProcessRecord>, n: usize) -> (r: Vec<ProcessRecord>)
    ensures
        r@ == sorted_by_memory(procs@).take(min_nat(n as nat, procs@.len()) as int),
{
    let ghost all = procs@;
    let mut sorted = sort_by_memory(procs);
    proof {
        lemma_sorted_by_memory(all);
    }
    sorted.truncate(n);
    assert(sorted@ =~= sorted_by_memory(all).take(min_nat(n as nat, all.len()) as int));
    sorted
}

} // verus!
