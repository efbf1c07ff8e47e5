//! Telling apart records that share a label.
use vstd::prelude::*;
use crate::report::CostRecord;
use crate::text::{decimal, decimal_string, lemma_decimal_injective};

verus! {

/// How many of the first `end` records carry the label `label`.
pub open spec fn label_count(records: Seq<CostRecord>, label: Seq<char>, end: int) -> nat
    decreases end,
{
    if end <= 0 {
        0
    } else {
        label_count(records, label, end - 1) + if records[end - 1].label@ == label {
            1nat
        } else {
            0nat
        }
    }
}

/// The label that record `i` is reported under: its own label when no other
/// record carries it, and otherwise its label followed by `_` and the number
/// of earlier records with the same label (`add_0`, `add_1`, ...).
pub open spec fn distinct_label(records: Seq<CostRecord>, i: int) -> Seq<char> {
    let label = records[i].label@;
    if label_count(records, label, records.len() as int) > 1 {
        label + seq!['_'] + decimal(label_count(records, label, i))
    } else {
        label
    }
}

/// More records never count fewer labels.
pub proof fn lemma_label_count_monotone(records: Seq<CostRecord>, label: Seq<char>, i: int, j: int)
    requires
        0 <= i <= j <= records.len(),
    ensures
        label_count(records, label, i) <= label_count(records, label, j),
    decreases j - i,
{
    if i < j {
        lemma_label_count_monotone(records, label, i, j - 1);
    }
}

/// Records that share a label are reported under different labels.
pub proof fn lemma_shared_labels_are_told_apart(records: Seq<CostRecord>, i: int, j: int)
    requires
        0 <= i < records.len(),
        0 <= j < records.len(),
        i != j,
        records[i].label@ == records[j].label@,
    ensures
        distinct_label(records, i) != distinct_label(records, j),
{
    let label = records[i].label@;
    let (a, b) = if i < j { (i, j) } else { (j, i) };
    lemma_label_count_monotone(records, label, a + 1, b);
    lemma_label_count_monotone(records, label, b + 1, records.len() as int);
    lemma_label_count_monotone(records, label, 0, a);
    assert(label_count(records, label, records.len() as int) > 1);
    let sa = label + seq!['_'] + decimal(label_count(records, label, a));
    let sb = label + seq!['_'] + decimal(label_count(records, label, b));
    if sa == sb {
        assert(sa.subrange(label.len() as int + 1, sa.len() as int) =~= decimal(label_count(records, label, a)));
        assert(sb.subrange(label.len() as int + 1, sb.len() as int) =~= decimal(label_count(records, label, b)));
        lemma_decimal_injective(label_count(records, label, a), label_count(records, label, b));
    }
}

/// A record whose label no other record carries keeps it.
pub proof fn lemma_unique_label_kept(records: Seq<CostRecord>, i: int)
    requires
        0 <= i < records.len(),
        forall|j: int| 0 <= j < records.len() && j != i ==> records[j].label@ != records[i].label@,
    ensures
        distinct_label(records, i) == records[i].label@,
{
    let label = records[i].label@;
    assert forall|e: int| 0 <= e <= records.len() implies label_count(records, label, e) == if e > i {
        1nat
    } else {
        0nat
    } by {
        lemma_count_single(records, i, e);
    }
}

proof fn lemma_count_single(records: Seq<CostRecord>, i: int, e: int)
    requires
        0 <= i < records.len(),
        0 <= e <= records.len(),
        forall|j: int| 0 <= j < records.len() && j != i ==> records[j].label@ != records[i].label@,
    ensures
        label_count(records, records[i].label@, e) == if e > i {
            1nat
        } else {
            0nat
        },
    decreases e,
{
    if e > 0 {
        lemma_count_single(records, i, e - 1);
    }
}

/// How many of the first `end` records carry the label of record `i`.
fn count_label(records: &Vec<CostRecord>, i: usize, end: usize) -> (n: usize)
    requires
        i < records.len(),
        end <= records.len(),
    ensures
        n == label_count(records@, records@[i as int].label@, end as int),
{
    let mut n: usize = 0;
    let mut j: usize = 0;
    while j < end
        invariant
            j <= end <= records.len(),
            i < records.len(),
            n == label_count(records@, records@[i as int].label@, j as int),
            n <= j,
        decreases end - j,
    {
        if records[j].label == records[i].label {
            n = n + 1;
        }
        j = j + 1;
    }
    n
}

/// The records with each label made distinct (see `distinct_label`); all
/// measured quantities are kept and the order is unchanged.
pub fn disambiguate_labels(records: &Vec<CostRecord>) -> (out: Vec<CostRecord>)
    ensures
        out.len() == records.len(),
        forall|i: int| 0 <= i < out.len() ==> (#[trigger] out@[i]).label@ == distinct_label(records@, i),
        forall|i: int|
            0 <= i < out.len() ==> {
                &&& (#[trigger] out@[i]).cpu_instructions == records@[i].cpu_instructions
                &&& out@[i].memory_bytes == records@[i].memory_bytes
                &&& out@[i].read_entries == records@[i].read_entries
                &&& out@[i].read_bytes == records@[i].read_bytes
                &&& out@[i].write_entries == records@[i].write_entries
                &&& out@[i].write_bytes == records@[i].write_bytes
                &&& out@[i].events_size_bytes == records@[i].events_size_bytes
            },
{
    let n = records.len();
    let mut out: Vec<CostRecord> = Vec::new();
    for i in 0..n
        invariant
            n == records.len(),
            out.len() == i,
            forall|k: int| 0 <= k < i ==> (#[trigger] out@[k]).label@ == distinct_label(records@, k),
            forall|k: int|
                0 <= k < i ==> {
                    &&& (#[trigger] out@[k]).cpu_instructions == records@[k].cpu_instructions
                    &&& out@[k].memory_bytes == records@[k].memory_bytes
                    &&& out@[k].read_entries == records@[k].read_entries
                    &&& out@[k].read_bytes == records@[k].read_bytes
                    &&& out@[k].write_entries == records@[k].write_entries
                    &&& out@[k].write_bytes == records@[k].write_bytes
                    &&& out@[k].events_size_bytes == records@[k].events_size_bytes
                },
    {
        let r = &records[i];
        let total = count_label(records, i, n);
        let mut label = r.label.clone();
        assert(label@ == records@[i as int].label@);
        if total > 1 {
            let before = count_label(records, i, i);
            label.append("_");
            let suffix = decimal_string(before as u128);
            label.append(suffix.as_str());
            proof {
                assert("_"@ =~= seq!['_']) by {
                    reveal_strlit("_");
                }
                assert(label@ =~= distinct_label(records@, i as int));
            }
        }
        out.push(
            CostRecord {
                label,
                cpu_instructions: r.cpu_instructions,
                memory_bytes: r.memory_bytes,
                read_entries: r.read_entries,
                read_bytes: r.read_bytes,
                write_entries: r.write_entries,
                write_bytes: r.write_bytes,
                events_size_bytes: r.events_size_bytes,
            },
        );
    }
    out
}

} // verus!
