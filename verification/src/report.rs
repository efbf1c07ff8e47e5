//! Cost records and the terminal report: two colored tables, worst first.
use vstd::prelude::*;
use crate::paint::{paint, severity_text, underline, underlined_text};
use crate::ranking::{is_worst_first, lemma_worst_first_exists, rank_worst_first, ranks_before, worst_first};
use crate::text::{decimal, decimal_string, pad_left, pad_left_string, pad_right, pad_right_string};
use crate::usage::{RecordShares, Share};
use vstd::utf8::encode_utf8;

verus! {

/// A cost record as the report reads it from a test run.
pub struct CostRecord {
    pub label: String,
    pub cpu_instructions: u64,
    pub memory_bytes: u64,
    pub read_entries: u32,
    pub read_bytes: u32,
    pub write_entries: u32,
    pub write_bytes: u32,
    pub events_size_bytes: u32,
}

/// A record together with its shares of the limits.
pub struct ScoredRecord {
    pub record: CostRecord,
    pub shares: RecordShares,
}

/// The terminal report's ranking key of each entry, in order.
pub open spec fn report_keys(entries: Seq<ScoredRecord>) -> Seq<u64> {
    Seq::new(entries.len(), |i: int| entries[i].shares.report_key)
}

/// The HTML report's ranking key of each entry, in order.
pub open spec fn card_keys(entries: Seq<ScoredRecord>) -> Seq<u64> {
    Seq::new(entries.len(), |i: int| entries[i].shares.card_key)
}

fn keys_of(entries: &Vec<ScoredRecord>, cards: bool) -> (keys: Vec<u64>)
    ensures
        keys@ == if cards {
            card_keys(entries@)
        } else {
            report_keys(entries@)
        },
{
    let mut keys: Vec<u64> = Vec::new();
    for i in 0..entries.len()
        invariant
            keys.len() == i,
            forall|k: int|
                0 <= k < i ==> #[trigger] keys@[k] == if cards {
                    entries@[k].shares.card_key
                } else {
                    entries@[k].shares.report_key
                },
    {
        if cards {
            keys.push(entries[i].shares.card_key);
        } else {
            keys.push(entries[i].shares.report_key);
        }
    }
    proof {
        if cards {
            assert(keys@ =~= card_keys(entries@));
        } else {
            assert(keys@ =~= report_keys(entries@));
        }
    }
    keys
}

/// The key that ranks an entry: its card key for the HTML report, its
/// report key for the terminal report.
pub open spec fn key_of(e: ScoredRecord, cards: bool) -> u64 {
    if cards {
        e.shares.card_key
    } else {
        e.shares.report_key
    }
}

/// `order` lists every entry exactly once, by decreasing key (card keys or
/// report keys), entries with equal keys in their input order.
pub open spec fn lists_by_key(entries: Seq<ScoredRecord>, order: Seq<usize>, cards: bool) -> bool {
    &&& order.len() == entries.len()
    &&& forall|k: int| 0 <= k < order.len() ==> #[trigger] order[k] < entries.len()
    &&& forall|x: usize| x < entries.len() ==> #[trigger] order.contains(x)
    &&& forall|a: int, b: int|
        0 <= a < b < order.len() ==> {
            let ka = key_of(entries[#[trigger] order[a] as int], cards);
            let kb = key_of(entries[#[trigger] order[b] as int], cards);
            ka > kb || (ka == kb && order[a] < order[b])
        }
}

proof fn lemma_worst_first_lists_by_key(entries: Seq<ScoredRecord>, order: Seq<usize>, cards: bool)
    requires
        is_worst_first(if cards { card_keys(entries) } else { report_keys(entries) }, order),
    ensures
        lists_by_key(entries, order, cards),
{
    let keys = if cards {
        card_keys(entries)
    } else {
        report_keys(entries)
    };
    assert forall|a: int, b: int| 0 <= a < b < order.len() implies {
        let ka = key_of(entries[#[trigger] order[a] as int], cards);
        let kb = key_of(entries[#[trigger] order[b] as int], cards);
        ka > kb || (ka == kb && order[a] < order[b])
    } by {
        assert(ranks_before(keys, order[a] as int, order[b] as int));
        assert(keys[order[a] as int] == key_of(entries[order[a] as int], cards));
        assert(keys[order[b] as int] == key_of(entries[order[b] as int], cards));
    }
}

/// The card ranking (`worst_first` of the card keys) lists every entry
/// exactly once, by decreasing card key, ties in input order.
pub proof fn lemma_report_order_cards(entries: Seq<ScoredRecord>)
    requires
        entries.len() <= usize::MAX,
    ensures
        lists_by_key(entries, worst_first(card_keys(entries)), true),
{
    let keys = card_keys(entries);
    lemma_worst_first_exists(keys);
    lemma_worst_first_lists_by_key(entries, worst_first(keys), true);
}

/// The terminal report lists every entry exactly once in each table, in the
/// same order in both: by decreasing report key, entries with equal report
/// keys in their input order.
pub proof fn lemma_report_lists_worst_first(entries: Seq<ScoredRecord>)
    requires
        entries.len() <= usize::MAX,
    ensures
        ({
            let order = worst_first(report_keys(entries));
            let w = label_column_width(entries);
            let n = entries.len() as int;
            &&& lists_by_key(entries, order, false)
            &&& report_lines(entries).len() == 2 * n + 3
            &&& forall|k: int|
                0 <= k < n ==> report_lines(entries)[k + 1] == compute_row(
                    entries[#[trigger] order[k] as int],
                    w,
                ) && report_lines(entries)[n + 3 + k] == io_row(entries[order[k] as int], w)
        }),
{
    let keys = report_keys(entries);
    lemma_worst_first_exists(keys);
    lemma_worst_first_lists_by_key(entries, worst_first(keys), false);
}

/// The order in which the terminal report lists `entries`: largest report
/// key first, entries with equal keys in their original order.
pub fn rank_for_report(entries: &Vec<ScoredRecord>) -> (order: Vec<usize>)
    ensures
        is_worst_first(report_keys(entries@), order@),
        order@ == worst_first(report_keys(entries@)),
        lists_by_key(entries@, order@, false),
{
    let keys = keys_of(entries, false);
    let order = rank_worst_first(&keys);
    proof {
        lemma_worst_first_lists_by_key(entries@, order@, false);
    }
    order
}

/// The order in which the HTML report lists `entries`: largest card key
/// first, entries with equal keys in their original order.
pub fn rank_for_cards(entries: &Vec<ScoredRecord>) -> (order: Vec<usize>)
    ensures
        is_worst_first(card_keys(entries@), order@),
        order@ == worst_first(card_keys(entries@)),
        lists_by_key(entries@, order@, true),
{
    let keys = keys_of(entries, true);
    let order = rank_worst_first(&keys);
    proof {
        lemma_worst_first_lists_by_key(entries@, order@, true);
    }
    order
}

/// A share's percentage with its percent sign, in the color of its band.
pub open spec fn colored_percent(s: Share) -> Seq<char> {
    severity_text(s.band, s.percent@.push('%'))
}

/// A share's percentage with a percent sign, colored green, yellow or red by
/// its severity band.
pub fn colorize_percent(s: &Share) -> (text: String)
    ensures
        text@ == colored_percent(*s),
{
    let mut t = s.percent.clone();
    crate::text::push_char(&mut t, '%');
    paint(s.band, t.as_str())
}

/// Byte length of a record's label (as `str::len` gives it).
pub open spec fn label_bytes(e: ScoredRecord) -> nat {
    (encode_utf8(e.record.label@).len() as usize) as nat
}

/// The longest label of `records`, in bytes; 0 for none.
pub open spec fn widest_label(records: Seq<ScoredRecord>) -> nat
    decreases records.len(),
{
    if records.len() == 0 {
        0
    } else {
        let w = widest_label(records.drop_last());
        if label_bytes(records.last()) > w {
            label_bytes(records.last())
        } else {
            w
        }
    }
}

/// Width of the label column: the longest label, and at least 12.
pub open spec fn label_column_width(records: Seq<ScoredRecord>) -> nat {
    if widest_label(records) > 12 {
        widest_label(records)
    } else {
        12
    }
}

proof fn lemma_widest_label_bounds(records: Seq<ScoredRecord>)
    ensures
        forall|i: int| 0 <= i < records.len() ==> widest_label(records) >= label_bytes(#[trigger] records[i]),
        widest_label(records) == 0 || exists|j: int|
            0 <= j < records.len() && widest_label(records) == label_bytes(#[trigger] records[j]),
    decreases records.len(),
{
    if records.len() > 0 {
        let p = records.drop_last();
        lemma_widest_label_bounds(p);
        assert forall|i: int| 0 <= i < records.len() implies widest_label(records) >= label_bytes(
            #[trigger] records[i],
        ) by {
            if i < p.len() {
                assert(records[i] == p[i]);
            }
        }
        if widest_label(records) != 0 {
            if label_bytes(records.last()) > widest_label(p) {
                assert(widest_label(records) == label_bytes(records[records.len() - 1]));
            } else {
                let j = choose|j: int| 0 <= j < p.len() && widest_label(p) == label_bytes(#[trigger] p[j]);
                assert(records[j] == p[j]);
            }
        }
    }
}

/// The label column is as wide as the longest label, in bytes, and at least
/// 12: every label fits, and the width is 12 or the length of some label.
pub proof fn lemma_label_column_fits_longest(records: Seq<ScoredRecord>)
    ensures
        label_column_width(records) >= 12,
        forall|i: int| 0 <= i < records.len() ==> label_column_width(records) >= label_bytes(#[trigger] records[i]),
        label_column_width(records) == 12 || exists|j: int|
            0 <= j < records.len() && label_column_width(records) == label_bytes(#[trigger] records[j]),
{
    lemma_widest_label_bounds(records);
}

/// Header of the compute table.
pub open spec fn compute_header(w: nat) -> Seq<char> {
    "  "@ + underlined_text(pad_right("label"@, w)) + "  "@ + underlined_text(pad_left("cpu"@, 12))
        + "  "@ + underlined_text(pad_left("cpu %"@, 7)) + "  "@ + underlined_text(
        pad_left("mem"@, 12),
    ) + "  "@ + underlined_text(pad_left("mem %"@, 7))
}

/// A record's line in the compute table: CPU instructions and memory bytes,
/// each with its colored share of the limit.
pub open spec fn compute_row(e: ScoredRecord, w: nat) -> Seq<char> {
    let r = e.record;
    "  "@ + pad_right(r.label@, w) + "  "@ + pad_left(decimal(r.cpu_instructions as nat), 12)
        + "  "@ + pad_left(colored_percent(e.shares.cpu), 7) + "  "@ + pad_left(
        decimal(r.memory_bytes as nat),
        12,
    ) + "  "@ + pad_left(colored_percent(e.shares.memory), 7)
}

/// Header of the I/O table.
pub open spec fn io_header(w: nat) -> Seq<char> {
    "  "@ + underlined_text(pad_right("label"@, w)) + "  "@ + underlined_text(
        pad_left("read bytes"@, 12),
    ) + "  "@ + underlined_text(pad_left("rd %"@, 7)) + "  "@ + underlined_text(
        pad_left("wr bytes"@, 12),
    ) + "  "@ + underlined_text(pad_left("wr %"@, 7)) + "  "@ + underlined_text(
        pad_left("events"@, 12),
    ) + "  "@ + underlined_text(pad_left("evt %"@, 7))
}

/// A record's line in the I/O table: disk read bytes, disk write bytes and
/// events size, each with its colored share of the limit.
pub open spec fn io_row(e: ScoredRecord, w: nat) -> Seq<char> {
    let r = e.record;
    "  "@ + pad_right(r.label@, w) + "  "@ + pad_left(decimal(r.read_bytes as nat), 12) + "  "@
        + pad_left(colored_percent(e.shares.reads), 7) + "  "@ + pad_left(
        decimal(r.write_bytes as nat),
        12,
    ) + "  "@ + pad_left(colored_percent(e.shares.writes), 7) + "  "@ + pad_left(
        decimal(r.events_size_bytes as nat),
        12,
    ) + "  "@ + pad_left(colored_percent(e.shares.events), 7)
}

/// The lines of the terminal report: the compute table (header, then one
/// line per record, worst first), an empty line, and the I/O table.
pub open spec fn report_lines(records: Seq<ScoredRecord>) -> Seq<Seq<char>> {
    let order = worst_first(report_keys(records));
    let w = label_column_width(records);
    seq![compute_header(w)] + Seq::new(
        records.len(),
        |k: int| compute_row(records[order[k] as int], w),
    ) + seq![Seq::<char>::empty(), io_header(w)] + Seq::new(
        records.len(),
        |k: int| io_row(records[order[k] as int], w),
    )
}

/// Width of the label column for `records` (see `label_column_width`).
pub fn label_width(records: &Vec<ScoredRecord>) -> (w: usize)
    ensures
        w == label_column_width(records@),
        w >= 12,
        forall|i: int|
            0 <= i < records.len() ==> w >= (encode_utf8(#[trigger] records@[i].record.label@).len() as usize),
        w == 12 || exists|j: int|
            0 <= j < records.len() && w == (encode_utf8(#[trigger] records@[j].record.label@).len() as usize),
{
    let mut widest: usize = 0;
    for i in 0..records.len()
        invariant
            widest == widest_label(records@.subrange(0, i as int)),
    {
        let b = records[i].record.label.as_str().len();
        proof {
            assert(records@.subrange(0, i + 1).drop_last() =~= records@.subrange(0, i as int));
        }
        if b > widest {
            widest = b;
        }
    }
    proof {
        assert(records@.subrange(0, records.len() as int) =~= records@);
        lemma_label_column_fits_longest(records@);
    }
    if widest > 12 {
        widest
    } else {
        12
    }
}

fn append_underlined(line: &mut String, text: &str)
    ensures
        final(line)@ == old(line)@ + "  "@ + underlined_text(text@),
{
    line.append("  ");
    let u = underline(text);
    line.append(u.as_str());
}

fn append_left(line: &mut String, text: &str, w: usize)
    ensures
        final(line)@ == old(line)@ + "  "@ + pad_right(text@, w as nat),
{
    line.append("  ");
    let p = pad_right_string(text, w);
    line.append(p.as_str());
}

fn append_right(line: &mut String, text: &str, w: usize)
    ensures
        final(line)@ == old(line)@ + "  "@ + pad_left(text@, w as nat),
{
    line.append("  ");
    let p = pad_left_string(text, w);
    line.append(p.as_str());
}

fn append_amount(line: &mut String, amount: u64)
    ensures
        final(line)@ == old(line)@ + "  "@ + pad_left(decimal(amount as nat), 12),
{
    let d = decimal_string(amount as u128);
    append_right(line, d.as_str(), 12);
}

fn append_percent(line: &mut String, s: &Share)
    ensures
        final(line)@ == old(line)@ + "  "@ + pad_left(colored_percent(*s), 7),
{
    let c = colorize_percent(s);
    append_right(line, c.as_str(), 7);
}

/// The header line of the compute table for a label column of width `w`.
pub fn compute_header_line(w: usize) -> (line: String)
    ensures
        line@ == compute_header(w as nat),
{
    let mut line = String::new();
    line.append("  ");
    let label = pad_right_string("label", w);
    line.append(underline(label.as_str()).as_str());
    let cpu = pad_left_string("cpu", 12);
    append_underlined(&mut line, cpu.as_str());
    let cpu_pct = pad_left_string("cpu %", 7);
    append_underlined(&mut line, cpu_pct.as_str());
    let mem = pad_left_string("mem", 12);
    append_underlined(&mut line, mem.as_str());
    let mem_pct = pad_left_string("mem %", 7);
    append_underlined(&mut line, mem_pct.as_str());
    proof {
        assert(line@ =~= compute_header(w as nat));
    }
    line
}

/// The line of `e` in the compute table.
pub fn compute_row_line(e: &ScoredRecord, w: usize) -> (line: String)
    ensures
        line@ == compute_row(*e, w as nat),
{
    let r = &e.record;
    let mut line = String::new();
    append_left(&mut line, r.label.as_str(), w);
    append_amount(&mut line, r.cpu_instructions);
    append_percent(&mut line, &e.shares.cpu);
    append_amount(&mut line, r.memory_bytes);
    append_percent(&mut line, &e.shares.memory);
    proof {
        assert(line@ =~= compute_row(*e, w as nat));
    }
    line
}

/// The header line of the I/O table for a label column of width `w`.
pub fn io_header_line(w: usize) -> (line: String)
    ensures
        line@ == io_header(w as nat),
{
    let mut line = String::new();
    line.append("  ");
    let label = pad_right_string("label", w);
    line.append(underline(label.as_str()).as_str());
    let rd = pad_left_string("read bytes", 12);
    append_underlined(&mut line, rd.as_str());
    let rd_pct = pad_left_string("rd %", 7);
    append_underlined(&mut line, rd_pct.as_str());
    let wr = pad_left_string("wr bytes", 12);
    append_underlined(&mut line, wr.as_str());
    let wr_pct = pad_left_string("wr %", 7);
    append_underlined(&mut line, wr_pct.as_str());
    let ev = pad_left_string("events", 12);
    append_underlined(&mut line, ev.as_str());
    let ev_pct = pad_left_string("evt %", 7);
    append_underlined(&mut line, ev_pct.as_str());
    proof {
        assert(line@ =~= io_header(w as nat));
    }
    line
}

/// The line of `e` in the I/O table.
pub fn io_row_line(e: &ScoredRecord, w: usize) -> (line: String)
    ensures
        line@ == io_row(*e, w as nat),
{
    let r = &e.record;
    let mut line = String::new();
    append_left(&mut line, r.label.as_str(), w);
    append_amount(&mut line, r.read_bytes as u64);
    append_percent(&mut line, &e.shares.reads);
    append_amount(&mut line, r.write_bytes as u64);
    append_percent(&mut line, &e.shares.writes);
    append_amount(&mut line, r.events_size_bytes as u64);
    append_percent(&mut line, &e.shares.events);
    proof {
        assert(line@ =~= io_row(*e, w as nat));
    }
    line
}

/// The terminal report for `records`, line by line (see `report_lines`):
/// records are listed worst first in both tables.
pub fn terminal_report(records: &Vec<ScoredRecord>) -> (lines: Vec<String>)
    ensures
        lines.len() == report_lines(records@).len(),
        forall|k: int| 0 <= k < lines.len() ==> #[trigger] lines@[k]@ == report_lines(records@)[k],
{
    let n = records.len();
    let order = rank_for_report(records);
    let w = label_width(records);
    let ghost spec_lines = report_lines(records@);
    let mut lines: Vec<String> = Vec::new();
    lines.push(compute_header_line(w));
    for k in 0..n
        invariant
            n == records.len(),
            order@ == worst_first(report_keys(records@)),
            is_worst_first(report_keys(records@), order@),
            w == label_column_width(records@),
            spec_lines == report_lines(records@),
            lines.len() == k + 1,
            forall|j: int| 0 <= j < lines.len() ==> #[trigger] lines@[j]@ == spec_lines[j],
    {
        assert(order[k as int] < n);
        lines.push(compute_row_line(&records[order[k]], w));
    }
    lines.push(String::new());
    lines.push(io_header_line(w));
    for k in 0..n
        invariant
            n == records.len(),
            order@ == worst_first(report_keys(records@)),
            is_worst_first(report_keys(records@), order@),
            w == label_column_width(records@),
            spec_lines == report_lines(records@),
            lines.len() == n + 3 + k,
            forall|j: int| 0 <= j < lines.len() ==> #[trigger] lines@[j]@ == spec_lines[j],
    {
        assert(order[k as int] < n);
        lines.push(io_row_line(&records[order[k]], w));
    }
    lines
}

} // verus!
