//! The self-contained HTML reports: no external assets, no scripts.
use vstd::prelude::*;
use crate::report::{
    card_keys, lemma_report_order_cards, lists_by_key, rank_for_cards, CostRecord, ScoredRecord,
};
use crate::ranking::{is_worst_first, worst_first};
use crate::text::{all_digits, decimal, decimal_string, digits_value, lemma_decimal_reads_back, push_char};
use crate::usage::{Severity, Share};

verus! {

/// Everything of the card report that comes before the cards.
pub const CARD_REPORT_HEAD: &'static str = r#"<!DOCTYPE html>
<html lang="en">
<head>
<meta charset="utf-8">
<meta name="viewport" content="width=device-width, initial-scale=1">
<title>Soroban Cost Report</title>
<style>
  * { margin: 0; padding: 0; box-sizing: border-box; }
  body {
    font-family: system-ui, -apple-system, sans-serif;
    background: #0f1117;
    color: #e1e4e8;
    padding: 2rem;
  }
  h1 {
    font-size: 1.5rem;
    font-weight: 600;
    margin-bottom: 1.5rem;
    color: #f0f6fc;
  }
  .card {
    background: #161b22;
    border: 1px solid #30363d;
    border-radius: 8px;
    padding: 1.25rem 1.5rem;
    margin-bottom: 1rem;
  }
  .card h2 {
    font-size: 1rem;
    font-weight: 600;
    margin-bottom: 0.75rem;
    color: #f0f6fc;
  }
  .stat {
    display: flex;
    align-items: baseline;
    gap: 0.5rem;
    margin-bottom: 0.35rem;
  }
  .stat-label {
    font-size: 0.8rem;
    color: #8b949e;
    min-width: 10rem;
  }
  .stat-value {
    font-size: 0.85rem;
    font-variant-numeric: tabular-nums;
    color: #c9d1d9;
  }
  .stat-pct {
    font-size: 0.8rem;
    font-weight: 600;
    margin-left: auto;
  }
  .bar-track {
    height: 6px;
    background: #21262d;
    border-radius: 3px;
    margin-bottom: 0.75rem;
    overflow: hidden;
  }
  .bar-fill {
    height: 100%;
    border-radius: 3px;
    transition: width 0.3s ease;
  }
</style>
</head>
<body>
<h1>Soroban Cost Report</h1>
"#;

/// Everything of the card report that comes after the cards.
pub const CARD_REPORT_TAIL: &'static str = r#"
</body>
</html>"#;

/// Everything of the table report that comes before the rows.
pub const TABLE_REPORT_HEAD: &'static str = r#"<!DOCTYPE html>
<html lang="en">
<head>
<meta charset="utf-8">
<title>Soroban Cost Report</title>
<style>
  body { font-family: system-ui, sans-serif; margin: 2rem; }
  table { border-collapse: collapse; }
  th, td { border: 1px solid #ccc; padding: 0.5rem 1rem; text-align: right; }
  th { background: #f5f5f5; text-align: left; }
</style>
</head>
<body>
<h1>Soroban Cost Report</h1>
<table>
<tr><th>label</th><th>cpu_instructions</th><th>memory_bytes</th></tr>
"#;

/// Everything of the table report that comes after the rows.
pub const TABLE_REPORT_TAIL: &'static str = r#"
</table>
</body>
</html>"#;

/// How one character appears in HTML text content: the five characters with
/// a meaning in markup are replaced by entities, any other stays as it is.
pub open spec fn html_escape_char(c: char) -> Seq<char> {
    if c == '&' {
        seq!['&', 'a', 'm', 'p', ';']
    } else if c == '<' {
        seq!['&', 'l', 't', ';']
    } else if c == '>' {
        seq!['&', 'g', 't', ';']
    } else if c == '"' {
        seq!['&', 'q', 'u', 'o', 't', ';']
    } else if c == '\'' {
        seq!['&', '#', '3', '9', ';']
    } else {
        seq![c]
    }
}

/// `s` with every character escaped for HTML text content.
pub open spec fn html_escaped(s: Seq<char>) -> Seq<char>
    decreases s.len(),
{
    if s.len() == 0 {
        Seq::empty()
    } else {
        html_escaped(s.drop_last()) + html_escape_char(s.last())
    }
}

/// A character that opens or closes markup or an attribute value.
pub open spec fn is_markup_char(c: char) -> bool {
    c == '<' || c == '>' || c == '"' || c == '\''
}

/// Escaped text holds no character that could open or close markup or an
/// attribute value.
pub proof fn lemma_escaped_has_no_markup(s: Seq<char>)
    ensures
        forall|k: int| 0 <= k < html_escaped(s).len() ==> !is_markup_char(#[trigger] html_escaped(s)[k]),
    decreases s.len(),
{
    if s.len() > 0 {
        lemma_escaped_has_no_markup(s.drop_last());
        let prev = html_escaped(s.drop_last());
        let last = html_escape_char(s.last());
        assert forall|k: int| 0 <= k < html_escaped(s).len() implies !is_markup_char(
            #[trigger] html_escaped(s)[k],
        ) by {
            if k >= prev.len() {
                assert(html_escaped(s)[k] == last[k - prev.len()]);
            } else {
                assert(html_escaped(s)[k] == prev[k]);
            }
        }
    }
}

/// Text without any of the five special characters is left as it is.
pub proof fn lemma_plain_text_unchanged(s: Seq<char>)
    requires
        forall|k: int|
            0 <= k < s.len() ==> !is_markup_char(#[trigger] s[k]) && s[k] != '&',
    ensures
        html_escaped(s) == s,
    decreases s.len(),
{
    if s.len() > 0 {
        lemma_plain_text_unchanged(s.drop_last());
        assert(s.drop_last().push(s.last()) =~= s);
    }
}

/// Text with the five entities that `html_escaped` writes turned back into
/// their characters, read from the left.
pub open spec fn html_unescaped(t: Seq<char>) -> Seq<char>
    decreases t.len(),
{
    if t.len() == 0 {
        Seq::empty()
    } else if t.len() >= 5 && t.take(5) == seq!['&', 'a', 'm', 'p', ';'] {
        seq!['&'] + html_unescaped(t.skip(5))
    } else if t.len() >= 4 && t.take(4) == seq!['&', 'l', 't', ';'] {
        seq!['<'] + html_unescaped(t.skip(4))
    } else if t.len() >= 4 && t.take(4) == seq!['&', 'g', 't', ';'] {
        seq!['>'] + html_unescaped(t.skip(4))
    } else if t.len() >= 6 && t.take(6) == seq!['&', 'q', 'u', 'o', 't', ';'] {
        seq!['"'] + html_unescaped(t.skip(6))
    } else if t.len() >= 5 && t.take(5) == seq!['&', '#', '3', '9', ';'] {
        seq!['\''] + html_unescaped(t.skip(5))
    } else {
        seq![t[0]] + html_unescaped(t.skip(1))
    }
}

proof fn lemma_escaped_concat(a: Seq<char>, b: Seq<char>)
    ensures
        html_escaped(a + b) == html_escaped(a) + html_escaped(b),
    decreases b.len(),
{
    if b.len() == 0 {
        assert(a + b =~= a);
        assert(html_escaped(a) + html_escaped(b) =~= html_escaped(a));
    } else {
        assert((a + b).drop_last() =~= a + b.drop_last());
        assert((a + b).last() == b.last());
        lemma_escaped_concat(a, b.drop_last());
        assert(html_escaped(a) + html_escaped(b.drop_last()) + html_escape_char(b.last()) =~= html_escaped(a)
            + (html_escaped(b.drop_last()) + html_escape_char(b.last())));
    }
}

proof fn lemma_escaped_first(s: Seq<char>)
    requires
        s.len() > 0,
    ensures
        html_escaped(s) == html_escape_char(s[0]) + html_escaped(s.skip(1)),
{
    assert(s =~= seq![s[0]] + s.skip(1));
    lemma_escaped_concat(seq![s[0]], s.skip(1));
    let one = seq![s[0]];
    assert(one.drop_last() =~= Seq::<char>::empty());
    assert(one.last() == s[0]);
    assert(html_escaped(one.drop_last()).len() == 0);
    assert(html_escaped(one) == html_escaped(one.drop_last()) + html_escape_char(s[0]));
    assert(html_escaped(one) =~= html_escape_char(s[0]));
}

proof fn lemma_unescape_step(c: char, rest: Seq<char>)
    ensures
        html_unescaped(html_escape_char(c) + rest) == seq![c] + html_unescaped(rest),
{
    let t = html_escape_char(c) + rest;
    let e = html_escape_char(c);
    assert(t.take(e.len() as int) =~= e);
    assert(t.skip(e.len() as int) =~= rest);
    assert(t[0] == e[0]);
    if c != '&' && c != '<' && c != '>' && c != '"' && c != '\'' {
        assert(t[0] != '&');
        assert(t.skip(1) =~= rest);
        if t.len() >= 4 {
            assert(t.take(4)[0] != '&');
        }
        if t.len() >= 5 {
            assert(t.take(5)[0] != '&');
        }
        if t.len() >= 6 {
            assert(t.take(6)[0] != '&');
        }
    } else {
        assert(t[1] == e[1]);
        if t.len() >= 4 {
            assert(t.take(4)[1] == e[1]);
        }
        if t.len() >= 5 {
            assert(t.take(5)[1] == e[1]);
        }
        if t.len() >= 6 {
            assert(t.take(6)[1] == e[1]);
        }
    }
}

/// Unescaping gives back what was escaped: nothing is lost in escaping.
pub proof fn lemma_unescape_escaped(s: Seq<char>)
    ensures
        html_unescaped(html_escaped(s)) == s,
    decreases s.len(),
{
    if s.len() > 0 {
        lemma_escaped_first(s);
        lemma_unescape_step(s[0], html_escaped(s.skip(1)));
        lemma_unescape_escaped(s.skip(1));
        assert(seq![s[0]] + s.skip(1) =~= s);
    }
}

/// Different texts are escaped differently.
pub proof fn lemma_escape_injective(a: Seq<char>, b: Seq<char>)
    requires
        html_escaped(a) == html_escaped(b),
    ensures
        a == b,
{
    lemma_unescape_escaped(a);
    lemma_unescape_escaped(b);
}

/// `s` holds one of the five characters that escaping replaces.
pub open spec fn has_special_char(s: Seq<char>) -> bool {
    exists|k: int| 0 <= k < s.len() && (is_markup_char(#[trigger] s[k]) || s[k] == '&')
}

proof fn lemma_escaped_length(s: Seq<char>)
    ensures
        html_escaped(s).len() >= s.len(),
        has_special_char(s) ==> html_escaped(s).len() > s.len(),
        has_special_char(s) ==> has_special_char(html_escaped(s)),
    decreases s.len(),
{
    if s.len() > 0 {
        let p = s.drop_last();
        let c = s.last();
        lemma_escaped_length(p);
        let ep = html_escaped(p);
        let ec = html_escape_char(c);
        assert(html_escaped(s) == ep + ec);
        if has_special_char(s) {
            let k = choose|k: int| 0 <= k < s.len() && (is_markup_char(#[trigger] s[k]) || s[k] == '&');
            if k < p.len() {
                assert(p[k] == s[k]);
                assert(has_special_char(p));
                let j = choose|j: int| 0 <= j < ep.len() && (is_markup_char(#[trigger] ep[j]) || ep[j] == '&');
                assert((ep + ec)[j] == ep[j]);
            } else {
                assert(c == s[k]);
                assert(ec[0] == '&');
                assert((ep + ec)[ep.len() as int] == '&');
            }
        }
    }
}

/// Escaping already escaped text changes it again exactly when the text held
/// a special character: `escape(escape(s)) == escape(s)` holds if and only if
/// `s` holds none of `& < > " '`.
pub proof fn lemma_escape_twice(s: Seq<char>)
    ensures
        html_escaped(html_escaped(s)) == html_escaped(s) <==> !has_special_char(s),
{
    if has_special_char(s) {
        lemma_escaped_length(s);
        lemma_escaped_length(html_escaped(s));
    } else {
        lemma_plain_text_unchanged(s);
    }
}

fn push_entity(out: &mut String, c: char)
    ensures
        final(out)@ == old(out)@ + html_escape_char(c),
{
    if c == '&' {
        out.append("&amp;");
        proof {
            reveal_strlit("&amp;");
        }
    } else if c == '<' {
        out.append("&lt;");
        proof {
            reveal_strlit("&lt;");
        }
    } else if c == '>' {
        out.append("&gt;");
        proof {
            reveal_strlit("&gt;");
        }
    } else if c == '"' {
        out.append("&quot;");
        proof {
            reveal_strlit("&quot;");
        }
    } else if c == '\'' {
        out.append("&#39;");
        proof {
            reveal_strlit("&#39;");
        }
    } else {
        push_char(out, c);
    }
    proof {
        assert(out@ =~= old(out)@ + html_escape_char(c));
    }
}

/// Minimal HTML escape for safe interpolation into HTML text content.
pub fn escape_html(s: &str) -> (out: String)
    ensures
        out@ == html_escaped(s@),
{
    let mut out = String::new();
    for c in it: s.chars()
        invariant
            it.seq() == s@,
            out@ == html_escaped(s@.take(it.index() as int)),
    {
        let ghost i = it.index() as int;
        proof {
            assert(s@.take(i + 1).drop_last() =~= s@.take(i));
            assert(s@.take(i + 1).last() == c);
        }
        push_entity(&mut out, c);
    }
    proof {
        assert(s@.take(s@.len() as int) =~= s@);
    }
    out
}

/// The CSS color of a severity band: green, yellow or red.
pub open spec fn band_color(sev: Severity) -> Seq<char> {
    match sev {
        Severity::Low => "#3fb950"@,
        Severity::Elevated => "#d29922"@,
        Severity::Critical => "#f85149"@,
    }
}

/// The CSS color of the usage bar of a severity band.
pub fn bar_color(band: Severity) -> (color: &'static str)
    ensures
        color@ == band_color(band),
{
    match band {
        Severity::Critical => "#f85149",
        Severity::Elevated => "#d29922",
        Severity::Low => "#3fb950",
    }
}

/// One measured quantity in a card: its name, its value, its percentage of
/// the limit, and a bar of the share's width, both in the color of its band.
pub open spec fn stat_block(name: Seq<char>, value: Seq<char>, share: Share) -> Seq<char> {
    let color = band_color(share.band);
    "      <div class=\"stat\">\n        <span class=\"stat-label\">"@ + name
        + "</span>\n        <span class=\"stat-value\">"@ + value
        + "</span>\n        <span class=\"stat-pct\" style=\"color:"@ + color + "\">"@
        + share.percent@
        + "%</span>\n      </div>\n      <div class=\"bar-track\"><div class=\"bar-fill\" style=\"width:"@
        + share.bar@ + "%;background:"@ + color + "\"></div></div>\n"@
}

/// A value followed by ` bytes`.
pub open spec fn bytes_text(n: nat) -> Seq<char> {
    decimal(n) + " bytes"@
}

/// The card of one record, followed by a line break.
#[verifier::opaque]
pub open spec fn card(e: ScoredRecord) -> Seq<char> {
    let r = e.record;
    "    <div class=\"card\">\n      <h2>"@ + html_escaped(r.label@) + "</h2>\n"@ + stat_block(
        "CPU Instructions"@,
        decimal(r.cpu_instructions as nat),
        e.shares.cpu,
    ) + stat_block("Memory"@, decimal(r.memory_bytes as nat), e.shares.memory) + stat_block(
        "Ledger Reads"@,
        bytes_text(r.read_bytes as nat),
        e.shares.reads,
    ) + stat_block("Ledger Writes"@, bytes_text(r.write_bytes as nat), e.shares.writes)
        + stat_block("Events Size"@, bytes_text(r.events_size_bytes as nat), e.shares.events)
        + "    </div>"@ + "\n"@
}

/// The cards of the entries listed by the first `k` entries of `order`.
pub open spec fn cards(records: Seq<ScoredRecord>, order: Seq<usize>, k: int) -> Seq<char>
    decreases k,
{
    if k <= 0 {
        Seq::empty()
    } else {
        cards(records, order, k - 1) + card(records[order[k - 1] as int])
    }
}

/// The card report: one card per record, worst first by card key.
pub open spec fn card_report(records: Seq<ScoredRecord>) -> Seq<char> {
    CARD_REPORT_HEAD@ + cards(records, worst_first(card_keys(records)), records.len() as int)
        + CARD_REPORT_TAIL@
}

/// The card report holds one card per entry, each entry exactly once, by
/// decreasing card key, entries with equal card keys in their input order.
pub proof fn lemma_cards_list_worst_first(records: Seq<ScoredRecord>)
    requires
        records.len() <= usize::MAX,
    ensures
        ({
            let order = worst_first(card_keys(records));
            &&& lists_by_key(records, order, true)
            &&& card_report(records) == CARD_REPORT_HEAD@ + cards(records, order, records.len() as int)
                + CARD_REPORT_TAIL@
        }),
{
    lemma_report_order_cards(records);
}

fn append_stat(out: &mut String, name: &str, value: &str, share: &Share)
    ensures
        final(out)@ == old(out)@ + stat_block(name@, value@, *share),
{
    let color = bar_color(share.band);
    out.append("      <div class=\"stat\">\n        <span class=\"stat-label\">");
    out.append(name);
    out.append("</span>\n        <span class=\"stat-value\">");
    out.append(value);
    out.append("</span>\n        <span class=\"stat-pct\" style=\"color:");
    out.append(color);
    out.append("\">");
    out.append(share.percent.as_str());
    out.append("%</span>\n      </div>\n      <div class=\"bar-track\"><div class=\"bar-fill\" style=\"width:");
    out.append(share.bar.as_str());
    out.append("%;background:");
    out.append(color);
    out.append("\"></div></div>\n");
    proof {
        assert(out@ =~= old(out)@ + stat_block(name@, value@, *share));
    }
}

fn bytes_string(n: u64) -> (s: String)
    ensures
        s@ == bytes_text(n as nat),
{
    let mut s = decimal_string(n as u128);
    s.append(" bytes");
    s
}

/// Appends the card of `e` to `out`.
fn append_card(out: &mut String, e: &ScoredRecord)
    ensures
        final(out)@ == old(out)@ + card(*e),
{
    let r = &e.record;
    out.append("    <div class=\"card\">\n      <h2>");
    let label = escape_html(r.label.as_str());
    out.append(label.as_str());
    out.append("</h2>\n");
    let cpu = decimal_string(r.cpu_instructions as u128);
    append_stat(out, "CPU Instructions", cpu.as_str(), &e.shares.cpu);
    let mem = decimal_string(r.memory_bytes as u128);
    append_stat(out, "Memory", mem.as_str(), &e.shares.memory);
    let rd = bytes_string(r.read_bytes as u64);
    append_stat(out, "Ledger Reads", rd.as_str(), &e.shares.reads);
    let wr = bytes_string(r.write_bytes as u64);
    append_stat(out, "Ledger Writes", wr.as_str(), &e.shares.writes);
    let ev = bytes_string(r.events_size_bytes as u64);
    append_stat(out, "Events Size", ev.as_str(), &e.shares.events);
    out.append("    </div>");
    out.append("\n");
    proof {
        reveal(card);
        assert(out@ =~= old(out)@ + card(*e));
    }
}

/// The self-contained HTML card report for `records`, worst first (see
/// `card_report`).
pub fn html_report(records: &Vec<ScoredRecord>) -> (html: String)
    ensures
        html@ == card_report(records@),
{
    let order = rank_for_cards(records);
    let mut html = String::new();
    html.append(CARD_REPORT_HEAD);
    let n = records.len();
    for k in 0..n
        invariant
            n == records.len(),
            order@ == worst_first(card_keys(records@)),
            is_worst_first(card_keys(records@), order@),
            html@ == CARD_REPORT_HEAD@ + cards(records@, order@, k as int),
    {
        assert(order[k as int] < n);
        append_card(&mut html, &records[order[k]]);
        proof {
            assert(html@ =~= CARD_REPORT_HEAD@ + cards(records@, order@, k + 1));
        }
    }
    html.append(CARD_REPORT_TAIL);
    html
}

/// One row of the table report: label, CPU instructions and memory bytes,
/// the label escaped for HTML text content (so that no label can add markup
/// to the self-contained page).
pub open spec fn table_row(r: CostRecord) -> Seq<char> {
    "<tr><td>"@ + html_escaped(r.label@) + "</td><td>"@ + decimal(r.cpu_instructions as nat) + "</td><td>"@
        + decimal(r.memory_bytes as nat) + "</td></tr>\n"@
}

/// The rows of the first `k` records.
pub open spec fn table_rows(records: Seq<CostRecord>, k: int) -> Seq<char>
    decreases k,
{
    if k <= 0 {
        Seq::empty()
    } else {
        table_rows(records, k - 1) + table_row(records[k - 1])
    }
}

/// Each row of the table report shows the record's label, escaped, then its
/// CPU instructions and its memory bytes in full: each cell is a string of
/// digits that reads back as the record's value.
pub proof fn lemma_table_row_cells(r: CostRecord)
    ensures
        exists|cpu: Seq<char>, mem: Seq<char>|
            #![trigger digits_value(cpu), digits_value(mem)]
            {
                &&& table_row(r) == "<tr><td>"@ + html_escaped(r.label@) + "</td><td>"@ + cpu
                    + "</td><td>"@ + mem + "</td></tr>\n"@
                &&& cpu.len() >= 1 && all_digits(cpu) && digits_value(cpu) == r.cpu_instructions
                &&& mem.len() >= 1 && all_digits(mem) && digits_value(mem) == r.memory_bytes
            },
{
    let cpu = decimal(r.cpu_instructions as nat);
    let mem = decimal(r.memory_bytes as nat);
    lemma_decimal_reads_back(r.cpu_instructions as nat);
    lemma_decimal_reads_back(r.memory_bytes as nat);
    assert(digits_value(cpu) == r.cpu_instructions && digits_value(mem) == r.memory_bytes);
}

/// The table report: one row per record, in the order given.
pub open spec fn table_report(records: Seq<CostRecord>) -> Seq<char> {
    TABLE_REPORT_HEAD@ + table_rows(records, records.len() as int) + TABLE_REPORT_TAIL@
}

/// The self-contained HTML table report for `records` (see `table_report`).
pub fn html_table_report(records: &Vec<CostRecord>) -> (html: String)
    ensures
        html@ == table_report(records@),
{
    let mut html = String::new();
    html.append(TABLE_REPORT_HEAD);
    let n = records.len();
    for k in 0..n
        invariant
            n == records.len(),
            html@ == TABLE_REPORT_HEAD@ + table_rows(records@, k as int),
    {
        let r = &records[k];
        html.append("<tr><td>");
        let label = escape_html(r.label.as_str());
        html.append(label.as_str());
        html.append("</td><td>");
        let cpu = decimal_string(r.cpu_instructions as u128);
        html.append(cpu.as_str());
        html.append("</td><td>");
        let mem = decimal_string(r.memory_bytes as u128);
        html.append(mem.as_str());
        html.append("</td></tr>\n");
        proof {
            assert(html@ =~= TABLE_REPORT_HEAD@ + table_rows(records@, k + 1));
        }
    }
    html.append(TABLE_REPORT_TAIL);
    html
}

} // verus!
