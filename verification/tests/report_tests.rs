use owo_colors::OwoColorize;
use soroban_cost::labels::disambiguate_labels;
use soroban_cost::limits::SorobanLimits;
use soroban_cost::paint::{paint, underline};
use soroban_cost::report::{
    colorize_percent, label_width, rank_for_cards, rank_for_report, terminal_report, CostRecord, ScoredRecord,
};
use soroban_cost::usage::{RecordShares, Severity, Share};

fn band(pct: f64) -> Severity {
    if pct > 85.0 {
        Severity::Critical
    } else if pct >= 60.0 {
        Severity::Elevated
    } else {
        Severity::Low
    }
}

fn share(used: u64, limit: u64) -> Share {
    let pct = used as f64 / limit as f64 * 100.0;
    Share { percent: format!("{pct:.1}"), band: band(pct), bar: format!("{:.1}", pct.min(100.0)) }
}

fn rank_key(values: [f64; 5]) -> u64 {
    let m = values.iter().copied().fold(f64::NEG_INFINITY, f64::max);
    if m == f64::NEG_INFINITY {
        0
    } else {
        m.to_bits() + 1
    }
}

/// The record with its f64 shares, as the command-line program computes them.
fn score(record: CostRecord, limits: &SorobanLimits) -> ScoredRecord {
    let dims = [
        (record.cpu_instructions, limits.max_cpu_instructions),
        (record.memory_bytes, limits.max_memory_bytes),
        (record.read_bytes as u64, limits.max_disk_read_bytes),
        (record.write_bytes as u64, limits.max_disk_write_bytes),
        (record.events_size_bytes as u64, limits.max_events_return_bytes),
    ];
    let fractions = dims.map(|(used, limit)| used as f64 / limit as f64);
    let percents = fractions.map(|f| f * 100.0);
    let shares = RecordShares {
        cpu: share(dims[0].0, dims[0].1),
        memory: share(dims[1].0, dims[1].1),
        reads: share(dims[2].0, dims[2].1),
        writes: share(dims[3].0, dims[3].1),
        events: share(dims[4].0, dims[4].1),
        report_key: rank_key(percents),
        card_key: rank_key(fractions),
    };
    ScoredRecord { record, shares }
}

fn score_all(records: Vec<CostRecord>, limits: &SorobanLimits) -> Vec<ScoredRecord> {
    records.into_iter().map(|r| score(r, limits)).collect()
}

fn rec(label: &str, cpu: u64, mem: u64, rd: u32, wr: u32, ev: u32) -> CostRecord {
    CostRecord {
        label: label.to_string(),
        cpu_instructions: cpu,
        memory_bytes: mem,
        read_entries: 1,
        read_bytes: rd,
        write_entries: 1,
        write_bytes: wr,
        events_size_bytes: ev,
    }
}

fn float_colorize(pct: f64) -> String {
    let s = format!("{pct:.1}%");
    if pct > 85.0 {
        s.red().to_string()
    } else if pct >= 60.0 {
        s.yellow().to_string()
    } else {
        s.green().to_string()
    }
}

fn pcts(r: &CostRecord, l: &SorobanLimits) -> [f64; 5] {
    [
        r.cpu_instructions as f64 / l.max_cpu_instructions as f64 * 100.0,
        r.memory_bytes as f64 / l.max_memory_bytes as f64 * 100.0,
        r.read_bytes as f64 / l.max_disk_read_bytes as f64 * 100.0,
        r.write_bytes as f64 / l.max_disk_write_bytes as f64 * 100.0,
        r.events_size_bytes as f64 / l.max_events_return_bytes as f64 * 100.0,
    ]
}

/// The report as a float computation with `format!` prints it.
fn float_report(records: &[CostRecord], l: &SorobanLimits) -> Vec<String> {
    let mut entries: Vec<(&CostRecord, [f64; 5])> = records.iter().map(|r| (r, pcts(r, l))).collect();
    entries.sort_by(|a, b| {
        let a_max = a.1.iter().copied().fold(f64::NEG_INFINITY, f64::max);
        let b_max = b.1.iter().copied().fold(f64::NEG_INFINITY, f64::max);
        b_max.partial_cmp(&a_max).unwrap_or(std::cmp::Ordering::Equal)
    });
    let w = entries.iter().map(|(r, _)| r.label.len()).max().unwrap_or(6).max(12);
    let mut lines = Vec::new();
    lines.push(format!(
        "  {:<w$}  {:>12}  {:>7}  {:>12}  {:>7}",
        "label".underline(),
        "cpu".underline(),
        "cpu %".underline(),
        "mem".underline(),
        "mem %".underline(),
    ));
    for (r, p) in &entries {
        lines.push(format!(
            "  {:<w$}  {:>12}  {:>7}  {:>12}  {:>7}",
            r.label,
            r.cpu_instructions,
            float_colorize(p[0]),
            r.memory_bytes,
            float_colorize(p[1]),
        ));
    }
    lines.push(String::new());
    lines.push(format!(
        "  {:<w$}  {:>12}  {:>7}  {:>12}  {:>7}  {:>12}  {:>7}",
        "label".underline(),
        "read bytes".underline(),
        "rd %".underline(),
        "wr bytes".underline(),
        "wr %".underline(),
        "events".underline(),
        "evt %".underline(),
    ));
    for (r, p) in &entries {
        lines.push(format!(
            "  {:<w$}  {:>12}  {:>7}  {:>12}  {:>7}  {:>12}  {:>7}",
            r.label,
            r.read_bytes,
            float_colorize(p[2]),
            r.write_bytes,
            float_colorize(p[3]),
            r.events_size_bytes,
            float_colorize(p[4]),
        ));
    }
    lines
}

fn samples() -> Vec<CostRecord> {
    vec![
        rec("mint", 38101, 17151, 120, 80, 0),
        rec("batch_transfer", 99_609_001, 75223, 1024, 2048, 16),
        rec("transfer", 69441, 28032, 150_000, 90, 10),
        rec("swap", 69443, 28040, 300, 120_000, 12_000),
    ]
}

#[test]
fn terminal_report_matches_float_formatting() {
    let limits = SorobanLimits::default();
    let records = samples();
    let expected = float_report(&records, &limits);
    let lines = terminal_report(&score_all(records, &limits));
    assert_eq!(lines.len(), 2 * 4 + 3);
    assert_eq!(lines, expected);
}

#[test]
fn terminal_report_of_nothing_has_headers_only() {
    let limits = SorobanLimits::default();
    let lines = terminal_report(&Vec::new());
    assert_eq!(lines, float_report(&[], &limits));
    assert_eq!(lines.len(), 3);
}

#[test]
fn worst_first_ranking() {
    let limits = SorobanLimits::default();
    let order = rank_for_report(&score_all(samples(), &limits));
    // batch_transfer ~99.6% cpu, swap ~88.8% writes, transfer ~73.2% reads, mint lowest.
    assert_eq!(order, vec![1, 3, 2, 0]);
}

#[test]
fn ranking_is_stable_for_equal_shares() {
    let limits = SorobanLimits::default();
    let records = vec![
        rec("a", 10, 0, 0, 0, 0),
        rec("b", 20, 0, 0, 0, 0),
        rec("c", 10, 0, 0, 0, 0),
        rec("d", 20, 0, 0, 0, 0),
    ];
    assert_eq!(rank_for_report(&score_all(records, &limits)), vec![1, 3, 0, 2]);
}

#[test]
fn ranking_with_zero_limits() {
    let limits = SorobanLimits {
        max_cpu_instructions: 0,
        max_memory_bytes: 100,
        max_disk_read_bytes: 100,
        max_disk_write_bytes: 100,
        max_tx_size_bytes: 100,
        max_events_return_bytes: 100,
    };
    let records = vec![rec("none", 0, 5, 0, 0, 0), rec("unbounded", 1, 0, 0, 0, 0), rec("half", 0, 50, 0, 0, 0)];
    let scored = score_all(records, &limits);
    assert_eq!(rank_for_report(&scored), vec![1, 2, 0]);
    let lines = terminal_report(&scored);
    assert!(lines[1].contains("inf%"));
    assert!(lines[3].contains("NaN%"));
}

#[test]
fn label_column_width() {
    let limits = SorobanLimits::default();
    assert_eq!(label_width(&Vec::new()), 12);
    assert_eq!(label_width(&score_all(vec![rec("short", 0, 0, 0, 0, 0)], &limits)), 12);
    assert_eq!(label_width(&score_all(vec![rec("a_rather_long_label", 0, 0, 0, 0, 0)], &limits)), 19);
    // Bytes, not characters.
    assert_eq!(label_width(&score_all(vec![rec("ééééééééé", 0, 0, 0, 0, 0)], &limits)), 18);
}

#[test]
fn colors_come_from_owo_colors() {
    assert_eq!(paint(Severity::Critical, "x"), "x".red().to_string());
    assert_eq!(paint(Severity::Elevated, "x"), "x".yellow().to_string());
    assert_eq!(paint(Severity::Low, "x"), "x".green().to_string());
    assert_eq!(underline("label"), "label".underline().to_string());
    assert_eq!(paint(Severity::Critical, "x"), "\x1b[31mx\x1b[39m");
    assert_eq!(colorize_percent(&share(90, 100)), "\x1b[31m90.0%\x1b[39m");
    assert_eq!(colorize_percent(&share(60, 100)), "\x1b[33m60.0%\x1b[39m");
    assert_eq!(colorize_percent(&share(1, 100)), "\x1b[32m1.0%\x1b[39m");
    assert_eq!(colorize_percent(&share(50_000, 100_000_000)), float_colorize(0.05000000000000000277));
    assert_eq!(colorize_percent(&share(50_000, 100_000_000)), "\x1b[32m0.1%\x1b[39m");
}

#[test]
fn duplicate_labels_are_disambiguated() {
    let records = vec![rec("add", 100, 10, 0, 0, 0), rec("add", 200, 20, 0, 0, 0)];
    let out = disambiguate_labels(&records);
    assert_eq!(out.len(), 2);
    assert_eq!(out[0].label, "add_0");
    assert_eq!(out[1].label, "add_1");
    assert_eq!(out[0].cpu_instructions, 100);
    assert_eq!(out[1].memory_bytes, 20);
}

#[test]
fn unique_labels_are_kept() {
    let records = vec![
        rec("add", 1, 1, 0, 0, 0),
        rec("noop", 2, 2, 0, 0, 0),
        rec("add", 3, 3, 0, 0, 0),
        rec("add", 4, 4, 0, 0, 0),
    ];
    let out = disambiguate_labels(&records);
    let labels: Vec<&str> = out.iter().map(|r| r.label.as_str()).collect();
    assert_eq!(labels, vec!["add_0", "noop", "add_1", "add_2"]);
}

#[test]
fn more_usage_never_ranks_lower() {
    let limits = SorobanLimits::default();
    let base = rec("a", 10_000_000, 1_000, 100, 100, 100);
    let heavier = rec("b", 10_000_000, 1_000, 100, 120_000, 100);
    assert_eq!(rank_for_report(&score_all(vec![base, heavier], &limits)), vec![1, 0]);
    let base = rec("a", 10_000_000, 1_000, 100, 100, 100);
    let same = rec("c", 10_000_000, 1_000, 100, 100, 100);
    assert_eq!(rank_for_report(&score_all(vec![base, same], &limits)), vec![0, 1]);
}

#[test]
fn equal_float_shares_keep_input_order() {
    let limits = SorobanLimits::default();
    let records = vec![rec("first", 1u64 << 60, 0, 0, 0, 0), rec("second", (1u64 << 60) + 1, 0, 0, 0, 0)];
    let expected = float_report(&records, &limits);
    let scored = score_all(records, &limits);
    assert_eq!(rank_for_report(&scored), vec![0, 1]);
    assert_eq!(rank_for_cards(&scored), vec![0, 1]);
    assert_eq!(terminal_report(&scored), expected);
}

#[test]
fn cpu_ties_print_as_the_float_does() {
    let limits = SorobanLimits::default();
    let records = vec![rec("half", 50_000, 0, 0, 0, 0), rec("one_and_half", 150_000, 0, 0, 0, 0)];
    let expected = float_report(&records, &limits);
    assert_eq!(terminal_report(&score_all(records, &limits)), expected);
}
