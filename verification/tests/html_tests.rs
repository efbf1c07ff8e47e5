use soroban_cost::html::{bar_color, escape_html, html_report, html_table_report};
use soroban_cost::limits::SorobanLimits;
use soroban_cost::report::{CostRecord, ScoredRecord};
use soroban_cost::usage::{RecordShares, Severity, Share};

fn band(pct: f64) -> Severity {
    if pct > 85.0 {
        Severity::Critical
    } else if pct >= 60.0 {
        Severity::Elevated
    } else {
        Severity::Low
    }
}

fn share(used: u64, limit: u64) -> Share {
    let pct = used as f64 / limit as f64 * 100.0;
    Share { percent: format!("{pct:.1}"), band: band(pct), bar: format!("{:.1}", pct.min(100.0)) }
}

fn rank_key(values: [f64; 5]) -> u64 {
    let m = values.iter().copied().fold(f64::NEG_INFINITY, f64::max);
    if m == f64::NEG_INFINITY {
        0
    } else {
        m.to_bits() + 1
    }
}

/// The record with its f64 shares, as the command-line program computes them.
fn score(record: CostRecord, limits: &SorobanLimits) -> ScoredRecord {
    let dims = [
        (record.cpu_instructions, limits.max_cpu_instructions),
        (record.memory_bytes, limits.max_memory_bytes),
        (record.read_bytes as u64, limits.max_disk_read_bytes),
        (record.write_bytes as u64, limits.max_disk_write_bytes),
        (record.events_size_bytes as u64, limits.max_events_return_bytes),
    ];
    let fractions = dims.map(|(used, limit)| used as f64 / limit as f64);
    let percents = fractions.map(|f| f * 100.0);
    let shares = RecordShares {
        cpu: share(dims[0].0, dims[0].1),
        memory: share(dims[1].0, dims[1].1),
        reads: share(dims[2].0, dims[2].1),
        writes: share(dims[3].0, dims[3].1),
        events: share(dims[4].0, dims[4].1),
        report_key: rank_key(percents),
        card_key: rank_key(fractions),
    };
    ScoredRecord { record, shares }
}

fn score_all(records: Vec<CostRecord>, limits: &SorobanLimits) -> Vec<ScoredRecord> {
    records.into_iter().map(|r| score(r, limits)).collect()
}

fn rec(label: &str, cpu: u64, mem: u64, rd: u32, wr: u32, ev: u32) -> CostRecord {
    CostRecord {
        label: label.to_string(),
        cpu_instructions: cpu,
        memory_bytes: mem,
        read_entries: 0,
        read_bytes: rd,
        write_entries: 0,
        write_bytes: wr,
        events_size_bytes: ev,
    }
}

fn float_color(pct: f64) -> &'static str {
    if pct > 85.0 {
        "#f85149"
    } else if pct >= 60.0 {
        "#d29922"
    } else {
        "#3fb950"
    }
}

fn float_card(rec: &CostRecord, limits: &SorobanLimits) -> String {
    let cpu_pct = rec.cpu_instructions as f64 / limits.max_cpu_instructions as f64 * 100.0;
    let mem_pct = rec.memory_bytes as f64 / limits.max_memory_bytes as f64 * 100.0;
    let rd_pct = rec.read_bytes as f64 / limits.max_disk_read_bytes as f64 * 100.0;
    let wr_pct = rec.write_bytes as f64 / limits.max_disk_write_bytes as f64 * 100.0;
    let evt_pct = rec.events_size_bytes as f64 / limits.max_events_return_bytes as f64 * 100.0;
    format!(
        r#"    <div class="card">
      <h2>{label}</h2>
      <div class="stat">
        <span class="stat-label">CPU Instructions</span>
        <span class="stat-value">{cpu}</span>
        <span class="stat-pct" style="color:{cc}">{cpu_pct:.1}%</span>
      </div>
      <div class="bar-track"><div class="bar-fill" style="width:{cbw:.1}%;background:{cc}"></div></div>
      <div class="stat">
        <span class="stat-label">Memory</span>
        <span class="stat-value">{mem}</span>
        <span class="stat-pct" style="color:{mc}">{mem_pct:.1}%</span>
      </div>
      <div class="bar-track"><div class="bar-fill" style="width:{mbw:.1}%;background:{mc}"></div></div>
      <div class="stat">
        <span class="stat-label">Ledger Reads</span>
        <span class="stat-value">{rd} bytes</span>
        <span class="stat-pct" style="color:{rdc}">{rd_pct:.1}%</span>
      </div>
      <div class="bar-track"><div class="bar-fill" style="width:{rbw:.1}%;background:{rdc}"></div></div>
      <div class="stat">
        <span class="stat-label">Ledger Writes</span>
        <span class="stat-value">{wr} bytes</span>
        <span class="stat-pct" style="color:{wrc}">{wr_pct:.1}%</span>
      </div>
      <div class="bar-track"><div class="bar-fill" style="width:{wrbw:.1}%;background:{wrc}"></div></div>
      <div class="stat">
        <span class="stat-label">Events Size</span>
        <span class="stat-value">{evt} bytes</span>
        <span class="stat-pct" style="color:{evc}">{evt_pct:.1}%</span>
      </div>
      <div class="bar-track"><div class="bar-fill" style="width:{evbw:.1}%;background:{evc}"></div></div>
    </div>
"#,
        label = escape_html(&rec.label),
        cpu = rec.cpu_instructions,
        cc = float_color(cpu_pct),
        cpu_pct = cpu_pct,
        cbw = cpu_pct.min(100.0),
        mem = rec.memory_bytes,
        mc = float_color(mem_pct),
        mem_pct = mem_pct,
        mbw = mem_pct.min(100.0),
        rd = rec.read_bytes,
        rdc = float_color(rd_pct),
        rd_pct = rd_pct,
        rbw = rd_pct.min(100.0),
        wr = rec.write_bytes,
        wrc = float_color(wr_pct),
        wr_pct = wr_pct,
        wrbw = wr_pct.min(100.0),
        evt = rec.events_size_bytes,
        evc = float_color(evt_pct),
        evt_pct = evt_pct,
        evbw = evt_pct.min(100.0),
    )
}

#[test]
fn escape_html_entities() {
    assert_eq!(escape_html("<a href=\"x\">Tom & Jerry's</a>"), "&lt;a href=&quot;x&quot;&gt;Tom &amp; Jerry&#39;s&lt;/a&gt;");
    assert_eq!(escape_html("plain_label é"), "plain_label é");
    assert_eq!(escape_html(""), "");
}

#[test]
fn bar_colors() {
    assert_eq!(bar_color(Severity::Critical), "#f85149");
    assert_eq!(bar_color(Severity::Elevated), "#d29922");
    assert_eq!(bar_color(Severity::Low), "#3fb950");
    assert_eq!(bar_color(share(86, 100).band), float_color(86.0));
    assert_eq!(bar_color(share(60, 100).band), float_color(60.0));
    assert_eq!(bar_color(share(1, 0).band), float_color(f64::INFINITY));
    assert_eq!(bar_color(share(0, 0).band), float_color(f64::NAN));
}

#[test]
fn happy_path_html_report() {
    let limits = SorobanLimits::default();
    let records = vec![rec("add", 1_234_567, 40_000, 0, 0, 0), rec("noop", 99_000_000, 10, 0, 0, 0)];
    let html = html_report(&score_all(records, &limits));
    assert!(html.contains("Soroban Cost Report"));
    assert!(html.contains("<h2>add</h2>"));
    assert!(html.contains("<h2>noop</h2>"));
    // noop is worst (99% of cpu), so its card comes first.
    assert!(html.find("<h2>noop</h2>").unwrap() < html.find("<h2>add</h2>").unwrap());
    assert!(html.starts_with("<!DOCTYPE html>"));
    assert!(html.ends_with("</body>\n</html>"));
}

#[test]
fn html_cards_match_float_formatting() {
    let limits = SorobanLimits::default();
    let records = vec![
        rec("<b>mint</b>", 38101, 17151, 120, 80, 0),
        rec("batch & co", 99_609_001, 75223, 1024, 2048, 16),
        rec("swap", 69443, 28040, 300, 250_000, 12_000),
    ];
    let cards = format!(
        "{}{}{}",
        float_card(&records[2], &limits),
        float_card(&records[1], &limits),
        float_card(&records[0], &limits)
    );
    let html = html_report(&score_all(records, &limits));
    let start = html.find("<h1>Soroban Cost Report</h1>\n").unwrap() + "<h1>Soroban Cost Report</h1>\n".len();
    let end = html.len() - "\n</body>\n</html>".len();
    assert_eq!(&html[start..end], cards);
    assert!(html.contains("width:100.0%"));
    assert!(html.contains("&lt;b&gt;mint&lt;/b&gt;"));
}

#[test]
fn html_table_report_rows() {
    let records = vec![rec("add", 12, 34, 0, 0, 0), rec("noop", 5, 6, 0, 0, 0)];
    let html = html_table_report(&records);
    assert!(html.contains("<title>Soroban Cost Report</title>"));
    assert!(html.contains(
        "<tr><th>label</th><th>cpu_instructions</th><th>memory_bytes</th></tr>\n<tr><td>add</td><td>12</td><td>34</td></tr>\n<tr><td>noop</td><td>5</td><td>6</td></tr>\n\n</table>"
    ));
}

#[test]
fn table_report_escapes_labels() {
    let records = vec![rec(r#"<script src="http://x/a.js"></script>"#, 0, 0, 0, 0, 0)];
    let html = html_table_report(&records);
    assert!(!html.contains("<script"));
    assert!(html.contains(
        "<tr><td>&lt;script src=&quot;http://x/a.js&quot;&gt;&lt;/script&gt;</td><td>0</td><td>0</td></tr>\n"
    ));
}

#[test]
fn escaping_can_be_undone() {
    let samples = ["", "plain", "a & b", "<&amp;>", "\"'\"", "&lt;", "x;y&#39;"];
    for s in samples.iter() {
        let e = escape_html(s);
        let back = e
            .replace("&lt;", "<")
            .replace("&gt;", ">")
            .replace("&quot;", "\"")
            .replace("&#39;", "'")
            .replace("&amp;", "&");
        assert_eq!(&back, s);
    }
    assert_ne!(escape_html("&lt;"), escape_html("<"));
}

#[test]
fn cards_print_float_shares() {
    let limits = SorobanLimits::default();
    let records = vec![rec("half", 50_000, 0, 0, 0, 0), rec("other", 150_000, 0, 0, 0, 0)];
    let cards = format!("{}{}", float_card(&records[1], &limits), float_card(&records[0], &limits));
    let html = html_report(&score_all(records, &limits));
    assert!(html.contains(&cards));
    assert!(html.contains(">0.1%</span>"));
}

#[test]
fn escaping_twice_changes_only_special_text() {
    assert_eq!(escape_html(&escape_html("plain")), escape_html("plain"));
    assert_eq!(escape_html(&escape_html("&")), "&amp;amp;");
    assert_ne!(escape_html(&escape_html("&")), escape_html("&"));
    assert_ne!(escape_html(&escape_html("'")), escape_html("'"));
}
