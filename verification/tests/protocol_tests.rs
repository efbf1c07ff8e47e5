use soroban_cost::harness::{frame_record, CostRecord};
use soroban_cost::protocol::{extract_payloads, marked_payload, COST_MARKER};

fn harness_record(label: &str, cpu: u64, mem: u64) -> CostRecord {
    CostRecord { label: label.to_string(), cpu_instructions: cpu, memory_bytes: mem }
}

#[test]
fn harness_line_format() {
    let r = harness_record("transfer", 69441, 28032);
    assert_eq!(
        r.cost_line().unwrap(),
        "##SOROBAN_COST_JSON##{\"label\":\"transfer\",\"cpu_instructions\":69441,\"memory_bytes\":28032}"
    );
    assert_eq!(COST_MARKER, "##SOROBAN_COST_JSON##");
}

#[test]
fn harness_json_escapes_the_label() {
    let label = "say \"hi\"\\\n\t\u{1}é";
    let r = harness_record(label, 1, 2);
    let json = r.to_json().unwrap();
    assert_eq!(json, "{\"label\":\"say \\\"hi\\\"\\\\\\n\\t\\u0001é\",\"cpu_instructions\":1,\"memory_bytes\":2}");
    assert_eq!(
        json,
        format!("{{\"label\":{},\"cpu_instructions\":1,\"memory_bytes\":2}}", serde_json::to_string(label).unwrap())
    );
    assert!(!r.cost_line().unwrap().contains('\n'));
    let parsed: serde_json::Value = serde_json::from_str(&json).unwrap();
    assert_eq!(parsed["label"].as_str(), Some(label));
    assert_eq!(parsed["memory_bytes"].as_u64(), Some(2));
}

#[test]
fn frame_record_fields_in_order() {
    assert_eq!(frame_record("\"x\"", 0, 18446744073709551615), "{\"label\":\"x\",\"cpu_instructions\":0,\"memory_bytes\":18446744073709551615}");
}

#[test]
fn marker_must_start_the_line() {
    assert_eq!(marked_payload("##SOROBAN_COST_JSON##{}"), Some("{}".to_string()));
    assert_eq!(marked_payload("##SOROBAN_COST_JSON##"), Some(String::new()));
    assert_eq!(marked_payload(" ##SOROBAN_COST_JSON##{}"), None);
    assert_eq!(marked_payload("##SOROBAN_COST_JSON#"), None);
    assert_eq!(marked_payload(""), None);
}

#[test]
fn happy_path_produces_records() {
    let add = harness_record("add", 1200, 340).cost_line().unwrap();
    let noop = harness_record("noop", 10, 4).cost_line().unwrap();
    let stdout = format!(
        "\nrunning 2 tests\n{add}\ntest tests::measure_add ... ok\n{noop}\r\ntest tests::measure_noop ... ok\n\ntest result: ok. 2 passed\n"
    );
    let found = extract_payloads(&stdout);
    assert_eq!(found.len(), 2);
    assert_eq!(found[0], harness_record("add", 1200, 340).to_json().unwrap());
    assert_eq!(found[1], harness_record("noop", 10, 4).to_json().unwrap());
    assert!(found[0].contains("add"));
    assert!(found[1].contains("noop"));
}

#[test]
fn panic_contract_fails_gracefully() {
    let double = harness_record("double", 500, 60).cost_line().unwrap();
    let panic = harness_record("double_panic", 400, 50).cost_line().unwrap();
    let stdout = format!(
        "running 2 tests\n{double}\ntest tests::measure_double ... ok\n{panic}\nthread 'tests::measure_double_panic' panicked: intentional panic for testing profiler error handling\ntest tests::measure_double_panic ... FAILED\n"
    );
    let found = extract_payloads(&stdout);
    assert_eq!(found.len(), 2);
    assert!(found[0].contains("\"double\""));
    assert!(found[1].contains("double_panic"));
}

#[test]
fn compile_error_surfaces_compiler_message() {
    let stdout = "error: expected `;`, found `x`\n --> src/lib.rs:14:19\n";
    assert!(extract_payloads(stdout).is_empty());
}

#[test]
fn malformed_lines_are_still_extracted_verbatim() {
    let stdout = "##SOROBAN_COST_JSON##{\"label\":\"bad_fn\",\"cpu_instructions\":1000\nnoise ##SOROBAN_COST_JSON##{}\n##SOROBAN_COST_JSON##{\"label\":\"also_valid\"}";
    let found = extract_payloads(stdout);
    assert_eq!(found, vec![
        "{\"label\":\"bad_fn\",\"cpu_instructions\":1000".to_string(),
        "{\"label\":\"also_valid\"}".to_string(),
    ]);
}

#[test]
fn lines_follow_str_lines() {
    let texts = [
        "",
        "\n",
        "a",
        "a\n",
        "a\r\nb\r\n",
        "a\rb\n\r",
        "##SOROBAN_COST_JSON##x\r",
        "##SOROBAN_COST_JSON##x\r\n\n##SOROBAN_COST_JSON##y",
        "\n\n##SOROBAN_COST_JSON##\n",
    ];
    for t in texts.iter() {
        let expected: Vec<String> = t
            .lines()
            .filter_map(|l| l.strip_prefix("##SOROBAN_COST_JSON##").map(|s| s.to_string()))
            .collect();
        assert_eq!(extract_payloads(t), expected, "{t:?}");
    }
}

#[test]
fn printed_records_are_found_among_other_output() {
    let r = harness_record("label with\nnewline", 7, 8);
    let line = r.cost_line().unwrap();
    let before = "compiling\n##SOROBAN_COST_JSON##{\"label\":\"first\"}\n";
    let after = "done\n##SOROBAN_COST_JSON##last";
    let output = format!("{before}{line}\n{after}");
    let mut expected = extract_payloads(before);
    expected.push(r.to_json().unwrap());
    expected.extend(extract_payloads(after));
    assert_eq!(extract_payloads(&output), expected);
    assert_eq!(expected.len(), 3);
}
