//! Tests of the manifest filtering, the sanitizer, the renderer, and the
//! end-to-end flow from manifest to report text.

use crater_triage::analysis::Analysis;
use crater_triage::config::Config;
use crater_triage::render::AnalysisReport;
use crater_triage::report::Report;
use crater_triage::report::RunResult;
use crater_triage::report::UnitResult;
use crater_triage::sanitize::sanitize_log_ref;

fn run(outcome: &str, log_ref: &str) -> Option<RunResult> {
    Some(RunResult { outcome: outcome.to_string(), log_ref: log_ref.to_string() })
}

fn unit(name: &str, outcome: &str, runs: Vec<Option<RunResult>>) -> UnitResult {
    UnitResult { name: name.to_string(), outcome: outcome.to_string(), runs }
}

#[test]
fn regressed_count_follows_unit_outcomes() {
    let report = Report {
        units: vec![
            unit("a", "error", vec![]),
            unit("b", "ok", vec![]),
            unit("c", "error", vec![run("error", "l1")]),
            unit("d", "spurious", vec![run("error", "l2")]),
        ],
    };
    let (items, regressed) = report.build_work_list("error", "error");
    assert_eq!(regressed, 2);
    // only runs of regressed units are eligible
    assert_eq!(items.len(), 1);
    assert_eq!(items[0].unit.as_str(), "c");
    assert_eq!(items[0].log_ref.as_str(), "l1");
}

#[test]
fn absent_run_slots_are_skipped() {
    let report = Report {
        units: vec![unit(
            "a",
            "error",
            vec![None, run("error", "l1"), None, run("other", "l2"), run("error", "l3")],
        )],
    };
    let (items, regressed) = report.build_work_list("error", "error");
    assert_eq!(regressed, 1);
    assert_eq!(items.len(), 2);
    assert_eq!(items[0].log_ref.as_str(), "l1");
    assert_eq!(items[1].log_ref.as_str(), "l3");
}

#[test]
fn work_list_keeps_manifest_order() {
    let report = Report {
        units: vec![
            unit("z-last", "error", vec![run("error", "z1")]),
            unit("a-first", "error", vec![run("error", "a1")]),
        ],
    };
    let (items, _) = report.build_work_list("error", "error");
    assert_eq!(items.len(), 2);
    assert_eq!(items[0].unit.as_str(), "z-last");
    assert_eq!(items[1].unit.as_str(), "a-first");
}

#[test]
fn empty_manifest_yields_empty_work() {
    let report = Report { units: vec![] };
    let (items, regressed) = report.build_work_list("error", "error");
    assert_eq!(items.len(), 0);
    assert_eq!(regressed, 0);
}

fn assert_clean(s: &str) {
    assert!(!s.contains("./"), "sanitized reference still holds ./ : {}", s);
    assert!(!s.starts_with('/'), "sanitized reference starts with / : {}", s);
}

#[test]
fn sanitize_escapes_dot_slash() {
    let s = sanitize_log_ref("gh/owner/repo./1");
    assert_clean(&s);
    assert_eq!(s, "gh/owner/repo%2E/1");
}

#[test]
fn sanitize_escapes_trailing_dot() {
    let s = sanitize_log_ref("gh/owner/repo.");
    assert_clean(&s);
    assert_eq!(s, "gh/owner/repo%2E");
}

#[test]
fn sanitize_escapes_leading_slash() {
    let s = sanitize_log_ref("/etc/passwd");
    assert_clean(&s);
    assert_eq!(s, "%2Fetc/passwd");
}

#[test]
fn sanitize_escapes_version_dots() {
    let s = sanitize_log_ref("reg/crate-1.2.3/log");
    assert_clean(&s);
    assert_eq!(s, "reg/crate-1%2E2%2E3/log");
}

#[test]
fn sanitize_handles_traversal_chains() {
    for raw in ["../../x", "./hidden", "a/./b", "a/..", "...", ".", "/", ""] {
        let s = sanitize_log_ref(raw);
        assert_clean(&s);
    }
}

#[test]
fn sanitize_keeps_ordinary_references() {
    let s = sanitize_log_ref("reg/crate-log/1");
    assert_clean(&s);
    assert_eq!(s, "reg/crate-log/1");
}

#[test]
fn sanitize_never_collides() {
    // distinct references that a naive rewrite would conflate
    let pairs = [
        (".", "%2E"),
        ("a.", "a%2E"),
        ("a./b", "a%2E/b"),
        ("/x", "%2Fx"),
        (".", "dot"),
        ("a.", "adot"),
    ];
    for (left, right) in pairs.iter() {
        assert_ne!(sanitize_log_ref(left), sanitize_log_ref(right));
    }
}

fn one_unit_report() -> Report {
    Report { units: vec![unit("foo", "error", vec![run("error", "abc")])] }
}

fn no_space_config() -> Config {
    let mut c = Config::new("error", "error");
    c.add1("no-space", "no space left on device");
    c
}

#[test]
fn end_to_end_matched_log() {
    let cfg = no_space_config();
    let report = one_unit_report();
    let (items, regressed) = report.build_work_list(&cfg.crate_result, &cfg.run_result);
    assert_eq!(regressed, 1);
    assert_eq!(items.len(), 1);
    let mut a = Analysis::new();
    a.record_log(&cfg, &items[0].unit, &items[0].log_ref, "no space left on device");
    assert_eq!(a.findings.len(), 1);
    assert_eq!(a.findings.get("no-space"), 1);
    assert_eq!(a.unclassified.len(), 0);
}

#[test]
fn end_to_end_unmatched_log() {
    let cfg = no_space_config();
    let report = one_unit_report();
    let (items, _) = report.build_work_list(&cfg.crate_result, &cfg.run_result);
    let mut a = Analysis::new();
    a.record_log(&cfg, &items[0].unit, &items[0].log_ref, "totally unrelated failure");
    assert_eq!(a.findings.len(), 0);
    assert_eq!(a.unclassified.len(), 1);
    let refs = a.unclassified.get_refs("foo");
    assert_eq!(refs.len(), 1);
    assert_eq!(refs[0].as_str(), "abc");
}

#[test]
fn end_to_end_fetch_failure_drops_run_but_not_denominator() {
    let cfg = no_space_config();
    let report = one_unit_report();
    let (items, regressed) = report.build_work_list(&cfg.crate_result, &cfg.run_result);
    let mut a = Analysis::new();
    a.record_fetch_failure();
    let rendered = AnalysisReport {
        experiment: "exp-1".to_string(),
        expected_krate_result: cfg.crate_result.clone(),
        expected_run_result: cfg.run_result.clone(),
        regressed_count: regressed,
        interesting_results_count: items.len(),
        findings: a.findings,
        other: a.unclassified,
    }
    .print_report();
    // the failed run still counts among the eligible runs, but appears in
    // neither findings nor unclassified
    assert!(rendered.contains("error runs: 1"));
    assert!(rendered.contains("sum: 0"));
    assert!(rendered.contains("others: 0"));
}

#[test]
fn report_text_is_exact() {
    let cfg = no_space_config();
    let mut a = Analysis::new();
    a.record_log(&cfg, "foo", "abc", "no space left on device");
    a.record_log(&cfg, "bar", "xyz", "what even is this");
    let rendered = AnalysisReport {
        experiment: "pr-123".to_string(),
        expected_krate_result: "error".to_string(),
        expected_run_result: "error".to_string(),
        regressed_count: 2,
        interesting_results_count: 2,
        findings: a.findings,
        other: a.unclassified,
    }
    .print_report();
    let expected = "Report for Crater Experiment pr-123\n\
                    error crates: 2\n\
                    error runs: 2\n\
                    ----------------------------------\n\
                    Results:\n\
                    no-space: 1\n\
                    ----------------------------------\n\
                    sum: 1\n\
                    others: 1\n\
                    ----------------------------------\n\
                    {\n    \"bar\": [\n        \"xyz\",\n    ],\n}\n";
    assert_eq!(rendered, expected);
}

#[test]
fn report_text_with_empty_unclassified() {
    let a = Analysis::new();
    let rendered = AnalysisReport {
        experiment: "e".to_string(),
        expected_krate_result: "error".to_string(),
        expected_run_result: "error".to_string(),
        regressed_count: 0,
        interesting_results_count: 0,
        findings: a.findings,
        other: a.unclassified,
    }
    .print_report();
    let expected = "Report for Crater Experiment e\n\
                    error crates: 0\n\
                    error runs: 0\n\
                    ----------------------------------\n\
                    Results:\n\
                    ----------------------------------\n\
                    sum: 0\n\
                    others: 0\n\
                    ----------------------------------\n\
                    {}\n";
    assert_eq!(rendered, expected);
}

#[test]
fn findings_render_in_lexicographic_order() {
    let mut cfg = Config::new("error", "error");
    cfg.add1("zeta", "zzz");
    cfg.add1("alpha", "aaa");
    let mut a = Analysis::new();
    a.record_log(&cfg, "u", "r", "zzz and aaa on one line");
    let rendered = AnalysisReport {
        experiment: "e".to_string(),
        expected_krate_result: "error".to_string(),
        expected_run_result: "error".to_string(),
        regressed_count: 1,
        interesting_results_count: 1,
        findings: a.findings,
        other: a.unclassified,
    }
    .print_report();
    let alpha = rendered.find("alpha: 1").unwrap();
    let zeta = rendered.find("zeta: 1").unwrap();
    assert!(alpha < zeta);
}

#[test]
fn example_config_holds_the_stock_table() {
    let cfg = Config::example();
    assert_eq!(cfg.crate_result, "error");
    assert_eq!(cfg.run_result, "error");
    assert_eq!(cfg.targets.len(), 30);
    assert_eq!(cfg.targets[0].name, "docker");
    assert_eq!(cfg.targets[0].alternatives.len(), 2);
    assert_eq!(cfg.targets[0].alternatives[0].all.len(), 2);
    let manifest = cfg.targets.iter().find(|e| e.name == "invalid manifest").unwrap();
    assert_eq!(manifest.alternatives.len(), 3);
    let dep = cfg.targets.iter().find(|e| e.name == "missing dep").unwrap();
    assert_eq!(dep.alternatives.len(), 3);
    let five = cfg.targets.iter().find(|e| e.name == "dep removed feature").unwrap();
    assert_eq!(five.alternatives[0].all.len(), 5);
}

#[test]
fn example_config_classifies_a_stock_failure() {
    let cfg = Config::example();
    let mut a = Analysis::new();
    a.record_log(&cfg, "u", "r", "[INFO] [stderr] error: failed to download something");
    assert_eq!(a.findings.get("download"), 1);
}

#[test]
fn unclassified_rendering_escapes_quotes_and_backslashes() {
    let cfg = no_space_config();
    let mut a = Analysis::new();
    a.record_log(&cfg, "we\"ird\\unit", "re\"f\\1", "nothing known");
    let rendered = AnalysisReport {
        experiment: "e".to_string(),
        expected_krate_result: "error".to_string(),
        expected_run_result: "error".to_string(),
        regressed_count: 1,
        interesting_results_count: 1,
        findings: a.findings,
        other: a.unclassified,
    }
    .print_report();
    assert!(rendered.contains("    \"we\\\"ird\\\\unit\": [\n"));
    assert!(rendered.contains("        \"re\\\"f\\\\1\",\n"));
}
