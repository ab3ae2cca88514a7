//! Tests of the classifier core: literal signature matching, error-code
//! extraction, and the fold into findings and unclassified.

use crater_triage::analysis::Analysis;
use crater_triage::config::Config;

fn config_with(name: &str, fragments: &[&str]) -> Config {
    let mut c = Config::new("error", "error");
    match fragments {
        [f1] => c.add1(name, f1),
        [f1, f2] => c.add2(name, f1, f2),
        _ => panic!("unsupported fragment count"),
    }
    c
}

#[test]
fn fragments_on_one_line_count_once() {
    let cfg = config_with("both", &["A", "B"]);
    let mut a = Analysis::new();
    a.record_log(&cfg, "unit", "ref", "x A y B z");
    assert_eq!(a.findings.get("both"), 1);
    assert_eq!(a.unclassified.len(), 0);
}

#[test]
fn fragments_on_two_lines_count_twice() {
    let cfg = config_with("both", &["A", "B"]);
    let mut a = Analysis::new();
    a.record_log(&cfg, "unit", "ref", "A then B\nagain A and B\nonly A here");
    assert_eq!(a.findings.get("both"), 2);
    assert_eq!(a.unclassified.len(), 0);
}

#[test]
fn fragments_split_across_lines_do_not_match() {
    let cfg = config_with("both", &["A", "B"]);
    let mut a = Analysis::new();
    a.record_log(&cfg, "unit", "ref", "only A here\nonly B here");
    assert_eq!(a.findings.get("both"), 0);
    assert_eq!(a.unclassified.len(), 1);
}

#[test]
fn fragment_order_within_line_is_free() {
    let cfg = config_with("both", &["A", "B"]);
    let mut a = Analysis::new();
    a.record_log(&cfg, "unit", "ref", "B comes before A");
    assert_eq!(a.findings.get("both"), 1);
}

#[test]
fn any_alternative_matches_but_line_counts_once() {
    let mut cfg = Config::new("error", "error");
    cfg.add1("multi", "first");
    cfg.add1("multi", "second");
    let mut a = Analysis::new();
    // both alternatives match the same line: one increment, not two
    a.record_log(&cfg, "unit", "ref", "first and second together");
    assert_eq!(a.findings.get("multi"), 1);
}

#[test]
fn regex_extracts_error_codes() {
    let cfg = Config::new("error", "error");
    let mut a = Analysis::new();
    a.record_log(
        &cfg,
        "unit",
        "ref",
        "[INFO] [stdout] error[E0308]: mismatched types\n[INFO] [stdout] error[E0277]: the trait bound is not satisfied",
    );
    assert_eq!(a.findings.get("E0308"), 1);
    assert_eq!(a.findings.get("E0277"), 1);
    assert_eq!(a.unclassified.len(), 0);
}

#[test]
fn regex_needs_line_start() {
    let cfg = Config::new("error", "error");
    let mut a = Analysis::new();
    // the pattern is anchored at a line start; an indented copy must not match
    a.record_log(&cfg, "unit", "ref", "  [INFO] [stdout] error[E0308]: mismatched types");
    assert_eq!(a.findings.get("E0308"), 0);
    assert_eq!(a.unclassified.len(), 1);
}

#[test]
fn repeated_code_counts_per_occurrence() {
    let cfg = Config::new("error", "error");
    let mut a = Analysis::new();
    a.record_log(
        &cfg,
        "unit",
        "ref",
        "[INFO] [stdout] error[E0308]: one\n[INFO] [stdout] error[E0308]: two",
    );
    assert_eq!(a.findings.get("E0308"), 2);
}

#[test]
fn literal_and_regex_can_both_hit_one_log() {
    let cfg = config_with("no-space", &["no space left on device"]);
    let mut a = Analysis::new();
    a.record_log(
        &cfg,
        "unit",
        "ref",
        "[INFO] [stdout] error[E0463]: can't find crate\nno space left on device",
    );
    assert_eq!(a.findings.get("no-space"), 1);
    assert_eq!(a.findings.get("E0463"), 1);
    assert_eq!(a.unclassified.len(), 0);
}

#[test]
fn unmatched_log_lands_in_unclassified() {
    let cfg = config_with("no-space", &["no space left on device"]);
    let mut a = Analysis::new();
    a.record_log(&cfg, "foo", "abc", "totally unrelated failure");
    assert_eq!(a.findings.len(), 0);
    assert_eq!(a.unclassified.len(), 1);
    assert_eq!(a.unclassified.unit_at(0).as_str(), "foo");
    let refs = a.unclassified.get_refs("foo");
    assert_eq!(refs.len(), 1);
    assert_eq!(refs[0].as_str(), "abc");
}

#[test]
fn empty_log_is_unclassified() {
    let cfg = config_with("no-space", &["no space left on device"]);
    let mut a = Analysis::new();
    a.record_log(&cfg, "foo", "abc", "");
    assert_eq!(a.findings.len(), 0);
    assert_eq!(a.unclassified.len(), 1);
}

#[test]
fn fetch_failure_changes_nothing() {
    let cfg = config_with("no-space", &["no space left on device"]);
    let mut a = Analysis::new();
    a.record_log(&cfg, "foo", "abc", "no space left on device");
    a.record_fetch_failure();
    assert_eq!(a.findings.get("no-space"), 1);
    assert_eq!(a.findings.len(), 1);
    assert_eq!(a.unclassified.len(), 0);
}

#[test]
fn same_unit_twice_keeps_reference_order() {
    let cfg = config_with("no-space", &["no space left on device"]);
    let mut a = Analysis::new();
    a.record_log(&cfg, "foo", "first-run", "nothing known");
    a.record_log(&cfg, "foo", "second-run", "nothing known either");
    assert_eq!(a.unclassified.len(), 1);
    let refs = a.unclassified.get_refs("foo");
    assert_eq!(refs.len(), 2);
    assert_eq!(refs[0].as_str(), "first-run");
    assert_eq!(refs[1].as_str(), "second-run");
}

#[test]
fn classifying_twice_gives_identical_results() {
    let logs: [(&str, &str, &str); 4] = [
        ("alpha", "r1", "no space left on device"),
        ("beta", "r2", "[INFO] [stdout] error[E0308]: mismatched types"),
        ("alpha", "r3", "unknown breakage"),
        ("gamma", "r4", "another unknown breakage"),
    ];
    let cfg = config_with("no-space", &["no space left on device"]);
    let mut first = Analysis::new();
    let mut second = Analysis::new();
    for (unit, log_ref, log) in logs.iter() {
        first.record_log(&cfg, unit, log_ref, log);
    }
    for (unit, log_ref, log) in logs.iter() {
        second.record_log(&cfg, unit, log_ref, log);
    }
    assert_eq!(first.findings.len(), second.findings.len());
    for i in 0..first.findings.len() {
        assert_eq!(first.findings.name_at(i).as_str(), second.findings.name_at(i).as_str());
        assert_eq!(first.findings.count_at(i), second.findings.count_at(i));
    }
    assert_eq!(first.unclassified.len(), second.unclassified.len());
    for i in 0..first.unclassified.len() {
        assert_eq!(
            first.unclassified.unit_at(i).as_str(),
            second.unclassified.unit_at(i).as_str()
        );
        let r1 = first.unclassified.refs_at(i);
        let r2 = second.unclassified.refs_at(i);
        assert_eq!(r1.len(), r2.len());
        for j in 0..r1.len() {
            assert_eq!(r1[j].as_str(), r2[j].as_str());
        }
    }
}

#[test]
fn findings_stay_sorted_by_name() {
    let cfg = Config::new("error", "error");
    let mut a = Analysis::new();
    a.record_log(
        &cfg,
        "unit",
        "ref",
        "[INFO] [stdout] error[E0999]: late\n[INFO] [stdout] error[E0001]: early",
    );
    assert_eq!(a.findings.len(), 2);
    assert_eq!(a.findings.name_at(0).as_str(), "E0001");
    assert_eq!(a.findings.name_at(1).as_str(), "E0999");
}

#[test]
fn crlf_line_endings_are_stripped() {
    let cfg = config_with("exact", &["ends here"]);
    let mut a = Analysis::new();
    a.record_log(&cfg, "unit", "ref", "the line ends here\r\nanother line\r\n");
    assert_eq!(a.findings.get("exact"), 1);
}
