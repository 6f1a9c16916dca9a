use atlas::decimal::{decimal, decimal_string, parse_u128, read_u64};
use atlas::discovery::normalize_relative;
use atlas::fixtures::{branch, direct_call, divide, return_value, with_drop};
use atlas::limits::{
    AnalysisLimits, CompilerComplexityLimits, DataflowLimits, MaintainabilityLimits,
    StateMachineLimits,
};
use atlas::model::{Coverage, Status, UnknownReason};
use atlas::reach::reach;
use atlas::statistics::distribution;
use std::cell::Cell;

#[test]
fn fixtures_compute_their_stated_values() {
    assert_eq!(branch(true), 11);
    assert_eq!(branch(false), 22);
    assert_eq!(return_value(7), 7);
    assert_eq!(direct_call(41), 41);
    assert_eq!(divide(17, 5), 3);
    let calls = Cell::new(0);
    with_drop(|| calls.set(calls.get() + 1));
    assert_eq!(calls.get(), 1);
}

#[test]
fn decimals_parse_exactly_and_render_back() {
    assert_eq!(decimal("9007199254740993").unwrap(), 9_007_199_254_740_993);
    assert_eq!(decimal("18446744073709551615").unwrap(), u64::MAX);
    assert!(decimal("18446744073709551616").is_err());
    assert!(decimal("").is_err());
    assert!(decimal("+1").is_err());
    assert!(decimal("1.0").is_err());
    assert_eq!(read_u64("42"), Ok(42));
    assert_eq!(read_u64("x"), Err(true));
    assert_eq!(read_u64("18446744073709551616"), Err(false));
    assert_eq!(parse_u128("340282366920938463463374607431768211455"), Some(u128::MAX));
    assert_eq!(parse_u128("340282366920938463463374607431768211456"), None);
    for n in [0u128, 7, 10, 1234567890123456789012345678901234567, u128::MAX] {
        assert_eq!(decimal_string(n), n.to_string());
        assert_eq!(parse_u128(&decimal_string(n)), Some(n));
    }
}

#[test]
fn every_limit_default_is_supported() {
    assert!(AnalysisLimits::default().validate().is_ok());
    assert!(DataflowLimits::default().validate().is_ok());
    assert!(MaintainabilityLimits::default().validate().is_ok());
    assert!(StateMachineLimits::default().validate().is_ok());
    assert!(CompilerComplexityLimits::default().validate().is_ok());
    assert_eq!(DataflowLimits::default().max_facts, 50_000);
    assert_eq!(AnalysisLimits::default().max_depth, 8);
}

#[test]
fn limits_outside_their_bounds_are_refused() {
    let mut limits = DataflowLimits::default();
    limits.max_blocks = 4097;
    assert!(limits.validate().is_err());
    let mut limits = DataflowLimits::default();
    limits.max_response_bytes = 1023;
    assert!(limits.validate().is_err());
    let mut limits = AnalysisLimits::default();
    limits.max_depth = 65;
    assert!(limits.validate().is_err());
    let mut limits = CompilerComplexityLimits::default();
    limits.max_edges = 0;
    assert!(limits.validate().is_err());
}

#[test]
fn distributions_use_the_lower_median_and_nearest_rank_percentile() {
    let d = distribution("lines", &vec![9, 1, 5, 3]);
    assert_eq!(d.metric, "lines");
    assert_eq!((d.minimum, d.median, d.p95, d.maximum), (1, 3, 9, 9));
    let values: Vec<u32> = (1..=100).rev().collect();
    let d = distribution("lines", &values);
    assert_eq!((d.minimum, d.median, d.p95, d.maximum), (1, 50, 95, 100));
    let d = distribution("one", &vec![4]);
    assert_eq!((d.minimum, d.median, d.p95, d.maximum), (4, 4, 4, 4));
}

#[test]
fn reachability_follows_edges_from_the_start_only() {
    let adj = vec![vec![1], vec![2], vec![1], vec![0]];
    assert_eq!(reach(&adj, 0), vec![true, true, true, false]);
    assert_eq!(reach(&adj, 3), vec![true, true, true, true]);
    assert_eq!(reach(&adj, 2), vec![false, true, true, false]);
}

#[test]
fn relative_paths_resolve_inside_the_root() {
    assert_eq!(normalize_relative("", "src/lib.rs").unwrap(), "src/lib.rs");
    assert_eq!(normalize_relative("crates/a", "src/lib.rs").unwrap(), "crates/a/src/lib.rs");
    assert_eq!(normalize_relative("crates/a", "../b/Cargo.toml").unwrap(), "crates/b/Cargo.toml");
    assert_eq!(normalize_relative("crates/a", "./src//main.rs").unwrap(), "crates/a/src/main.rs");
    assert_eq!(normalize_relative("a", "..").unwrap(), "");
    assert_eq!(
        normalize_relative("", "../x").unwrap_err(),
        "path escapes captured source root: ../x"
    );
    assert_eq!(
        normalize_relative("crates/a", "/etc/passwd").unwrap_err(),
        "absolute source path is not allowed: /etc/passwd"
    );
    assert_eq!(
        normalize_relative("/abs", "x").unwrap_err(),
        "absolute source path is not allowed: x"
    );
}

#[test]
fn recorded_gaps_make_coverage_partial_and_count_reasons() {
    let mut coverage = Coverage::complete();
    assert_eq!(coverage.status, Status::Complete);
    coverage.record_gap(UnknownReason::CfgUnknown, "one");
    coverage.record_gap(UnknownReason::CfgUnknown, "one");
    coverage.record_gap(UnknownReason::AnalysisFailed, "two");
    assert_eq!(coverage.status, Status::Partial);
    assert_eq!(coverage.limitations, vec!["one".to_string(), "two".to_string()]);
    assert_eq!(coverage.reasons[0].reason, UnknownReason::AnalysisFailed);
    assert_eq!(coverage.reasons[1].reason, UnknownReason::CfgUnknown);
    assert_eq!(coverage.reasons[1].count, 2);
    let partial = Coverage::partial(UnknownReason::SyntaxOnly, "syntax");
    assert_eq!(partial.status, Status::Partial);
    assert_eq!(partial.limitations, vec!["syntax".to_string()]);
}

fn args(items: &[&str]) -> Vec<String> {
    items.iter().map(|s| s.to_string()).collect()
}

#[test]
fn adapter_options_require_trust_and_keep_defaults() {
    let parsed = atlas::options::Options::parse(args(&["--trusted-local", "--root", "r", "--source", "lib.rs", "--output", "out.json"])).ok().unwrap();
    assert_eq!(parsed.root.as_deref(), Some("r"));
    assert_eq!(parsed.source.as_deref(), Some("lib.rs"));
    assert_eq!(parsed.output.as_deref(), Some("out.json"));
    assert_eq!(parsed.crate_name, "atlas_input");
    assert_eq!(parsed.edition, "2021");
    assert_eq!(parsed.panic_strategy, "unwind");
    assert!(parsed.cfg.is_empty());
    let refused = atlas::options::Options::parse(args(&["--root", "r"])).err().unwrap();
    assert_eq!(refused, "compiler extraction requires explicit --trusted-local");
}

#[test]
fn adapter_options_report_the_first_complaint() {
    let parse = |items: &[&str]| atlas::options::Options::parse(args(items)).err().unwrap();
    assert_eq!(parse(&["--trusted-local", "--root"]), "option requires a value");
    assert_eq!(parse(&["--trusted-local", "--jobs", "4"]), "unsupported option: --jobs");
    assert_eq!(parse(&["--trusted-local", "--edition", "2020"]), "unsupported edition");
    assert_eq!(parse(&["--trusted-local", "--panic", "halt"]), "unsupported panic strategy");
    assert_eq!(parse(&["--trusted-local", "--crate-name", "a-b"]), "invalid crate name");
    assert_eq!(parse(&["--trusted-local", "--crate-name", ""]), "invalid crate name");
    let long = "a".repeat(129);
    assert_eq!(parse(&["--trusted-local", "--crate-name", &long]), "option budget exceeded");
    let big = "x".repeat(4097);
    assert_eq!(parse(&["--trusted-local", "--cfg", &big]), "option budget exceeded");
    assert_eq!(parse(&["--trusted-local"]), "--root is required");
    assert_eq!(parse(&["--trusted-local", "--root", "r"]), "--source is required");
    assert_eq!(parse(&["--trusted-local", "--root", "r", "--source", "s.rs"]), "--output is required");
    // The flag loop fails before the trust check.
    assert_eq!(parse(&["--bogus", "1"]), "unsupported option: --bogus");
}

#[test]
fn adapter_options_sort_configuration_and_cap_its_count() {
    let parsed = atlas::options::Options::parse(args(&[
        "--trusted-local", "--root", "r", "--source", "s.rs", "--output", "o.json", "--cfg", "b", "--cfg", "a", "--cfg",
        "b", "--edition", "2024", "--panic", "abort",
    ]))
    .ok()
    .unwrap();
    assert_eq!(parsed.cfg, ["a", "b"]);
    assert_eq!(parsed.edition, "2024");
    assert_eq!(parsed.panic_strategy, "abort");
    let mut many = vec!["--trusted-local".to_string()];
    for index in 0..257 {
        many.push("--cfg".into());
        many.push(format!("v{index}"));
    }
    assert_eq!(
        atlas::options::Options::parse(many).err().unwrap(),
        "unsupported option: --cfg"
    );
}
