use hoi4_parser::{benchmark_round_trip, Hoi4ParserError};

#[test]
fn benchmark_api_should_return_report() {
    let input = "country = { name = \"China\" name = \"PRC\" effect = \"set_var = { key = \\\"x\\\" value = 1 }\" }";
    let report = benchmark_round_trip(input, 200).expect("benchmark should succeed");
    assert_eq!(report.iterations, 200);
    assert!(report.input_bytes > 0);
    assert!(report.parse_generate_total >= report.avg_per_iteration);
    assert!(report.parse_generate_total >= report.tokenize_total);
    assert!(report.parse_generate_total >= report.parse_total);
    assert!(report.parse_generate_total >= report.generate_total);
    assert!(report.parse_generate_total >= report.post_process_total);
}

#[test]
fn benchmark_refuses_zero_iterations() {
    match benchmark_round_trip("a = 1", 0) {
        Err(Hoi4ParserError::Generate { message }) => assert_eq!(message, "迭代次数必须大于 0"),
        other => panic!("expected a generate error, got {other:?}"),
    }
}

#[test]
fn benchmark_reports_parse_failures() {
    assert!(matches!(
        benchmark_round_trip("a = \"open", 3),
        Err(Hoi4ParserError::Parse { .. })
    ));
}

#[test]
fn benchmark_counts_input_bytes() {
    let report = benchmark_round_trip("名 = 1", 1).expect("benchmark should succeed");
    assert_eq!(report.input_bytes, "名 = 1".len());
    assert_eq!(report.iterations, 1);
}

#[test]
fn benchmark_average_is_total_over_iterations() {
    let report = benchmark_round_trip("a = { b = 1 }", 7).expect("benchmark should succeed");
    assert_eq!(
        report.avg_per_iteration.as_nanos(),
        report.parse_generate_total.as_nanos() / 7
    );
    let stages = report.tokenize_total
        + report.parse_total
        + report.generate_total
        + report.post_process_total;
    assert!(stages <= report.parse_generate_total);
}

#[test]
fn benchmark_reports_the_stage_error_message() {
    match benchmark_round_trip("a = \"open", 3) {
        Err(Hoi4ParserError::Parse { message }) => assert_eq!(message, "字符串未闭合"),
        other => panic!("expected a parse error, got {other:?}"),
    }
    match benchmark_round_trip("= x", 2) {
        Err(Hoi4ParserError::Parse { message }) => assert_eq!(message, "不期望的 token: Equals"),
        other => panic!("expected a parse error, got {other:?}"),
    }
}
