use search_bench::csv_export::{
    csv_header, fmt_u128, format_report_row, parse_report_row, parse_u128, render_csv,
    DerivedColumns,
};
use search_bench::types::{BenchmarkResults, SearchResult};

const HEADER: &str = "Size,Seq_Avg_Time_ns,Seq_Worst_Time_ns,Bin_Avg_Time_ns,Bin_Worst_Time_ns,Seq_Avg_Positions,Seq_Worst_Positions,Bin_Avg_Positions,Bin_Worst_Positions,Time_Speedup_Avg,Time_Speedup_Worst,Position_Efficiency_Avg,Position_Efficiency_Worst,Theoretical_Log2";

fn metrics(positions: usize, time: u128) -> SearchResult {
    SearchResult { positions_visited: positions, execution_time_ns: time, found_at: None }
}

fn sample_report() -> BenchmarkResults {
    BenchmarkResults {
        size: 1000,
        sequential_avg_case: metrics(500, 123456),
        sequential_worst_case: metrics(1000, 234567),
        binary_avg_case: metrics(8, 345),
        binary_worst_case: metrics(9, 456),
    }
}

fn sample_derived() -> DerivedColumns {
    DerivedColumns {
        time_speedup_avg: b"357.84".to_vec(),
        time_speedup_worst: b"514.40".to_vec(),
        position_efficiency_avg: b"62.50".to_vec(),
        position_efficiency_worst: b"111.11".to_vec(),
        theoretical_log2: b"9.97".to_vec(),
    }
}

#[test]
fn formats_decimal_text() {
    assert_eq!(fmt_u128(0), b"0".to_vec());
    assert_eq!(fmt_u128(7), b"7".to_vec());
    assert_eq!(fmt_u128(12345), b"12345".to_vec());
    assert_eq!(fmt_u128(u128::MAX), b"340282366920938463463374607431768211455".to_vec());
}

#[test]
fn parses_decimal_text() {
    assert_eq!(parse_u128(&b"0".to_vec()), Some(0));
    assert_eq!(parse_u128(&b"12345".to_vec()), Some(12345));
    assert_eq!(parse_u128(&b"340282366920938463463374607431768211455".to_vec()), Some(u128::MAX));
    assert_eq!(parse_u128(&b"".to_vec()), None);
    assert_eq!(parse_u128(&b"007".to_vec()), None);
    assert_eq!(parse_u128(&b"12x3".to_vec()), None);
    assert_eq!(parse_u128(&b"340282366920938463463374607431768211456".to_vec()), None);
}

#[test]
fn header_names_all_fourteen_columns() {
    let header = String::from_utf8(csv_header()).expect("header is UTF-8");
    assert_eq!(header, HEADER);
    assert_eq!(header.split(',').count(), 14);
}

#[test]
fn zero_reports_give_a_header_only_file() {
    let out = render_csv(&Vec::new(), &Vec::new());
    let text = String::from_utf8(out).expect("file is UTF-8");
    assert_eq!(text, format!("{}\n", HEADER));
    assert_eq!(text.lines().count(), 1);
}

#[test]
fn one_report_gives_a_header_and_one_data_row() {
    let out = render_csv(&vec![sample_report()], &vec![sample_derived()]);
    let text = String::from_utf8(out).expect("file is UTF-8");
    let lines: Vec<&str> = text.lines().collect();
    assert_eq!(lines.len(), 2);
    assert_eq!(lines[0], HEADER);
    assert_eq!(
        lines[1],
        "1000,123456,234567,345,456,500,1000,8,9,357.84,514.40,62.50,111.11,9.97"
    );
}

#[test]
fn data_rows_round_trip_through_the_parser() {
    let report = sample_report();
    let derived = sample_derived();
    let row = format_report_row(&report, &derived);
    let parsed = parse_report_row(&row).expect("a rendered row parses back");
    assert_eq!(parsed.size, report.size as u128);
    assert_eq!(parsed.seq_avg_time_ns, report.sequential_avg_case.execution_time_ns);
    assert_eq!(parsed.seq_worst_time_ns, report.sequential_worst_case.execution_time_ns);
    assert_eq!(parsed.bin_avg_time_ns, report.binary_avg_case.execution_time_ns);
    assert_eq!(parsed.bin_worst_time_ns, report.binary_worst_case.execution_time_ns);
    assert_eq!(parsed.seq_avg_positions, report.sequential_avg_case.positions_visited as u128);
    assert_eq!(parsed.seq_worst_positions, report.sequential_worst_case.positions_visited as u128);
    assert_eq!(parsed.bin_avg_positions, report.binary_avg_case.positions_visited as u128);
    assert_eq!(parsed.bin_worst_positions, report.binary_worst_case.positions_visited as u128);
    assert_eq!(parsed.time_speedup_avg, derived.time_speedup_avg);
    assert_eq!(parsed.time_speedup_worst, derived.time_speedup_worst);
    assert_eq!(parsed.position_efficiency_avg, derived.position_efficiency_avg);
    assert_eq!(parsed.position_efficiency_worst, derived.position_efficiency_worst);
    assert_eq!(parsed.theoretical_log2, derived.theoretical_log2);
}

#[test]
fn extreme_values_round_trip_without_loss() {
    let report = BenchmarkResults {
        size: usize::MAX,
        sequential_avg_case: metrics(0, u128::MAX),
        sequential_worst_case: metrics(usize::MAX, 0),
        binary_avg_case: metrics(1, 1),
        binary_worst_case: metrics(0, 0),
    };
    let derived = DerivedColumns {
        time_speedup_avg: b"0.00".to_vec(),
        time_speedup_worst: b"".to_vec(),
        position_efficiency_avg: b"inf".to_vec(),
        position_efficiency_worst: b"NaN".to_vec(),
        theoretical_log2: b"64.00".to_vec(),
    };
    let row = format_report_row(&report, &derived);
    let parsed = parse_report_row(&row).expect("a rendered row parses back");
    assert_eq!(parsed.size, usize::MAX as u128);
    assert_eq!(parsed.seq_avg_time_ns, u128::MAX);
    assert_eq!(parsed.seq_worst_positions, usize::MAX as u128);
    assert_eq!(parsed.time_speedup_worst, b"".to_vec());
    assert_eq!(parsed.position_efficiency_worst, b"NaN".to_vec());
}

#[test]
fn malformed_rows_are_rejected() {
    assert!(parse_report_row(&b"".to_vec()).is_none());
    assert!(parse_report_row(&b"1,2,3\n".to_vec()).is_none());
    assert!(parse_report_row(&b"1,2,3,4,5,6,7,8,9,a,b,c,d,e".to_vec()).is_none());
    assert!(parse_report_row(&b"x,2,3,4,5,6,7,8,9,a,b,c,d,e\n".to_vec()).is_none());
    assert!(parse_report_row(&b"01,2,3,4,5,6,7,8,9,a,b,c,d,e\n".to_vec()).is_none());
    let valid = b"1,2,3,4,5,6,7,8,9,a,b,c,d,e\n".to_vec();
    assert!(parse_report_row(&valid).is_some());
}
