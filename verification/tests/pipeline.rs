//! Tests of the telemetry pipeline: parsing, history, statistics,
//! formatting and log serialization. Values are i64 micro-units
//! (millionths); text is bytes.

use dcgm_tui::dashboard::{
    bar_height, is_quit_key, mib_to_bytes, render_stats, summary_triple, tick_due, Dashboard,
    MetricKind,
};
use dcgm_tui::format::{format_magnitude, format_percent};
use dcgm_tui::history::HistoryTable;
use dcgm_tui::logrow::{log_header, log_row, log_row_now, render_value};
use dcgm_tui::number::parse_number;
use dcgm_tui::parse::LineParser;
use dcgm_tui::stats::{percentile, positive_sorted};

const M: i64 = 1_000_000;

fn utilization_kinds(n: usize) -> Vec<MetricKind> {
    (0..n).map(|_| MetricKind::Utilization).collect()
}

// ---- number grammar ----

#[test]
fn parse_number_integers_and_fractions() {
    assert_eq!(parse_number(b"0"), Some(0));
    assert_eq!(parse_number(b"10"), Some(10 * M));
    assert_eq!(parse_number(b"0.5"), Some(500_000));
    assert_eq!(parse_number(b"-0.25"), Some(-250_000));
    assert_eq!(parse_number(b"1023.999"), Some(1_023_999_000));
    assert_eq!(parse_number(b"12."), Some(12 * M));
    assert_eq!(parse_number(b".5"), Some(500_000));
    assert_eq!(parse_number(b"007"), Some(7 * M));
}

#[test]
fn parse_number_truncates_excess_fraction_digits() {
    assert_eq!(parse_number(b"0.1234567"), Some(123_456));
    assert_eq!(parse_number(b"1.0000009"), Some(1 * M));
}

#[test]
fn parse_number_rejects_non_numbers() {
    assert_eq!(parse_number(b""), None);
    assert_eq!(parse_number(b"-"), None);
    assert_eq!(parse_number(b"."), None);
    assert_eq!(parse_number(b"-."), None);
    assert_eq!(parse_number(b"1.2.3"), None);
    assert_eq!(parse_number(b"12a"), None);
    assert_eq!(parse_number(b"a12"), None);
    assert_eq!(parse_number(b"1 2"), None);
    assert_eq!(parse_number(b"N/A"), None);
}

#[test]
fn parse_number_rejects_out_of_range() {
    // Far beyond i64 micro-units.
    assert_eq!(parse_number(b"99999999999999999999"), None);
    // The largest representable whole magnitude still parses.
    assert_eq!(parse_number(b"9223372036854"), Some(9_223_372_036_854 * M));
}

// ---- line parser ----

#[test]
fn parse_line_accepts_a_sample() {
    let p = LineParser::new(b"GPU 0", 12);
    let line = b"GPU 0 7 1 2 3 4 5 6 7 8 9 10 11 12";
    let rec = p.parse(line).expect("sample line");
    assert_eq!(rec.len(), 12);
    let want: Vec<i64> = (1..=12).map(|v| v * M).collect();
    assert_eq!(rec, want);
}

#[test]
fn parse_line_rejects_wrong_tag() {
    let p = LineParser::new(b"GPU 0", 12);
    assert_eq!(p.parse(b"GPU 1 7 1 2 3 4 5 6 7 8 9 10 11 12"), None);
    assert_eq!(p.parse(b"#Entity 7 1 2 3 4 5 6 7 8 9 10 11 12"), None);
}

#[test]
fn parse_line_rejects_wrong_field_count() {
    let p = LineParser::new(b"GPU 0", 12);
    // Twelve fields after the tag instead of thirteen.
    assert_eq!(p.parse(b"GPU 0 7 1 2 3 4 5 6 7 8 9 10 11"), None);
    // Fourteen fields after the tag.
    assert_eq!(p.parse(b"GPU 0 7 1 2 3 4 5 6 7 8 9 10 11 12 13"), None);
}

#[test]
fn parse_line_rejects_non_numeric_field() {
    let p = LineParser::new(b"GPU 0", 12);
    assert_eq!(p.parse(b"GPU 0 7 1 2 3 4 x 6 7 8 9 10 11 12"), None);
    // No partial record: even the discarded identifier must be numeric.
    assert_eq!(p.parse(b"GPU 0 id 1 2 3 4 5 6 7 8 9 10 11 12"), None);
}

#[test]
fn parse_line_ignores_headers_and_blanks() {
    let p = LineParser::new(b"GPU 0", 12);
    assert_eq!(p.parse(b"#Entity SMACT SMOCC TENSO"), None);
    assert_eq!(p.parse(b""), None);
    assert_eq!(p.parse(b"   "), None);
}

// ---- history table ----

#[test]
fn history_keeps_most_recent_within_capacity() {
    let mut t = HistoryTable::new(2, 3);
    for v in 1..=5i64 {
        t.push(0, v * M);
    }
    assert_eq!(t.snapshot(0), vec![3 * M, 4 * M, 5 * M]);
    assert_eq!(t.len_of(0), 3);
    // The other buffer is untouched.
    assert_eq!(t.snapshot(1), Vec::<i64>::new());
}

#[test]
fn history_evicts_single_oldest_in_order() {
    let mut t = HistoryTable::new(1, 2);
    t.push(0, 10);
    t.push(0, 20);
    t.push(0, 30);
    assert_eq!(t.snapshot(0), vec![20, 30]);
    t.push(0, 40);
    assert_eq!(t.snapshot(0), vec![30, 40]);
}

// ---- statistics ----

#[test]
fn percentile_empty_is_zero() {
    let empty: Vec<i64> = vec![];
    for p in [0u8, 50, 90, 99, 100] {
        assert_eq!(percentile(&empty, p), 0);
    }
}

#[test]
fn percentile_single_is_that_element() {
    let one = vec![42 * M];
    for p in [0u8, 1, 50, 99, 100] {
        assert_eq!(percentile(&one, p), 42 * M);
    }
}

#[test]
fn percentile_interpolates_linearly() {
    let s = vec![1 * M, 2 * M, 3 * M];
    // rank 50/100 * 2 = 1 exactly.
    assert_eq!(percentile(&s, 50), 2 * M);
    // rank 90/100 * 2 = 1.8: interpolate 2M..3M at weight 80.
    assert_eq!(percentile(&s, 90), 2_800_000);
    assert_eq!(percentile(&s, 0), 1 * M);
    assert_eq!(percentile(&s, 100), 3 * M);
}

#[test]
fn percentiles_are_monotonic_in_p() {
    let hist: Vec<i64> = vec![5, 0, 93, 17, 2, 88, 41, 64, 12, 77, 30, 55]
        .into_iter()
        .map(|v| v * M)
        .collect();
    let (p50, p90, p99) = summary_triple(&hist);
    assert!(p50 <= p90);
    assert!(p90 <= p99);
}

#[test]
fn summary_filters_non_positive_values() {
    // Zeros and negatives stay in the raw history but leave the ranking.
    let hist = vec![0, -3 * M, 10 * M, 0, 20 * M];
    let sorted = positive_sorted(&hist);
    assert_eq!(sorted, vec![10 * M, 20 * M]);
    let (p50, _, _) = summary_triple(&hist);
    assert_eq!(p50, 15 * M);
}

// ---- unit formatter ----

#[test]
fn format_magnitude_boundary_uses_next_unit_up() {
    // Exactly 1024 units scales to the next unit.
    assert_eq!(format_magnitude(1024 * M, false), b"1.00 KB".to_vec());
    // Just below the threshold stays in the base unit, un-scaled.
    assert_eq!(format_magnitude(1_023_999_000, false), b"1023 B".to_vec());
}

#[test]
fn format_magnitude_all_scales() {
    assert_eq!(format_magnitude(0, false), b"0 B".to_vec());
    assert_eq!(format_magnitude(512 * M, false), b"512 B".to_vec());
    assert_eq!(format_magnitude(1536 * M, false), b"1.50 KB".to_vec());
    assert_eq!(format_magnitude(1_048_576 * M, false), b"1.00 MB".to_vec());
    assert_eq!(format_magnitude(1_073_741_824 * M, false), b"1.00 GB".to_vec());
    assert_eq!(format_magnitude(1_099_511_627_776 * M, false), b"1.00 TB".to_vec());
    assert_eq!(format_magnitude(-5 * M, false), b"-5 B".to_vec());
}

#[test]
fn format_magnitude_rate_suffix() {
    assert_eq!(format_magnitude(2048 * M, true), b"2.00 KB/s".to_vec());
    assert_eq!(format_magnitude(100 * M, true), b"100 B/s".to_vec());
}

#[test]
fn format_percent_one_decimal() {
    assert_eq!(format_percent(500_000), b"50.0%".to_vec());
    assert_eq!(format_percent(1 * M), b"100.0%".to_vec());
    assert_eq!(format_percent(0), b"0.0%".to_vec());
    assert_eq!(format_percent(123_456), b"12.3%".to_vec());
    assert_eq!(format_percent(-250_000), b"-25.0%".to_vec());
}

#[test]
fn mib_conversion_saturates() {
    assert_eq!(mib_to_bytes(2 * M), 2 * M * 1_048_576);
    assert_eq!(mib_to_bytes(i64::MAX), i64::MAX);
}

// ---- bars ----

#[test]
fn bar_heights_square_root_scale() {
    // sqrt(4) * 100 = 200.
    assert_eq!(bar_height(4 * M), 200);
    assert_eq!(bar_height(1 * M), 100);
    // sqrt(0.25) * 100 = 50.
    assert_eq!(bar_height(250_000), 50);
    assert_eq!(bar_height(0), 0);
    assert_eq!(bar_height(-7), 0);
}

// ---- stats panel text ----

#[test]
fn stats_text_utilization() {
    let hist = vec![500_000];
    let text = render_stats(&MetricKind::Utilization, &hist);
    assert_eq!(text, b"p50: 50.0% p90: 50.0%".to_vec());
}

#[test]
fn stats_text_rate_empty_history() {
    let hist: Vec<i64> = vec![];
    let text = render_stats(&MetricKind::Rate, &hist);
    assert_eq!(text, b"p50: 0 B/s,p90: 0 B/s".to_vec());
}

#[test]
fn stats_text_memory_scales_mib_to_bytes() {
    let hist = vec![2 * M];
    let text = render_stats(&MetricKind::MemoryMib, &hist);
    assert_eq!(text, b"p50: 2.00 MB,p90: 2.00 MB".to_vec());
}

// ---- log serialization ----

#[test]
fn render_value_plain_decimal() {
    assert_eq!(render_value(10 * M), b"10".to_vec());
    assert_eq!(render_value(0), b"0".to_vec());
    assert_eq!(render_value(-250_000), b"-0.250000".to_vec());
    assert_eq!(render_value(1_500_000), b"1.500000".to_vec());
}

#[test]
fn log_header_names_all_metrics() {
    let names: Vec<Vec<u8>> = vec![b"SMACT".to_vec(), b"PCITX".to_vec(), b"FB_USED".to_vec()];
    assert_eq!(log_header(&names), b"timestamp,SMACT,PCITX,FB_USED".to_vec());
}

#[test]
fn log_row_joins_timestamp_and_values() {
    let row = log_row(&b"2020-01-01T00:00:00".to_vec(), &vec![1 * M, 500_000]);
    assert_eq!(row, b"2020-01-01T00:00:00,1,0.500000".to_vec());
}

#[test]
fn log_row_now_appends_record_after_timestamp() {
    let row = log_row_now(&vec![42 * M]);
    assert!(row.ends_with(b",42"));
    // An RFC 3339 timestamp precedes the record.
    assert!(row.len() > b",42".len());
}

// ---- render cycle decisions ----

#[test]
fn tick_gate_and_quit_key() {
    assert!(tick_due(100, 100));
    assert!(tick_due(150, 100));
    assert!(!tick_due(99, 100));
    assert!(is_quit_key(b'q'));
    assert!(!is_quit_key(b'x'));
    assert!(!is_quit_key(b'Q'));
}

// ---- end to end ----

#[test]
fn end_to_end_two_lines() {
    let mut d = Dashboard::new(b"TAG 0", utilization_kinds(11), 100);
    // A header line is silently ignored.
    assert_eq!(d.ingest_line(b"HEADER smact smocc tenso"), None);
    // A sample line: the first numeric field after the tag is the
    // discarded id-duplicate; the next eleven are the record.
    let rec = d
        .ingest_line(b"TAG 0 5 10 0 0 0 0 0 0 0 0 0 0")
        .expect("sample line");
    let mut want = vec![10 * M];
    want.extend(std::iter::repeat(0).take(10));
    assert_eq!(rec, want);
    // Each value landed in its metric's history, in catalog order.
    let (bars0, _) = d.panel(0);
    assert_eq!(bars0.len(), 1);
    // sqrt(10) * 100 = 316.
    assert_eq!(bars0[0], 316);
    for i in 1..11 {
        let (bars, _) = d.panel(i);
        assert_eq!(bars, vec![0]);
    }
}

#[test]
fn end_to_end_stats_line() {
    let mut d = Dashboard::new(b"GPU 0", utilization_kinds(2), 10);
    assert!(d.ingest_line(b"GPU 0 0 0.5 0.25").is_some());
    assert!(d.ingest_line(b"GPU 0 0 0.7 0.25").is_some());
    let (bars, text) = d.panel(0);
    assert_eq!(bars.len(), 2);
    // Positive-filtered sorted history [0.5, 0.7]: p50 = 0.6, p90 = 0.68.
    assert_eq!(text, b"p50: 60.0% p90: 68.0%".to_vec());
}
