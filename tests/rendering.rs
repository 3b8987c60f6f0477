use combine_trace_stat::decimal::Micros;
use combine_trace_stat::line::{parse_line, FunctionStats, Mean};
use combine_trace_stat::render::format_line;
use combine_trace_stat::report::report_row;

fn entry(name: &str, hits: u64, total: Micros, avg: Micros) -> FunctionStats {
    FunctionStats {
        function_name: name.to_string(),
        hit_count: hits,
        time_total: total,
        time_avg: Mean { total: avg, count: 1 },
        time_variance: Micros { digits: 0, scale: 0 },
    }
}

#[test]
fn line_is_written_field_by_field() {
    let e = entry("foo", 10, Micros { digits: 1000, scale: 1 }, Micros { digits: 100, scale: 1 });
    assert_eq!(format_line(&e), "foo 10 100.0 us 10.0");
}

#[test]
fn fractions_keep_leading_zeros() {
    let e = entry("f", 0, Micros { digits: 5, scale: 3 }, Micros { digits: 12, scale: 0 });
    assert_eq!(format_line(&e), "f 0 0.005 us 12");
    let e = entry("g", 7, Micros { digits: 1, scale: 45 }, Micros { digits: 120, scale: 2 });
    let text = format_line(&e);
    assert_eq!(text, format!("g 7 0.{}1 us 1.20", "0".repeat(44)));
}

#[test]
fn parsed_line_round_trips() {
    for line in [
        "foo 10 100.0 us 10.0 3.5",
        "do_page_fault\t 123456 98765.432 us   0.800",
        "x 18446744073709551615 .5 us 7.",
        "bar 0 0 us 0",
    ] {
        let first = parse_line(line).unwrap();
        let again = parse_line(&format_line(&first)).unwrap();
        assert_eq!(again.function_name, first.function_name);
        assert_eq!(again.hit_count, first.hit_count);
        assert_eq!(again.time_total, first.time_total);
        assert_eq!(again.time_avg, first.time_avg);
        assert_eq!(again.time_variance, Micros { digits: 0, scale: 0 });
    }
}

#[test]
fn report_columns_are_padded() {
    let row = report_row("foo", "15", "150us", "10us");
    let expected = format!("{:<40} {:<20} {:<20} {:<20}", "foo", "15", "150us", "10us");
    assert_eq!(row, expected);
    assert_eq!(row.len(), 40 + 1 + 20 + 1 + 20 + 1 + 20);
    let long = "x".repeat(50);
    let row = report_row(&long, "1", "2", "3");
    assert!(row.starts_with(&format!("{} 1", long)));
}
