use combine_trace_stat::decimal::{add_micros, Micros};
use combine_trace_stat::line::{parse_entry, parse_line, Mean, ParseError, Stage};

fn m(digits: u128, scale: usize) -> Micros {
    Micros { digits, scale }
}

fn stage_and_rest(r: Result<combine_trace_stat::line::FunctionStats, ParseError>) -> (Stage, String) {
    match r {
        Ok(_) => panic!("expected a parse failure"),
        Err(e) => (e.stage, e.rest),
    }
}

#[test]
fn full_line_parses() {
    let r = parse_line("foo 10 100.0 us 10.0 2.5").unwrap();
    assert_eq!(r.function_name, "foo");
    assert_eq!(r.hit_count, 10);
    assert_eq!(r.time_total, m(1000, 1));
    assert_eq!(r.time_avg, Mean { total: m(100, 1), count: 1 });
    assert_eq!(r.time_variance, m(25, 1));
}

#[test]
fn missing_variance_is_zero() {
    let r = parse_line("foo 10 100.0 us 10.0").unwrap();
    assert_eq!(r.hit_count, 10);
    assert_eq!(r.time_variance, m(0, 0));
    let r = parse_line("foo 10 100.0 us 10.0   ").unwrap();
    assert_eq!(r.time_variance, m(0, 0));
}

#[test]
fn trailing_word_gives_zero_variance() {
    let r = parse_line("foo 10 100.0 us 10.0 abc").unwrap();
    assert_eq!(r.time_variance, m(0, 0));
}

#[test]
fn letters_for_hit_count_fail() {
    let (stage, rest) = stage_and_rest(parse_line("foo abc 100.0 us 10.0"));
    assert_eq!(stage, Stage::HitCount);
    assert_eq!(rest, "abc 100.0 us 10.0");
}

#[test]
fn hit_count_overflow_fails() {
    let (stage, _) = stage_and_rest(parse_line("foo 18446744073709551616 1.0 us 1.0"));
    assert_eq!(stage, Stage::HitCount);
    let r = parse_line("foo 18446744073709551615 1.0 us 1.0").unwrap();
    assert_eq!(r.hit_count, u64::MAX);
}

#[test]
fn each_stage_is_named() {
    assert_eq!(stage_and_rest(parse_line("")), (Stage::FunctionName, String::new()));
    assert_eq!(stage_and_rest(parse_line("foo")), (Stage::NameGap, String::new()));
    assert_eq!(stage_and_rest(parse_line("foo 10")), (Stage::HitCountGap, String::new()));
    assert_eq!(
        stage_and_rest(parse_line("foo 1 1.2.3 us 1.0")),
        (Stage::TimeTotal, "1.2.3 us 1.0".to_string())
    );
    assert_eq!(
        stage_and_rest(parse_line("foo 10 100.0us 10.0")),
        (Stage::Unit, "us 10.0".to_string())
    );
    assert_eq!(stage_and_rest(parse_line("foo 10 100.0 us")), (Stage::TotalGap, String::new()));
    assert_eq!(
        stage_and_rest(parse_line("foo 10 100.0 us x")),
        (Stage::TimeAvg, "x".to_string())
    );
    assert_eq!(
        stage_and_rest(parse_line("foo 10 100.0 us 10.0x")),
        (Stage::AvgGap, "x".to_string())
    );
}

#[test]
fn lone_point_is_no_number() {
    let (stage, _) = stage_and_rest(parse_line("foo 1 . us 1.0"));
    assert_eq!(stage, Stage::TimeTotal);
    let r = parse_line("foo 1 .5 us 3.").unwrap();
    assert_eq!(r.time_total, m(5, 1));
    assert_eq!(r.time_avg.total, m(3, 0));
}

#[test]
fn tabs_separate_fields() {
    let r = parse_line("do_sys_open\t\t42\t3.125 us\t0.074").unwrap();
    assert_eq!(r.function_name, "do_sys_open");
    assert_eq!(r.hit_count, 42);
    assert_eq!(r.time_total, m(3125, 3));
    assert_eq!(r.time_avg.total, m(74, 3));
}

#[test]
fn leading_whitespace_is_skipped() {
    let r = parse_entry("   \t foo 1 2.0 us 2.0").unwrap();
    assert_eq!(r.function_name, "foo");
    let (stage, rest) = stage_and_rest(parse_entry("  foo x"));
    assert_eq!(stage, Stage::HitCount);
    assert_eq!(rest, "x");
}

#[test]
fn sums_align_scales() {
    assert_eq!(add_micros(m(1000, 1), m(500, 1)), Some(m(1500, 1)));
    assert_eq!(add_micros(m(15, 1), m(3, 2)), Some(m(153, 2)));
    assert_eq!(add_micros(m(7, 0), m(0, 0)), Some(m(7, 0)));
}

#[test]
fn sums_that_overflow_fail() {
    assert_eq!(add_micros(m(u128::MAX, 0), m(1, 0)), None);
    assert_eq!(add_micros(m(u128::MAX / 5, 0), m(0, 1)), None);
}
