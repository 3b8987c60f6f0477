use combine_trace_stat::decimal::Micros;
use combine_trace_stat::line::{parse_line, Mean, Stage};
use combine_trace_stat::table::{summarize_file, StatTable};

fn lines(text: &[&str]) -> Vec<String> {
    text.iter().map(|s| s.to_string()).collect()
}

fn mean_value(a: Mean) -> f64 {
    a.total.digits as f64 / 10f64.powi(a.total.scale as i32) / a.count as f64
}

#[test]
fn two_files_merge_into_one_entry() {
    let a = summarize_file(&lines(&["header", "header", "foo 10 100.0 us 10.0"])).unwrap();
    let b = summarize_file(&lines(&["header", "header", "foo 5 50.0 us 10.0"])).unwrap();
    let mut total = StatTable::new();
    total.absorb(&a.table).unwrap();
    total.absorb(&b.table).unwrap();
    total.finalize();
    assert_eq!(total.len(), 1);
    let e = total.get(0);
    assert_eq!(e.function_name, "foo");
    assert_eq!(e.hit_count, 15);
    assert_eq!(e.time_total, Micros { digits: 1500, scale: 1 });
    assert_eq!(e.time_avg, Mean { total: Micros { digits: 1500, scale: 1 }, count: 15 });
    assert_eq!(mean_value(e.time_avg), 10.0);
}

#[test]
fn malformed_line_is_reported_and_skipped() {
    let s = summarize_file(&lines(&[
        "header",
        "header",
        "foo abc 100.0 us 10.0",
        "bar 2 4.0 us 2.0",
        "bar 3 6.0 us 2.0",
    ]))
    .unwrap();
    assert_eq!(s.errors.len(), 1);
    assert_eq!(s.errors[0].line, 3);
    assert_eq!(s.errors[0].error.stage, Stage::HitCount);
    assert_eq!(s.table.len(), 1);
    assert_eq!(s.table.get(0).function_name, "bar");
    assert_eq!(s.table.get(0).hit_count, 5);
    assert_eq!(s.table.get(0).time_total, Micros { digits: 100, scale: 1 });
    assert_eq!(s.table.find(&"foo".to_string()), None);
}

#[test]
fn header_lines_are_never_parsed() {
    let s = summarize_file(&lines(&["foo 1 1.0 us 1.0", "foo 1 1.0 us 1.0"])).unwrap();
    assert_eq!(s.table.len(), 0);
    assert!(s.errors.is_empty());
    let s = summarize_file(&Vec::new()).unwrap();
    assert_eq!(s.table.len(), 0);
}

#[test]
fn merge_keeps_first_mean_and_variance() {
    let mut t = StatTable::new();
    t.add(parse_line("foo 1 2.0 us 2.0 0.5").unwrap()).unwrap();
    t.add(parse_line("foo 3 9.0 us 3.0 1.5").unwrap()).unwrap();
    let e = t.get(0);
    assert_eq!(e.hit_count, 4);
    assert_eq!(e.time_total, Micros { digits: 110, scale: 1 });
    assert_eq!(e.time_avg, Mean { total: Micros { digits: 20, scale: 1 }, count: 1 });
    assert_eq!(e.time_variance, Micros { digits: 5, scale: 1 });
}

#[test]
fn merge_order_does_not_change_sums() {
    let mut ab = StatTable::new();
    ab.add(parse_line("foo 10 100.0 us 10.0").unwrap()).unwrap();
    ab.add(parse_line("foo 5 50.25 us 10.0").unwrap()).unwrap();
    let mut ba = StatTable::new();
    ba.add(parse_line("foo 5 50.25 us 10.0").unwrap()).unwrap();
    ba.add(parse_line("foo 10 100.0 us 10.0").unwrap()).unwrap();
    assert_eq!(ab.get(0).hit_count, ba.get(0).hit_count);
    assert_eq!(ab.get(0).time_total, ba.get(0).time_total);
    assert_eq!(ab.get(0).time_total, Micros { digits: 15025, scale: 2 });
}

#[test]
fn names_stay_unique_in_first_seen_order() {
    let s = summarize_file(&lines(&[
        "h",
        "h",
        "b 1 1.0 us 1.0",
        "a 1 1.0 us 1.0",
        "b 1 1.0 us 1.0",
    ]))
    .unwrap();
    assert_eq!(s.table.len(), 2);
    assert_eq!(s.table.get(0).function_name, "b");
    assert_eq!(s.table.get(1).function_name, "a");
    assert_eq!(s.table.find(&"a".to_string()), Some(1));
}

#[test]
fn final_pass_sets_every_mean() {
    let mut t = StatTable::new();
    t.add(parse_line("a 4 10.0 us 1.0").unwrap()).unwrap();
    t.add(parse_line("b 0 3.0 us 1.0").unwrap()).unwrap();
    t.finalize();
    assert_eq!(t.get(0).time_avg, Mean { total: Micros { digits: 100, scale: 1 }, count: 4 });
    assert_eq!(mean_value(t.get(0).time_avg), 2.5);
    assert_eq!(t.get(1).time_avg.count, 0);
    t.finalize();
    assert_eq!(t.get(0).time_avg, Mean { total: Micros { digits: 100, scale: 1 }, count: 4 });
}

#[test]
fn overflowing_hit_count_is_an_error() {
    let mut t = StatTable::new();
    t.add(parse_line("foo 18446744073709551615 1.0 us 1.0").unwrap()).unwrap();
    let e = t.add(parse_line("foo 1 1.0 us 1.0").unwrap()).unwrap_err();
    assert_eq!(e.function_name, "foo");
    assert_eq!(t.get(0).hit_count, u64::MAX);
    let r = summarize_file(&lines(&[
        "h",
        "h",
        "foo 18446744073709551615 1.0 us 1.0",
        "foo 1 1.0 us 1.0",
    ]));
    assert!(r.is_err());
}
