use linefreq::csv::{csv_header, csv_row, decimal_string, render_csv};
use linefreq::report::build_report;
use linefreq::table::{count_data, DataCount, FrequencyTable};

fn lines(v: &[&str]) -> Vec<String> {
    v.iter().map(|s| s.to_string()).collect()
}

fn tally(v: &[&str]) -> FrequencyTable {
    let mut t = FrequencyTable::new();
    count_data(&lines(v), &mut t);
    t
}

fn pairs(rows: &[DataCount]) -> Vec<(String, usize)> {
    rows.iter().map(|r| (r.line.clone(), r.count)).collect()
}

#[test]
fn five_lines_give_a_three_then_b_two() {
    let t = tally(&["a", "b", "a", "a", "b"]);
    let report = build_report(&t);
    assert_eq!(pairs(&report), vec![("a".to_string(), 3), ("b".to_string(), 2)]);
    assert_eq!(render_csv(&report), "Line,Count\na,3\nb,2\n");
}

#[test]
fn empty_input_gives_header_only() {
    let t = tally(&[]);
    let report = build_report(&t);
    assert!(report.is_empty());
    assert_eq!(render_csv(&report), "Line,Count\n");
}

#[test]
fn counts_sum_to_number_of_lines() {
    let input = ["x", "y", "x", "z", "", "x", "y", ""];
    let t = tally(&input);
    assert_eq!(t.total(), input.len());
    let report = build_report(&t);
    let sum: usize = report.iter().map(|r| r.count).sum();
    assert_eq!(sum, 8);
}

#[test]
fn one_row_per_distinct_line_with_its_count() {
    let t = tally(&["x", "y", "x", "z", "", "x", "y", ""]);
    let report = build_report(&t);
    assert_eq!(report.len(), 4);
    for (line, k) in [("x", 3), ("y", 2), ("z", 1), ("", 2)] {
        let found: Vec<&DataCount> = report.iter().filter(|r| r.line == line).collect();
        assert_eq!(found.len(), 1);
        assert_eq!(found[0].count, k);
    }
    assert!(report.iter().all(|r| r.line != "w"));
}

#[test]
fn report_is_sorted_by_descending_count() {
    let t = tally(&["c", "b", "a", "b", "a", "a", "d", "a", "b"]);
    let report = build_report(&t);
    for w in report.windows(2) {
        assert!(w[0].count >= w[1].count);
    }
    assert_eq!(
        pairs(&report),
        vec![
            ("a".to_string(), 4),
            ("b".to_string(), 3),
            ("c".to_string(), 1),
            ("d".to_string(), 1)
        ]
    );
}

#[test]
fn equal_counts_keep_first_seen_order() {
    let t = tally(&["q", "p", "r", "p", "q", "r"]);
    let report = build_report(&t);
    assert_eq!(
        pairs(&report),
        vec![("q".to_string(), 2), ("p".to_string(), 2), ("r".to_string(), 2)]
    );
}

#[test]
fn arrival_order_does_not_change_the_rows() {
    let a = tally(&["a", "b", "a", "c", "b", "a"]);
    let b = tally(&["c", "b", "b", "a", "a", "a"]);
    let mut ra = pairs(&build_report(&a));
    let mut rb = pairs(&build_report(&b));
    ra.sort();
    rb.sort();
    assert_eq!(ra, rb);
}

#[test]
fn counting_in_batches_matches_counting_at_once() {
    let mut t = FrequencyTable::new();
    count_data(&lines(&["a", "b"]), &mut t);
    count_data(&lines(&["b", "b", "c"]), &mut t);
    assert_eq!(
        pairs(&build_report(&t)),
        vec![("b".to_string(), 3), ("a".to_string(), 1), ("c".to_string(), 1)]
    );
}

#[test]
fn increment_adds_one_occurrence() {
    let mut t = FrequencyTable::new();
    assert_eq!(t.len(), 0);
    t.increment("k".to_string());
    t.increment("j".to_string());
    t.increment("k".to_string());
    assert_eq!(t.count("k"), 2);
    assert_eq!(t.count("j"), 1);
    assert_eq!(t.count("missing"), 0);
    assert_eq!(t.len(), 2);
    assert_eq!(t.total(), 3);
    assert_eq!(pairs(&t.rows()), vec![("k".to_string(), 2), ("j".to_string(), 1)]);
}

#[test]
fn lines_differ_by_exact_text() {
    let t = tally(&["a", "a ", "A", "a"]);
    assert_eq!(t.count("a"), 2);
    assert_eq!(t.count("a "), 1);
    assert_eq!(t.count("A"), 1);
    assert_eq!(t.len(), 3);
}

#[test]
fn decimal_of_edge_values() {
    assert_eq!(decimal_string(0), "0");
    assert_eq!(decimal_string(9), "9");
    assert_eq!(decimal_string(10), "10");
    assert_eq!(decimal_string(12345), "12345");
    assert_eq!(decimal_string(usize::MAX), usize::MAX.to_string());
}

#[test]
fn row_record_is_not_quoted() {
    let row = DataCount { line: "x,y".to_string(), count: 42 };
    assert_eq!(csv_row(&row), "x,y,42");
    assert_eq!(csv_header(), "Line,Count");
}

#[test]
fn unicode_lines_are_kept() {
    let t = tally(&["数据", "数据", "é"]);
    let report = build_report(&t);
    assert_eq!(render_csv(&report), "Line,Count\n数据,2\né,1\n");
}

#[test]
fn large_table_is_ordered_by_count_then_first_seen() {
    let mut input: Vec<String> = Vec::new();
    for i in 0..300usize {
        for _ in 0..(i % 7) + 1 {
            input.push(format!("line{}", i));
        }
    }
    let mut t = FrequencyTable::new();
    count_data(&input, &mut t);
    assert_eq!(t.len(), 300);
    assert_eq!(t.total(), input.len());
    let report = build_report(&t);
    assert_eq!(report.len(), 300);
    let first_seen = |line: &str| -> usize { line[4..].parse().unwrap() };
    for w in report.windows(2) {
        assert!(
            w[0].count > w[1].count
                || (w[0].count == w[1].count && first_seen(&w[0].line) < first_seen(&w[1].line))
        );
    }
    for r in &report {
        assert_eq!(r.count, first_seen(&r.line) % 7 + 1);
    }
    assert_eq!(report[0].line, "line6");
    assert_eq!(report[0].count, 7);
    assert_eq!(report[299].line, "line294");
}

#[test]
fn rows_at_picks_rows_by_position() {
    let t = tally(&["a", "b", "b", "c"]);
    assert_eq!(t.count_at(1), 2);
    assert_eq!(
        pairs(&t.rows_at(&vec![2, 0, 2])),
        vec![("c".to_string(), 1), ("a".to_string(), 1), ("c".to_string(), 1)]
    );
}
