use fmt_comparison::report::{
    rank, render_report, render_row, render_table, sort_by_total, Section,
};
use fmt_comparison::sizes::{SizeResult, MISSING};

fn result(features: &str, text: u32, rodata: u32) -> SizeResult {
    SizeResult { features: String::from(features), text, rodata }
}

fn labels(results: &[SizeResult]) -> Vec<String> {
    results.iter().map(|r| r.features.clone()).collect()
}

const HEAD: &str = "\n|features|text|rodata|total flash|\n|--------|---:|-----:|----------:|\n";

#[test]
fn rows_come_in_rising_order_of_total() {
    let results = vec![result("A", 200, 100), result("B", 60, 40), result("C", 150, 50)];
    let table = render_table(&results);
    let expected = format!("{}|B|60|40|100|\n|C|150|50|200|\n|A|200|100|300|\n", HEAD);
    assert_eq!(table, expected);
    assert_eq!(labels(&sort_by_total(&results)), vec!["B", "C", "A"]);
    assert_eq!(rank(&results), vec![1, 2, 0]);
}

#[test]
fn equal_totals_keep_their_order() {
    let results = vec![
        result("first", 10, 10),
        result("small", 1, 1),
        result("second", 5, 15),
        result("third", 20, 0),
        result("large", 100, 0),
        result("fourth", 0, 20),
    ];
    assert_eq!(rank(&results), vec![1, 0, 2, 3, 5, 4]);
    assert_eq!(
        labels(&sort_by_total(&results)),
        vec!["small", "first", "second", "third", "fourth", "large"]
    );
}

#[test]
fn rank_agrees_with_the_stable_sort_of_std() {
    let mut state: u32 = 7;
    for _ in 0..300 {
        state = state.wrapping_mul(1664525).wrapping_add(1013904223);
        let count = (state >> 24) % 12;
        let mut results = Vec::new();
        for i in 0..count {
            state = state.wrapping_mul(1664525).wrapping_add(1013904223);
            results.push(result(&format!("r{}", i), (state >> 20) % 4, (state >> 10) % 3));
        }
        let mut expected: Vec<usize> = (0..results.len()).collect();
        expected.sort_by_key(|&i| results[i].text + results[i].rodata);
        assert_eq!(rank(&results), expected);
        let sorted = sort_by_total(&results);
        let names: Vec<String> = expected.iter().map(|&i| results[i].features.clone()).collect();
        assert_eq!(labels(&sorted), names);
    }
}

#[test]
fn missing_sizes_sort_last() {
    let results = vec![
        result("broken", MISSING, MISSING),
        result("half", 10, MISSING),
        result("fine", 4000000000, 200000000),
        result("small", 1, 2),
    ];
    assert_eq!(labels(&sort_by_total(&results)), vec!["small", "fine", "half", "broken"]);
    let table = render_table(&results);
    let expected = format!(
        "{}|small|1|2|3|\n|fine|4000000000|200000000|4200000000|\n|half|10|4294967295|4294967305|\n|broken|4294967295|4294967295|8589934590|\n",
        HEAD
    );
    assert_eq!(table, expected);
}

#[test]
fn sort_by_total_keeps_every_field() {
    let results = vec![result("b", 7, 8), result("a", 1, 2)];
    let sorted = sort_by_total(&results);
    assert_eq!(sorted.len(), 2);
    assert_eq!((sorted[0].features.as_str(), sorted[0].text, sorted[0].rodata), ("a", 1, 2));
    assert_eq!((sorted[1].features.as_str(), sorted[1].text, sorted[1].rodata), ("b", 7, 8));
}

#[test]
fn table_without_results_is_the_head() {
    assert_eq!(render_table(&Vec::new()), HEAD);
    assert_eq!(rank(&Vec::new()), Vec::<usize>::new());
}

#[test]
fn render_row_puts_bars_between() {
    assert_eq!(render_row(&result("raw,fmt-u32", 1234, 56)), "|raw,fmt-u32|1234|56|1290|\n");
    assert_eq!(render_row(&result("", 0, 0)), "||0|0|0|\n");
    assert_eq!(
        render_row(&result("x", u32::MAX, u32::MAX)),
        "|x|4294967295|4294967295|8589934590|\n"
    );
}

#[test]
fn render_report_groups_tables_under_their_prose() {
    let sections = vec![
        Section {
            prose: String::from("## Fmt-comparison\n\n### Fmt\n\nTest of builtin fmt machinery.\n"),
            results: vec![result("raw", 20, 4), result("", 10, 2)],
        },
        Section {
            prose: String::from("## Dyn-comparison\n\nSee that `raw` is similar.\n"),
            results: vec![result("dyn", 3, 0)],
        },
    ];
    let report = render_report("# Output\n\n", &sections);
    let mut expected = String::from("# Output\n\n");
    expected += "## Fmt-comparison\n\n### Fmt\n\nTest of builtin fmt machinery.\n";
    expected += HEAD;
    expected += "||10|2|12|\n|raw|20|4|24|\n";
    expected += "\n";
    expected += "## Dyn-comparison\n\nSee that `raw` is similar.\n";
    expected += HEAD;
    expected += "|dyn|3|0|3|\n";
    expected += "\n";
    assert_eq!(report, expected);
}

#[test]
fn render_report_without_sections_is_the_title() {
    assert_eq!(render_report("# Output\n\n", &Vec::new()), "# Output\n\n");
}
