use fmt_comparison::features::{curated_feature_sets, feature_labels, join_features};
use fmt_comparison::report::{render_report, render_table, Section};
use fmt_comparison::sizes::SizeResult;

fn names(list: &[&str]) -> Vec<String> {
    list.iter().map(|name| String::from(*name)).collect()
}

// Stands for the build: what the size tool would print for a configuration.
fn measure(label: &str) -> String {
    let (text, rodata) = match label {
        "" => (500, 20),
        "flagX" => (2400, 300),
        "flagY" => (900, 100),
        "flagX,flagY" => (2500, 0),
        _ => panic!("no such configuration: {}", label),
    };
    format!(
        "app  :\nsection   size   addr\n.vector_table 192 0x0\n.text {} 0xc0\n.rodata {} 0x800\n.bss 4 0x20000000\nTotal {}\n",
        text,
        rodata,
        text + rodata + 196
    )
}

#[test]
fn pipeline_from_features_to_ranked_table() {
    let sets = curated_feature_sets(&names(&["flagX", "flagY"]));
    let labels = feature_labels(&sets);
    assert_eq!(labels, names(&["", "flagX", "flagY", "flagX,flagY"]));
    let mut results = Vec::new();
    for set in &sets {
        let label = join_features(set);
        let output = measure(&label);
        results.push(SizeResult::new(label, &output));
    }
    let table = render_table(&results);
    let expected = "\n|features|text|rodata|total flash|\n|--------|---:|-----:|----------:|\n||500|20|520|\n|flagY|900|100|1000|\n|flagX,flagY|2500|0|2500|\n|flagX|2400|300|2700|\n";
    assert_eq!(table, expected);
    let mut totals: Vec<u64> = Vec::new();
    for line in table.lines().skip(3) {
        let cells: Vec<&str> = line.split('|').collect();
        totals.push(cells[4].parse().unwrap());
    }
    assert_eq!(totals, vec![520, 1000, 2500, 2700]);
}

#[test]
fn pipeline_with_a_build_that_prints_no_sizes() {
    let sets = curated_feature_sets(&names(&["flagX", "flagY"]));
    let mut results = Vec::new();
    for set in &sets {
        let label = join_features(set);
        let output = if label == "flagY" { String::from("error: linking failed\n") } else { measure(&label) };
        results.push(SizeResult::try_new(label, &output).unwrap());
    }
    let report = render_report(
        "# Output\n\n",
        &vec![Section { prose: String::from("## Stub\n"), results }],
    );
    let expected = "# Output\n\n## Stub\n\n|features|text|rodata|total flash|\n|--------|---:|-----:|----------:|\n||500|20|520|\n|flagX,flagY|2500|0|2500|\n|flagX|2400|300|2700|\n|flagY|4294967295|4294967295|8589934590|\n\n";
    assert_eq!(report, expected);
}
