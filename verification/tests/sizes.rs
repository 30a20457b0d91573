use fmt_comparison::sizes::{
    begins_with, chars_of, is_of_class, parse_number, part_of, read_line_value, run_end,
    second_field, section_sizes, split_lines, CharClass, ParseError, SizeResult, MISSING,
};

fn chars(text: &str) -> Vec<char> {
    text.chars().collect()
}

fn sysv_report(text: u32, rodata: u32) -> String {
    let mut report = String::from("fmt-comparison  :\n");
    report += "section               size        addr\n";
    report += ".vector_table          192   0x8000000\n";
    report += &format!(".text                 {}   0x80000c0\n", text);
    report += &format!(".rodata               {}   0x80005d4\n", rodata);
    report += ".data                    0  0x20000000\n";
    report += ".bss                     4  0x20000000\n";
    report += ".uninit                  0  0x20000004\n";
    report += ".debug_abbrev         4031         0x0\n";
    report += "Total               123456\n";
    report
}

// What the size tool's report gives when it is read with the string methods
// of std: lines, starts_with, split_ascii_whitespace, parse.
fn read_with_std(output: &str) -> Option<(u32, u32)> {
    let mut text = u32::MAX;
    let mut rodata = u32::MAX;
    for line in output.lines() {
        if line.starts_with(".text") {
            text = line.split_ascii_whitespace().nth(1)?.parse().ok()?;
        }
        if line.starts_with(".rodata") {
            rodata = line.split_ascii_whitespace().nth(1)?.parse().ok()?;
        }
    }
    Some((text, rodata))
}

#[test]
fn text_and_rodata_add_up() {
    let result = SizeResult::new(String::from("raw"), ".text 1234 0\n.rodata 56 0\n");
    assert_eq!(result.features, "raw");
    assert_eq!(result.text, 1234);
    assert_eq!(result.rodata, 56);
    assert_eq!(result.total(), 1290);
}

#[test]
fn repeated_section_keeps_the_last_size() {
    let result = SizeResult::new(String::new(), ".text 100\n.text 200\n");
    assert_eq!(result.text, 200);
    let other = SizeResult::new(String::new(), ".rodata 7\n.text 1\n.rodata 8\n.rodata 9\n");
    assert_eq!(other.text, 1);
    assert_eq!(other.rodata, 9);
}

#[test]
fn missing_rodata_is_the_sentinel() {
    let result = SizeResult::new(String::from("raw"), ".text 1234\n");
    assert_eq!(result.text, 1234);
    assert_eq!(result.rodata, MISSING);
    assert_eq!(result.rodata, u32::MAX);
    assert_eq!(result.total(), 1234 + 4294967295);
    assert_ne!(result.total(), 0);
    assert!(result.total() >= u64::from(u32::MAX));
}

#[test]
fn missing_both_sections() {
    let result = SizeResult::new(String::from("x"), "");
    assert_eq!(result.text, MISSING);
    assert_eq!(result.rodata, MISSING);
    assert_eq!(result.total(), 8589934590);
    let other = SizeResult::new(String::from("x"), "error: could not compile\n");
    assert_eq!(other.text, MISSING);
    assert_eq!(other.rodata, MISSING);
}

#[test]
fn reads_a_sysv_report() {
    let report = sysv_report(1300, 212);
    let result = SizeResult::new(String::from("raw,fmt-u32"), &report);
    assert_eq!(result.features, "raw,fmt-u32");
    assert_eq!(result.text, 1300);
    assert_eq!(result.rodata, 212);
    assert_eq!(result.total(), 1512);
}

#[test]
fn section_names_are_prefixes() {
    let result = SizeResult::new(String::new(), ".text.startup 12 0\n.rodata.str1.1 34 0\n");
    assert_eq!(result.text, 12);
    assert_eq!(result.rodata, 34);
    let other = SizeResult::new(String::new(), " .text 12\n.tex 5\n.data 6\nx.rodata 7\n");
    assert_eq!(other.text, MISSING);
    assert_eq!(other.rodata, MISSING);
}

#[test]
fn fields_are_separated_by_ascii_whitespace() {
    let result = SizeResult::new(String::new(), ".text\t\t77\x0c1\r\n.rodata \r 5\r\n");
    assert_eq!(result.text, 77);
    assert_eq!(result.rodata, 5);
    let last = SizeResult::new(String::new(), ".text 1\n.rodata 2");
    assert_eq!(last.text, 1);
    assert_eq!(last.rodata, 2);
    let crlf = SizeResult::new(String::new(), ".text 3\r\n.rodata 4\r");
    assert_eq!(crlf.text, 3);
    assert_eq!(crlf.rodata, 4);
}

#[test]
fn numbers_may_have_a_plus_and_leading_zeros() {
    let result = SizeResult::new(String::new(), ".text +12\n.rodata 0034\n");
    assert_eq!(result.text, 12);
    assert_eq!(result.rodata, 34);
    let largest = SizeResult::new(String::new(), ".text 4294967295\n.rodata 0\n");
    assert_eq!(largest.text, u32::MAX);
    assert_eq!(largest.rodata, 0);
}

#[test]
fn try_new_reads_what_new_reads() {
    let report = sysv_report(1234, 56);
    let result = SizeResult::try_new(String::from("raw"), &report).unwrap();
    assert_eq!(result.features, "raw");
    assert_eq!(result.text, 1234);
    assert_eq!(result.rodata, 56);
    assert_eq!(result.total(), 1290);
}

#[test]
fn try_new_without_a_second_field() {
    let found = SizeResult::try_new(String::new(), ".text 1\n.rodata\n");
    assert_eq!(found.err(), Some(ParseError::NoValue));
    let spaces = SizeResult::try_new(String::new(), ".text   \n");
    assert_eq!(spaces.err(), Some(ParseError::NoValue));
}

#[test]
fn try_new_with_a_field_that_is_no_number() {
    for field in ["abc", "12a", "-1", "+", "++1", "1.5", "0x10", "4294967296", "99999999999999999999", "１２"] {
        let report = format!(".text {} 0\n", field);
        let found = SizeResult::try_new(String::new(), &report);
        assert_eq!(found.err(), Some(ParseError::BadValue), "{}", field);
    }
}

#[test]
fn try_new_reports_the_first_fault() {
    let found = SizeResult::try_new(String::new(), ".text 1\n.rodata x\n.text\n");
    assert_eq!(found.err(), Some(ParseError::BadValue));
    let other = SizeResult::try_new(String::new(), ".text\n.rodata x\n.text 5\n");
    assert_eq!(other.err(), Some(ParseError::NoValue));
}

#[test]
fn faults_on_other_lines_do_not_count() {
    let found = SizeResult::try_new(String::new(), ".data\n.bss x\n.text 9\nTotal\n").unwrap();
    assert_eq!(found.text, 9);
    assert_eq!(found.rodata, MISSING);
}

#[test]
fn section_sizes_gives_text_then_rodata() {
    assert_eq!(section_sizes(".rodata 2\n.text 1\n"), Ok((1, 2)));
    assert_eq!(section_sizes(""), Ok((MISSING, MISSING)));
    assert_eq!(section_sizes(".text"), Err(ParseError::NoValue));
    assert_eq!(section_sizes(".rodata 1 2\n.rodata z 2"), Err(ParseError::BadValue));
}

#[test]
fn section_sizes_agrees_with_std() {
    let pieces = [
        ".text", ".rodata", ".data", " ", "\t", "\n", "\r\n", "\r", "12", "+7", "x", "0", "\x0c",
        "4294967295", "4294967296", "é", "\u{a0}", "1 ",
    ];
    let mut state: u32 = 12345;
    for _ in 0..3000 {
        let mut report = String::new();
        state = state.wrapping_mul(1664525).wrapping_add(1013904223);
        let count = (state >> 24) % 9;
        for _ in 0..count {
            state = state.wrapping_mul(1664525).wrapping_add(1013904223);
            report += pieces[(state >> 16) as usize % pieces.len()];
        }
        assert_eq!(section_sizes(&report).ok(), read_with_std(&report), "{:?}", report);
    }
}

#[test]
fn chars_of_gives_each_character() {
    assert_eq!(chars_of(""), Vec::<char>::new());
    assert_eq!(chars_of(".text 1"), vec!['.', 't', 'e', 'x', 't', ' ', '1']);
    assert_eq!(chars_of("aé\u{10348}"), vec!['a', 'é', '\u{10348}']);
}

#[test]
fn split_lines_cuts_at_line_feeds() {
    assert_eq!(split_lines(&chars("")), vec![chars("")]);
    assert_eq!(split_lines(&chars("a")), vec![chars("a")]);
    assert_eq!(split_lines(&chars("a\nbc")), vec![chars("a"), chars("bc")]);
    assert_eq!(split_lines(&chars("a\n")), vec![chars("a"), chars("")]);
    assert_eq!(split_lines(&chars("\n\nx\r\n")), vec![chars(""), chars(""), chars("x\r"), chars("")]);
}

#[test]
fn second_field_skips_whitespace() {
    assert_eq!(second_field(&chars(".text 12 0x0")), Some(chars("12")));
    assert_eq!(second_field(&chars("  a \t b  ")), Some(chars("b")));
    assert_eq!(second_field(&chars("a\u{a0}b c")), Some(chars("c")));
    assert_eq!(second_field(&chars(".text")), None);
    assert_eq!(second_field(&chars(".text  ")), None);
    assert_eq!(second_field(&chars("")), None);
    assert_eq!(second_field(&chars(" \t ")), None);
}

#[test]
fn parse_number_reads_decimal_digits() {
    assert_eq!(parse_number(&chars("0")), Some(0));
    assert_eq!(parse_number(&chars("1234")), Some(1234));
    assert_eq!(parse_number(&chars("+56")), Some(56));
    assert_eq!(parse_number(&chars("000")), Some(0));
    assert_eq!(parse_number(&chars("4294967295")), Some(u32::MAX));
    assert_eq!(parse_number(&chars("00004294967295")), Some(u32::MAX));
    assert_eq!(parse_number(&chars("4294967296")), None);
    assert_eq!(parse_number(&chars("42949672950")), None);
    assert_eq!(parse_number(&chars("")), None);
    assert_eq!(parse_number(&chars("+")), None);
    assert_eq!(parse_number(&chars("-3")), None);
    assert_eq!(parse_number(&chars("3 ")), None);
    assert_eq!(parse_number(&chars("3+")), None);
}

#[test]
fn parse_number_agrees_with_std() {
    let glyphs = ['0', '1', '9', '4', '+', '-', 'a', ' '];
    let mut state: u32 = 99;
    for _ in 0..3000 {
        state = state.wrapping_mul(1664525).wrapping_add(1013904223);
        let count = (state >> 24) % 12;
        let mut field = String::new();
        for _ in 0..count {
            state = state.wrapping_mul(1664525).wrapping_add(1013904223);
            let glyph = if (state >> 8) % 4 == 0 { glyphs[(state >> 16) as usize % 8] } else { glyphs[(state >> 16) as usize % 4] };
            field.push(glyph);
        }
        assert_eq!(parse_number(&chars(&field)), field.parse::<u32>().ok(), "{:?}", field);
    }
}

#[test]
fn begins_with_compares_the_first_characters() {
    assert!(begins_with(&chars(".text 1"), &chars(".text")));
    assert!(begins_with(&chars(".text"), &chars(".text")));
    assert!(begins_with(&chars("x"), &chars("")));
    assert!(!begins_with(&chars(".tex"), &chars(".text")));
    assert!(!begins_with(&chars(" .text"), &chars(".text")));
    assert!(!begins_with(&chars(".rodata"), &chars(".text")));
}

#[test]
fn read_line_value_reads_the_second_field() {
    assert_eq!(read_line_value(&chars(".text 12 0")), Ok(12));
    assert_eq!(read_line_value(&chars(".text")), Err(ParseError::NoValue));
    assert_eq!(read_line_value(&chars(".text twelve")), Err(ParseError::BadValue));
}

#[test]
fn run_end_finds_where_a_run_stops() {
    let text = chars("ab  \tcd\nef");
    assert_eq!(run_end(&text, 0, CharClass::Word), 2);
    assert_eq!(run_end(&text, 0, CharClass::Space), 0);
    assert_eq!(run_end(&text, 2, CharClass::Space), 5);
    assert_eq!(run_end(&text, 0, CharClass::Line), 7);
    assert_eq!(run_end(&text, 7, CharClass::Line), 7);
    assert_eq!(run_end(&text, 8, CharClass::Line), 10);
    assert_eq!(run_end(&text, 10, CharClass::Word), 10);
}

#[test]
fn part_of_copies_a_stretch() {
    let text = chars("abcdef");
    assert_eq!(part_of(&text, 1, 4), chars("bcd"));
    assert_eq!(part_of(&text, 2, 2), chars(""));
    assert_eq!(part_of(&text, 0, 6), text);
}

#[test]
fn is_of_class_tells_the_classes_apart() {
    for c in [' ', '\t', '\n', '\x0c', '\r'] {
        assert!(is_of_class(c, CharClass::Space));
        assert!(!is_of_class(c, CharClass::Word));
    }
    for c in ['a', '.', '0', '\x0b', '\u{a0}', '\u{2003}'] {
        assert!(!is_of_class(c, CharClass::Space));
        assert!(is_of_class(c, CharClass::Word));
        assert!(is_of_class(c, CharClass::Line));
    }
    assert!(!is_of_class('\n', CharClass::Line));
    assert!(is_of_class('\r', CharClass::Line));
}
