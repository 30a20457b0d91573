//! Section sizes, as the size tool prints them.
//!
//! The tool's report is text in lines. A line that begins with `.text` or
//! `.rodata` carries that section's size in bytes as its second field, where
//! fields are what ASCII whitespace separates. A section that the report
//! names more than once has the size of the last line that names it; one that
//! it never names has the size [`MISSING`].

use crate::decimal::{decimal, digit_glyph, digit_value, is_digit, lemma_decimal_digits};
use vstd::prelude::*;

verus! {

/// The size recorded for a section that the report does not name.
pub const MISSING: u32 = 0xffff_ffff;

/// The sizes measured for one feature configuration.
#[derive(Debug)]
pub struct SizeResult {
    /// The configuration token: the feature names with commas between.
    pub features: String,
    /// Bytes of code, or [`MISSING`].
    pub text: u32,
    /// Bytes of read-only data, or [`MISSING`].
    pub rodata: u32,
}

/// What a [`SizeResult`] holds, as plain values.
pub struct SizeRecord {
    /// The configuration token.
    pub features: Seq<char>,
    /// Bytes of code, or [`MISSING`].
    pub text: u32,
    /// Bytes of read-only data, or [`MISSING`].
    pub rodata: u32,
}

impl SizeRecord {
    /// The flash that the configuration takes: code and read-only data
    /// together.
    pub open spec fn total(self) -> nat {
        (self.text + self.rodata) as nat
    }
}

impl View for SizeResult {
    type V = SizeRecord;

    open spec fn view(&self) -> SizeRecord {
        SizeRecord { features: self.features@, text: self.text, rodata: self.rodata }
    }
}

impl DeepView for SizeResult {
    type V = SizeRecord;

    open spec fn deep_view(&self) -> SizeRecord {
        self@
    }
}

/// Why a report cannot be read.
#[derive(Debug, Clone, Copy, PartialEq, Eq, Structural)]
pub enum ParseError {
    /// A line names a section and has no second field.
    NoValue,
    /// A line names a section and its second field is no number that fits
    /// in 32 bits.
    BadValue,
}

/// What a run of characters is made of.
#[derive(Debug, Clone, Copy, PartialEq, Eq, Structural)]
pub enum CharClass {
    /// ASCII whitespace.
    Space,
    /// Anything but ASCII whitespace.
    Word,
    /// Anything but a line feed.
    Line,
}

/// Whether `c` is ASCII whitespace: space, tab, line feed, form feed or
/// carriage return.
pub open spec fn is_space(c: char) -> bool {
    c == ' ' || c == '\t' || c == '\n' || c == '\x0c' || c == '\r'
}

/// Whether `c` is of the given class.
pub open spec fn belongs(c: char, class: CharClass) -> bool {
    match class {
        CharClass::Space => is_space(c),
        CharClass::Word => !is_space(c),
        CharClass::Line => c != '\n',
    }
}

/// How many characters at the start of `text` are of the given class, up to
/// the first that is not.
pub open spec fn run_length(text: Seq<char>, class: CharClass) -> nat
    decreases text.len(),
{
    if text.len() > 0 && belongs(text[0], class) {
        1 + run_length(text.drop_first(), class)
    } else {
        0
    }
}

/// The lines of `text`: the pieces between its line feeds. A carriage return
/// before a line feed stays with its line, where it counts as whitespace, and
/// text that ends in a line feed has an empty last line.
pub open spec fn lines(text: Seq<char>) -> Seq<Seq<char>>
    decreases text.len(),
{
    let end = run_length(text, CharClass::Line);
    if end >= text.len() {
        seq![text]
    } else {
        seq![text.take(end as int)] + lines(text.skip((end + 1) as int))
    }
}

/// The fields of `line`: its longest pieces without ASCII whitespace.
pub open spec fn fields(line: Seq<char>) -> Seq<Seq<char>>
    decreases line.len(),
{
    let rest = line.skip(run_length(line, CharClass::Space) as int);
    let width = run_length(rest, CharClass::Word);
    if width == 0 {
        Seq::empty()
    } else {
        proof {
            lemma_run_length_bounds(line, CharClass::Space);
            lemma_run_length_bounds(rest, CharClass::Word);
        }
        seq![rest.take(width as int)] + fields(rest.skip(width as int))
    }
}

/// The number that a row of digits stands for.
pub open spec fn digits_value(digits: Seq<char>) -> nat
    decreases digits.len(),
{
    if digits.len() == 0 {
        0
    } else {
        digits_value(digits.drop_last()) * 10 + digit_value(digits.last())
    }
}

/// The digits of a field: the field without the `+` that may stand in front.
pub open spec fn unsigned_part(field: Seq<char>) -> Seq<char> {
    if field.len() > 0 && field[0] == '+' {
        field.drop_first()
    } else {
        field
    }
}

/// The number that a field stands for: one or more decimal digits, with
/// nothing before them but at most one `+`, and a value that fits in 32 bits.
pub open spec fn number(field: Seq<char>) -> Option<u32> {
    let digits = unsigned_part(field);
    if digits.len() > 0 && (forall|i: int| 0 <= i < digits.len() ==> is_digit(#[trigger] digits[i]))
        && digits_value(digits) <= u32::MAX {
        Some(digits_value(digits) as u32)
    } else {
        None
    }
}

/// The name that opens the lines for the code section.
pub open spec fn text_name() -> Seq<char> {
    seq!['.', 't', 'e', 'x', 't']
}

/// The name that opens the lines for the section of read-only data.
pub open spec fn rodata_name() -> Seq<char> {
    seq!['.', 'r', 'o', 'd', 'a', 't', 'a']
}

/// Whether `line` begins with `name`.
pub open spec fn names_section(line: Seq<char>, name: Seq<char>) -> bool {
    name.is_prefix_of(line)
}

/// The size that `line` carries: the number in its second field.
pub open spec fn line_value(line: Seq<char>) -> Result<u32, ParseError> {
    let found = fields(line);
    if found.len() < 2 {
        Err(ParseError::NoValue)
    } else {
        match number(found[1]) {
            Some(value) => Ok(value),
            None => Err(ParseError::BadValue),
        }
    }
}

/// What is wrong with `line`, if anything: it names one of the two sections
/// and carries no size.
pub open spec fn fault_of(line: Seq<char>) -> Option<ParseError> {
    if names_section(line, text_name()) || names_section(line, rodata_name()) {
        match line_value(line) {
            Ok(_) => None,
            Err(fault) => Some(fault),
        }
    } else {
        None
    }
}

/// What is wrong with the first line that has a fault, if any line has one.
pub open spec fn first_fault(report: Seq<Seq<char>>) -> Option<ParseError>
    decreases report.len(),
{
    if report.len() == 0 {
        None
    } else {
        match first_fault(report.drop_last()) {
            Some(fault) => Some(fault),
            None => fault_of(report.last()),
        }
    }
}

/// The size of the section `name` in a report without faults: what the last
/// line that names it carries, or [`MISSING`] where no line names it.
pub open spec fn section_size(report: Seq<Seq<char>>, name: Seq<char>) -> u32
    decreases report.len(),
{
    if report.len() == 0 {
        MISSING
    } else if names_section(report.last(), name) {
        match line_value(report.last()) {
            Ok(value) => value,
            Err(_) => MISSING,
        }
    } else {
        section_size(report.drop_last(), name)
    }
}

/// A run is no longer than the text, all of it is of the class, and what
/// follows it is not.
pub proof fn lemma_run_length_bounds(text: Seq<char>, class: CharClass)
    ensures
        run_length(text, class) <= text.len(),
        forall|i: int| 0 <= i < run_length(text, class) ==> belongs(#[trigger] text[i], class),
        run_length(text, class) < text.len() ==> !belongs(
            text[run_length(text, class) as int],
            class,
        ),
    decreases text.len(),
{
    if text.len() > 0 && belongs(text[0], class) {
        let rest = text.drop_first();
        lemma_run_length_bounds(rest, class);
        assert forall|i: int| 0 <= i < run_length(text, class) implies belongs(
            #[trigger] text[i],
            class,
        ) by {
            if i > 0 {
                assert(text[i] == rest[i - 1]);
            }
        }
        if run_length(text, class) < text.len() {
            assert(text[run_length(text, class) as int] == rest[run_length(rest, class) as int]);
        }
    }
}

/// A stretch at the start that is all of the class, and is followed by the
/// end or by a character that is not, is the run.
pub proof fn lemma_run_length_is(text: Seq<char>, class: CharClass, n: nat)
    requires
        n <= text.len(),
        forall|i: int| 0 <= i < n ==> belongs(#[trigger] text[i], class),
        n < text.len() ==> !belongs(text[n as int], class),
    ensures
        run_length(text, class) == n,
    decreases n,
{
    if n > 0 {
        let rest = text.drop_first();
        assert(belongs(text[0], class));
        assert forall|i: int| 0 <= i < n - 1 implies belongs(#[trigger] rest[i], class) by {
            assert(rest[i] == text[i + 1]);
        }
        if n - 1 < rest.len() {
            assert(rest[n - 1] == text[n as int]);
        }
        lemma_run_length_is(rest, class, (n - 1) as nat);
    }
}

/// The characters of a string, one by one.
pub fn chars_of(text: &str) -> (chars: Vec<char>)
    ensures
        chars@ == text@,
{
    broadcast use vstd::string::group_string_axioms;

    let mut chars: Vec<char> = Vec::new();
    for c in it: text.chars()
        invariant
            it.seq() == text@,
            chars@ == it.seq().take(it.index() as int),
    {
        chars.push(c);
        assert(it.seq().take(it.index() + 1) =~= it.seq().take(it.index() as int).push(c));
    }
    assert(text@.take(text@.len() as int) =~= text@);
    chars
}

/// Whether `c` is of the given class.
pub fn is_of_class(c: char, class: CharClass) -> (b: bool)
    ensures
        b == belongs(c, class),
{
    let space = c == ' ' || c == '\t' || c == '\n' || c == '\x0c' || c == '\r';
    match class {
        CharClass::Space => space,
        CharClass::Word => !space,
        CharClass::Line => c != '\n',
    }
}

/// Where the run of the given class that starts at `from` ends.
pub fn run_end(text: &Vec<char>, from: usize, class: CharClass) -> (end: usize)
    requires
        from <= text.len(),
    ensures
        from <= end <= text.len(),
        end - from == run_length(text@.skip(from as int), class),
{
    let mut end = from;
    while end < text.len() && is_of_class(text[end], class)
        invariant
            from <= end <= text.len(),
            forall|i: int| from <= i < end ==> belongs(#[trigger] text@[i], class),
        decreases text.len() - end,
    {
        end = end + 1;
    }
    proof {
        let rest = text@.skip(from as int);
        assert forall|i: int| 0 <= i < end - from implies belongs(#[trigger] rest[i], class) by {
            assert(rest[i] == text@[from + i]);
        }
        lemma_run_length_is(rest, class, (end - from) as nat);
    }
    end
}

/// The characters from `from` up to `to`.
pub fn part_of(text: &Vec<char>, from: usize, to: usize) -> (part: Vec<char>)
    requires
        from <= to <= text.len(),
    ensures
        part@ == text@.subrange(from as int, to as int),
{
    let mut part: Vec<char> = Vec::new();
    let mut i = from;
    while i < to
        invariant
            from <= i <= to <= text.len(),
            part@ == text@.subrange(from as int, i as int),
        decreases to - i,
    {
        part.push(text[i]);
        assert(text@.subrange(from as int, i + 1) =~= text@.subrange(from as int, i as int).push(
            text@[i as int],
        ));
        i = i + 1;
    }
    part
}

/// The lines of `text`, each as its characters.
pub fn split_lines(text: &Vec<char>) -> (found: Vec<Vec<char>>)
    ensures
        found.deep_view() == lines(text@),
{
    let mut found: Vec<Vec<char>> = Vec::new();
    let mut start: usize = 0;
    assert(text@.skip(0) =~= text@);
    loop
        invariant
            start <= text.len(),
            lines(text@) == found.deep_view() + lines(text@.skip(start as int)),
        decreases text.len() - start,
    {
        let end = run_end(text, start, CharClass::Line);
        let line = part_of(text, start, end);
        let ghost rest = text@.skip(start as int);
        let ghost before = found.deep_view();
        found.push(line);
        proof {
            assert(line.deep_view() =~= line@);
            assert(found.deep_view() =~= before.push(line@));
            assert(rest.take(end - start) =~= line@);
        }
        if end == text.len() {
            proof {
                assert(rest =~= line@);
                assert(lines(text@) =~= found.deep_view());
            }
            return found;
        }
        proof {
            assert(rest.skip(end - start + 1) =~= text@.skip(end + 1));
            assert(lines(text@) =~= found.deep_view() + lines(text@.skip(end + 1)));
        }
        start = end + 1;
    }
}

/// The second field of `line`, where it has one.
pub fn second_field(line: &Vec<char>) -> (field: Option<Vec<char>>)
    ensures
        match field {
            Some(found) => fields(line@).len() >= 2 && found@ == fields(line@)[1],
            None => fields(line@).len() < 2,
        },
{
    let first_start = run_end(line, 0, CharClass::Space);
    let first_end = run_end(line, first_start, CharClass::Word);
    proof {
        assert(line@.skip(0) =~= line@);
    }
    if first_end == first_start {
        return None;
    }
    let ghost rest = line@.skip(first_start as int);
    let ghost after = rest.skip(first_end - first_start);
    let second_start = run_end(line, first_end, CharClass::Space);
    let second_end = run_end(line, second_start, CharClass::Word);
    proof {
        assert(after =~= line@.skip(first_end as int));
        assert(after.skip(second_start - first_end) =~= line@.skip(second_start as int));
    }
    if second_end == second_start {
        assert(fields(after) =~= Seq::<Seq<char>>::empty());
        return None;
    }
    let found = part_of(line, second_start, second_end);
    proof {
        let tail = line@.skip(second_start as int);
        assert(tail.take(second_end - second_start) =~= found@);
        assert(fields(after)[0] == found@);
        assert(fields(line@)[1] == fields(after)[0]);
    }
    Some(found)
}

/// A row of digits stands for no less than any row it begins with.
pub proof fn lemma_digits_value_grows(digits: Seq<char>, n: int)
    requires
        0 <= n <= digits.len(),
    ensures
        digits_value(digits.take(n)) <= digits_value(digits),
    decreases digits.len(),
{
    if n == digits.len() {
        assert(digits.take(n) =~= digits);
    } else {
        assert(digits.drop_last().take(n) =~= digits.take(n));
        lemma_digits_value_grows(digits.drop_last(), n);
    }
}

/// The digit that `c` is, where it is one.
pub fn digit_of(c: char) -> (digit: Option<u32>)
    ensures
        match digit {
            Some(d) => is_digit(c) && d == digit_value(c),
            None => !is_digit(c),
        },
{
    match c {
        '0' => Some(0),
        '1' => Some(1),
        '2' => Some(2),
        '3' => Some(3),
        '4' => Some(4),
        '5' => Some(5),
        '6' => Some(6),
        '7' => Some(7),
        '8' => Some(8),
        '9' => Some(9),
        _ => None,
    }
}

/// The number that `field` stands for, where it stands for one that fits in
/// 32 bits.
pub fn parse_number(field: &Vec<char>) -> (value: Option<u32>)
    ensures
        value == number(field@),
{
    let start: usize = if field.len() > 0 && field[0] == '+' {
        1
    } else {
        0
    };
    let ghost digits = unsigned_part(field@);
    proof {
        assert(digits =~= field@.skip(start as int));
    }
    if start == field.len() {
        return None;
    }
    let mut value: u32 = 0;
    let mut i: usize = start;
    proof {
        assert(digits.take(0) =~= Seq::<char>::empty());
    }
    while i < field.len()
        invariant
            start <= i <= field.len(),
            digits == field@.skip(start as int),
            digits == unsigned_part(field@),
            forall|j: int| 0 <= j < i - start ==> is_digit(#[trigger] digits[j]),
            value == digits_value(digits.take(i - start)),
        decreases field.len() - i,
    {
        let ghost longer = digits.take(i - start + 1);
        proof {
            assert(longer.drop_last() =~= digits.take(i - start));
            assert(longer.last() == field@[i as int]);
            lemma_digits_value_grows(digits, i - start + 1);
        }
        let digit = match digit_of(field[i]) {
            Some(d) => d,
            None => {
                assert(!is_digit(digits[i - start]));
                return None;
            },
        };
        assert(digits_value(longer) == value * 10 + digit);
        let tenfold = match value.checked_mul(10) {
            Some(t) => t,
            None => {
                return None;
            },
        };
        value = match tenfold.checked_add(digit) {
            Some(v) => v,
            None => {
                return None;
            },
        };
        i = i + 1;
    }
    proof {
        assert(digits.take(i - start) =~= digits);
    }
    Some(value)
}

/// Whether `line` begins with `name`.
pub fn begins_with(line: &Vec<char>, name: &Vec<char>) -> (b: bool)
    ensures
        b == names_section(line@, name@),
{
    if name.len() > line.len() {
        return false;
    }
    let mut i: usize = 0;
    while i < name.len()
        invariant
            i <= name.len() <= line.len(),
            forall|j: int| 0 <= j < i ==> name@[j] == line@[j],
        decreases name.len() - i,
    {
        if name[i] != line[i] {
            assert(line@.subrange(0, name@.len() as int)[i as int] != name@[i as int]);
            return false;
        }
        i = i + 1;
    }
    assert(name@ =~= line@.subrange(0, name@.len() as int));
    true
}

/// The size that `line` carries.
pub fn read_line_value(line: &Vec<char>) -> (value: Result<u32, ParseError>)
    ensures
        value == line_value(line@),
{
    match second_field(line) {
        None => Err(ParseError::NoValue),
        Some(field) => match parse_number(&field) {
            Some(value) => Ok(value),
            None => Err(ParseError::BadValue),
        },
    }
}

/// The characters `.text`.
fn text_name_chars() -> (name: Vec<char>)
    ensures
        name@ == text_name(),
{
    let name = vec!['.', 't', 'e', 'x', 't'];
    assert(name@ =~= text_name());
    name
}

/// The characters `.rodata`.
fn rodata_name_chars() -> (name: Vec<char>)
    ensures
        name@ == rodata_name(),
{
    let name = vec!['.', 'r', 'o', 'd', 'a', 't', 'a'];
    assert(name@ =~= rodata_name());
    name
}

/// The sizes of the code section and of the section of read-only data that
/// the report gives, in this order; or what is wrong with the first line of
/// the report that names one of the two and carries no size.
pub fn section_sizes(output: &str) -> (sizes: Result<(u32, u32), ParseError>)
    ensures
        match sizes {
            Ok((text, rodata)) => {
                &&& first_fault(lines(output@)) is None
                &&& text == section_size(lines(output@), text_name())
                &&& rodata == section_size(lines(output@), rodata_name())
            },
            Err(fault) => first_fault(lines(output@)) == Some(fault),
        },
{
    let chars = chars_of(output);
    let report = split_lines(&chars);
    let text_key = text_name_chars();
    let rodata_key = rodata_name_chars();
    let mut text: u32 = MISSING;
    let mut rodata: u32 = MISSING;
    let mut i: usize = 0;
    let ghost all = lines(output@);
    proof {
        assert(all.take(0) =~= Seq::<Seq<char>>::empty());
    }
    while i < report.len()
        invariant
            i <= report.len(),
            all == lines(output@),
            report.deep_view() == all,
            text_key@ == text_name(),
            rodata_key@ == rodata_name(),
            first_fault(all.take(i as int)) is None,
            text == section_size(all.take(i as int), text_name()),
            rodata == section_size(all.take(i as int), rodata_name()),
        decreases report.len() - i,
    {
        let line = &report[i];
        let ghost seen = all.take(i + 1);
        proof {
            assert(report.deep_view()[i as int] =~= line@);
            assert(seen.drop_last() =~= all.take(i as int));
            assert(seen.last() == line@);
        }
        let in_text = begins_with(line, &text_key);
        let in_rodata = begins_with(line, &rodata_key);
        if in_text || in_rodata {
            match read_line_value(line) {
                Ok(value) => {
                    if in_text {
                        text = value;
                    }
                    if in_rodata {
                        rodata = value;
                    }
                },
                Err(fault) => {
                    proof {
                        lemma_fault_stays(all, i + 1);
                    }
                    return Err(fault);
                },
            }
        }
        i = i + 1;
    }
    proof {
        assert(all.take(i as int) =~= all);
    }
    Ok((text, rodata))
}

/// A fault among the first lines of a report is the report's first fault.
pub proof fn lemma_fault_stays(report: Seq<Seq<char>>, n: int)
    requires
        0 <= n <= report.len(),
        first_fault(report.take(n)) is Some,
    ensures
        first_fault(report) == first_fault(report.take(n)),
    decreases report.len(),
{
    if n == report.len() {
        assert(report.take(n) =~= report);
    } else {
        assert(report.drop_last().take(n) =~= report.take(n));
        lemma_fault_stays(report.drop_last(), n);
    }
}

impl SizeResult {
    /// Reads the two section sizes for the configuration `features` from the
    /// size tool's report, which must be free of faults: each line that names
    /// one of the two sections carries a size.
    pub fn new(features: String, output: &str) -> (result: Self)
        requires
            first_fault(lines(output@)) is None,
        ensures
            result.features == features,
            result.text == section_size(lines(output@), text_name()),
            result.rodata == section_size(lines(output@), rodata_name()),
    {
        match section_sizes(output) {
            Ok((text, rodata)) => SizeResult { features, text, rodata },
            Err(_) => vstd::pervasive::unreached(),
        }
    }

    /// Reads the two section sizes for the configuration `features` from the
    /// size tool's report, or says what is wrong with the report's first
    /// faulty line.
    pub fn try_new(features: String, output: &str) -> (result: Result<Self, ParseError>)
        ensures
            match result {
                Ok(read) => {
                    &&& first_fault(lines(output@)) is None
                    &&& read.features == features
                    &&& read.text == section_size(lines(output@), text_name())
                    &&& read.rodata == section_size(lines(output@), rodata_name())
                },
                Err(fault) => first_fault(lines(output@)) == Some(fault),
            },
    {
        match section_sizes(output) {
            Ok((text, rodata)) => Ok(SizeResult { features, text, rodata }),
            Err(fault) => Err(fault),
        }
    }

    /// The flash that the configuration takes: code and read-only data
    /// together. With a section missing this is at least [`MISSING`].
    pub fn total(&self) -> (sum: u64)
        ensures
            sum == self@.total(),
            (self.text == MISSING || self.rodata == MISSING) ==> sum >= MISSING,
    {
        self.text as u64 + self.rodata as u64
    }
}

/// A report has no first fault just when none of its lines has a fault.
pub proof fn lemma_faultless(report: Seq<Seq<char>>)
    ensures
        first_fault(report) is None <==> forall|i: int|
            0 <= i < report.len() ==> fault_of(#[trigger] report[i]) is None,
    decreases report.len(),
{
    if report.len() > 0 {
        let earlier = report.drop_last();
        lemma_faultless(earlier);
        if first_fault(report) is None {
            assert forall|i: int| 0 <= i < report.len() implies fault_of(
                #[trigger] report[i],
            ) is None by {
                if i < earlier.len() {
                    assert(report[i] == earlier[i]);
                }
            }
        } else if first_fault(earlier) is None {
            assert(fault_of(report[report.len() - 1]) is Some);
        } else {
            let i = choose|i: int| 0 <= i < earlier.len() && !(fault_of(
                #[trigger] earlier[i],
            ) is None);
            assert(report[i] == earlier[i]);
        }
    }
}

/// A section that no line names has the size [`MISSING`].
pub proof fn lemma_absent_is_missing(report: Seq<Seq<char>>, name: Seq<char>)
    requires
        forall|i: int| 0 <= i < report.len() ==> !names_section(#[trigger] report[i], name),
    ensures
        section_size(report, name) == MISSING,
    decreases report.len(),
{
    if report.len() > 0 {
        let earlier = report.drop_last();
        assert(!names_section(report[report.len() - 1], name));
        assert forall|i: int| 0 <= i < earlier.len() implies !names_section(
            #[trigger] earlier[i],
            name,
        ) by {
            assert(earlier[i] == report[i]);
        }
        lemma_absent_is_missing(earlier, name);
    }
}

/// The last line that names a section decides: where line `at` names it and
/// carries a size, and no later line names it, the section has that size,
/// whatever the earlier lines say.
pub proof fn lemma_last_wins(report: Seq<Seq<char>>, name: Seq<char>, at: int)
    requires
        0 <= at < report.len(),
        names_section(report[at], name),
        line_value(report[at]) is Ok,
        forall|i: int| at < i < report.len() ==> !names_section(#[trigger] report[i], name),
    ensures
        Ok::<u32, ParseError>(section_size(report, name)) == line_value(report[at]),
    decreases report.len(),
{
    if at < report.len() - 1 {
        let earlier = report.drop_last();
        assert(!names_section(report[report.len() - 1], name));
        assert(earlier[at] == report[at]);
        assert forall|i: int| at < i < earlier.len() implies !names_section(
            #[trigger] earlier[i],
            name,
        ) by {
            assert(earlier[i] == report[i]);
        }
        lemma_last_wins(earlier, name, at);
    }
}

/// A row of digits that is the decimal notation of a number stands for that
/// number.
pub proof fn lemma_decimal_value(n: nat)
    ensures
        digits_value(decimal(n)) == n,
    decreases n,
{
    if n < 10 {
        assert(decimal(n).drop_last() =~= Seq::<char>::empty());
        assert(decimal(n).last() == digit_glyph(n));
        assert(digits_value(decimal(n).drop_last()) == 0);
    } else {
        lemma_decimal_value(n / 10);
        assert(decimal(n).drop_last() =~= decimal(n / 10));
        assert(decimal(n).last() == digit_glyph(n % 10));
    }
}

/// What is written is read back: the decimal notation of a size is a field
/// that stands for that size.
pub proof fn lemma_number_reads_decimal(size: u32)
    ensures
        number(decimal(size as nat)) == Some(size),
{
    lemma_decimal_digits(size as nat);
    lemma_decimal_value(size as nat);
    assert(is_digit(decimal(size as nat)[0]));
}

} // verus!
