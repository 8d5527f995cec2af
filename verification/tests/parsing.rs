use project_allocation::order::{is_lex_le, sort_lines};
use project_allocation::rckey::RcKey;
use project_allocation::representation::{
    find_project, find_staff, Problem, Project, RawProject, RawStudent, Staff,
};
use project_allocation::text::{
    chars_of, parse_u32, push_decimal, slice, split, split_lines, Span,
};

fn c(s: &str) -> Vec<char> {
    s.chars().collect()
}

fn parts(s: &str, spans: Vec<Span>) -> Vec<String> {
    let ascii = s.is_ascii();
    spans.into_iter().map(|span| slice(s, ascii, span).to_string()).collect()
}

fn fields(s: &str) -> Vec<String> {
    parts(s, split(&c(s), ' '))
}

fn lines(s: &str) -> Vec<String> {
    parts(s, split_lines(&c(s)))
}

fn number(s: &str) -> Option<u32> {
    parse_u32(&c(s), Span { start: 0, end: s.chars().count() })
}

fn owned(v: &[&str]) -> Vec<String> {
    v.iter().map(|l| l.to_string()).collect()
}

#[test]
fn chars_of_gives_the_characters_in_order() {
    assert_eq!(chars_of("a é\n"), vec!['a', ' ', 'é', '\n']);
    assert_eq!(chars_of(""), Vec::<char>::new());
}

#[test]
fn slice_gives_the_part_between_two_positions() {
    let span = Span { start: 2, end: 5 };
    assert_eq!(slice("S1 Math", true, span), " Ma");
    assert_eq!(slice("S1 Math", false, span), " Ma");
    assert_eq!(slice("é1 Mäth", false, span), " Mä");
    assert_eq!(slice("abc", true, Span { start: 3, end: 3 }), "");
    assert_eq!(slice("abc", false, Span { start: 0, end: 3 }), "abc");
}

#[test]
fn split_gives_the_place_of_each_field() {
    let spans = split(&c("ab c"), ' ');
    assert_eq!(spans.len(), 2);
    assert_eq!((spans[0].start, spans[0].end), (0, 2));
    assert_eq!((spans[1].start, spans[1].end), (3, 4));
}

#[test]
fn split_keeps_empty_fields() {
    assert_eq!(fields("a b"), vec!["a", "b"]);
    assert_eq!(fields(""), vec![""]);
    assert_eq!(fields("a  b "), vec!["a", "", "b", ""]);
    assert_eq!(fields(" "), vec!["", ""]);
    assert_eq!(fields("é ü"), vec!["é", "ü"]);
}

#[test]
fn split_lines_follows_line_feeds() {
    assert_eq!(lines(""), Vec::<String>::new());
    assert_eq!(lines("a"), vec!["a"]);
    assert_eq!(lines("a\n"), vec!["a"]);
    assert_eq!(lines("a\nb"), vec!["a", "b"]);
    assert_eq!(lines("a\n\nb\n"), vec!["a", "", "b"]);
    assert_eq!(lines("\n"), vec![""]);
}

#[test]
fn split_lines_drops_a_carriage_return_before_a_line_feed() {
    assert_eq!(lines("a\r\nb\r\n"), vec!["a", "b"]);
    assert_eq!(lines("a\r"), vec!["a\r"]);
    assert_eq!(lines("a\r\r\n"), vec!["a\r"]);
    assert_eq!(lines("a\rb\n"), vec!["a\rb"]);
}

#[test]
fn split_lines_agrees_with_the_standard_library() {
    for text in ["", "a", "a\n", "\n\n", "a\r\nb", "a\r", "x\ny\r\n\r\nz\r", "é\nü\r\n"] {
        let expected: Vec<String> = text.lines().map(|l| l.to_string()).collect();
        assert_eq!(lines(text), expected);
    }
}

#[test]
fn split_agrees_with_the_standard_library() {
    for text in ["", " ", "a", "a b", " a  b ", "S1 2 Math Art", "é  ü"] {
        let expected: Vec<String> = text.split(" ").map(|l| l.to_string()).collect();
        assert_eq!(fields(text), expected);
    }
}

#[test]
fn numbers_are_digits_with_an_optional_plus() {
    assert_eq!(number("0"), Some(0));
    assert_eq!(number("42"), Some(42));
    assert_eq!(number("+42"), Some(42));
    assert_eq!(number("007"), Some(7));
    assert_eq!(number("4294967295"), Some(u32::MAX));
    assert_eq!(number("00000000004294967295"), Some(u32::MAX));
}

#[test]
fn numbers_are_read_from_inside_a_text() {
    let text = c("S1 +17 Math");
    assert_eq!(parse_u32(&text, Span { start: 3, end: 6 }), Some(17));
    assert_eq!(parse_u32(&text, Span { start: 4, end: 6 }), Some(17));
    assert_eq!(parse_u32(&text, Span { start: 4, end: 5 }), Some(1));
    assert_eq!(parse_u32(&text, Span { start: 2, end: 6 }), None);
    assert_eq!(parse_u32(&text, Span { start: 6, end: 6 }), None);
}

#[test]
fn other_tokens_are_no_numbers() {
    assert_eq!(number(""), None);
    assert_eq!(number("+"), None);
    assert_eq!(number("-1"), None);
    assert_eq!(number("++1"), None);
    assert_eq!(number("1+"), None);
    assert_eq!(number("12a"), None);
    assert_eq!(number(" 1"), None);
    assert_eq!(number("X1"), None);
    assert_eq!(number("4294967296"), None);
    assert_eq!(number("99999999999999999999"), None);
    assert_eq!(number("٣"), None);
}

#[test]
fn numbers_agree_with_the_standard_library() {
    for token in ["", "+", "-", "0", "+0", "-0", "12", "4294967295", "4294967296", "1_0", "0x1"] {
        assert_eq!(number(token), token.parse::<u32>().ok());
    }
}

#[test]
fn decimal_notation_has_no_leading_zeros() {
    for n in [0u32, 7, 10, 99, 100, 4096, u32::MAX] {
        let mut out = "#".to_string();
        push_decimal(&mut out, n);
        assert_eq!(out, format!("#{}", n));
    }
}

#[test]
fn lines_compare_character_by_character() {
    assert!(is_lex_le(&c(""), &c("")));
    assert!(is_lex_le(&c(""), &c("a")));
    assert!(!is_lex_le(&c("a"), &c("")));
    assert!(is_lex_le(&c("a"), &c("ab")));
    assert!(!is_lex_le(&c("ab"), &c("a")));
    assert!(is_lex_le(&c("A 10"), &c("A 9")));
    assert!(!is_lex_le(&c("b"), &c("a")));
    assert!(is_lex_le(&c("Z"), &c("a")));
    assert!(is_lex_le(&c("abc"), &c("abc")));
}

#[test]
fn lines_compare_as_strings_do() {
    let samples = ["", "a", "ab", "b", "A 10 x", "A 9 x", "é", "z", "zé", "~"];
    for a in samples {
        for b in samples {
            assert_eq!(is_lex_le(&c(a), &c(b)), a <= b);
        }
    }
}

#[test]
fn sorting_orders_lines_and_keeps_repeats() {
    let lines = owned(&["b 1 x", "a 10 x", "b 1 x", "a 9 x", "", "a"]);
    let sorted = sort_lines(lines);
    assert_eq!(sorted, vec!["", "a", "a 10 x", "a 9 x", "b 1 x", "b 1 x"]);
}

#[test]
fn sorting_twice_changes_nothing() {
    let lines = owned(&["q", "b", "qa", "B", "b", "é"]);
    let once = sort_lines(lines.clone());
    let twice = sort_lines(once.clone());
    assert_eq!(once, twice);
    let mut expected = lines;
    expected.sort();
    assert_eq!(twice, expected);
}

#[test]
fn staff_line_has_identifier_load_and_subject_areas() {
    let staff = Staff::from_str("S1 2 Math Art").expect("a staff line");
    assert_eq!(staff.staffID, "S1");
    assert_eq!(staff.load, 2);
    assert_eq!(staff.subject_areas, vec!["Math", "Art"]);
    assert!(staff.supervises(&"Art".to_string()));
    assert!(!staff.supervises(&"Ar".to_string()));
    let bare = Staff::from_str("S1 0").expect("subject areas may be missing");
    assert!(bare.subject_areas.is_empty());
    let spaced = Staff::from_str("S1 1  Math").expect("two spaces give an empty area");
    assert_eq!(spaced.subject_areas, vec!["", "Math"]);
}

#[test]
fn staff_line_needs_a_numeric_load() {
    assert!(Staff::from_str("").is_err());
    assert!(Staff::from_str("S1").is_err());
    assert!(Staff::from_str("S1 many Math").is_err());
    assert!(Staff::from_str("S1  2").is_err());
}

#[test]
fn project_line_has_four_fields() {
    let raw = RawProject::from_str("12 S1 3 Math ignored").expect("a project line");
    assert_eq!(raw.projectID, 12);
    assert_eq!(raw.proposer, "S1");
    assert_eq!(raw.multiplicity, 3);
    assert_eq!(raw.subject_area, "Math");
    assert!(RawProject::from_str("12 S1 3").is_err());
    assert!(RawProject::from_str("X1 S1 3 Math").is_err());
    assert!(RawProject::from_str("12 S1 x Math").is_err());
    assert!(RawProject::from_str("").is_err());
}

#[test]
fn student_line_has_identifier_and_numeric_choices() {
    let raw = RawStudent::from_str("A 3 1 2").expect("a student line");
    assert_eq!(raw.studentID, "A");
    assert_eq!(raw.choices, vec![3, 1, 2]);
    let none = RawStudent::from_str("A").expect("choices may be missing");
    assert!(none.choices.is_empty());
    let empty = RawStudent::from_str("").expect("the identifier may be empty");
    assert_eq!(empty.studentID, "");
    assert!(RawStudent::from_str("A X1").is_err());
    assert!(RawStudent::from_str("A 1 ").is_err());
}

fn two_staff() -> Vec<Staff> {
    vec![
        Staff { staffID: "S1".to_string(), load: 1, subject_areas: vec![] },
        Staff { staffID: "S2".to_string(), load: 1, subject_areas: vec![] },
        Staff { staffID: "S2".to_string(), load: 5, subject_areas: vec![] },
    ]
}

#[test]
fn process_resolves_the_proposer_to_the_first_staff_of_that_name() {
    let staffs = two_staff();
    let raw = RawProject::from_str("4 S2 1 Math").expect("a project line");
    let project = raw.process(&staffs).expect("S2 exists");
    assert_eq!(project.projectID, 4);
    assert_eq!(project.proposer, RcKey::from(1));
    assert_eq!(project.subject_area, "Math");
    assert_eq!(project.multiplicity, 1);
    assert_eq!(find_staff(&staffs, &"S1".to_string()), Some(RcKey::from(0)));
    assert_eq!(find_staff(&staffs, &"S3".to_string()), None);
}

#[test]
fn process_fails_for_an_unknown_proposer() {
    let raw = RawProject::from_str("4 S9 1 Math").expect("a project line");
    assert!(raw.process(&two_staff()).is_err());
}

fn two_projects() -> Vec<Project> {
    vec![
        Project {
            projectID: 10,
            proposer: RcKey::from(0),
            subject_area: "Math".to_string(),
            multiplicity: 1,
        },
        Project {
            projectID: 20,
            proposer: RcKey::from(0),
            subject_area: "Art".to_string(),
            multiplicity: 1,
        },
    ]
}

#[test]
fn process_resolves_choices_in_rank_order() {
    let projects = two_projects();
    let raw = RawStudent::from_str("A 20 10 20").expect("a student line");
    let student = raw.process(&projects).expect("both projects exist");
    assert_eq!(student.studentID, "A");
    assert_eq!(student.choices, vec![RcKey::from(1), RcKey::from(0), RcKey::from(1)]);
    assert_eq!(find_project(&projects, 20), Some(RcKey::from(1)));
    assert_eq!(find_project(&projects, 30), None);
}

#[test]
fn process_fails_for_an_unknown_project() {
    let raw = RawStudent::from_str("A 10 30").expect("a student line");
    assert!(raw.process(&two_projects()).is_err());
}

#[test]
fn from_files_reads_records_in_input_order() {
    let problem = Problem::from_files(
        "S1 2 Math\nS2 1 Art Math\n",
        "7 S2 1 Art\n8 S1 2 Math\n",
        "A 8 7\nB\n",
    )
    .expect("input parses");
    assert_eq!(problem.staffs.len(), 2);
    assert_eq!(problem.staffs[1].staffID, "S2");
    assert_eq!(problem.staffs[1].subject_areas, vec!["Art", "Math"]);
    assert_eq!(problem.projects.len(), 2);
    assert_eq!(problem.projects[0].projectID, 7);
    assert_eq!(problem.projects[0].proposer, RcKey::from(1));
    assert_eq!(problem.projects[1].proposer, RcKey::from(0));
    assert_eq!(problem.students.len(), 2);
    assert_eq!(problem.students[0].choices, vec![RcKey::from(1), RcKey::from(0)]);
    assert!(problem.students[1].choices.is_empty());
}

#[test]
fn from_files_accepts_carriage_returns() {
    let problem =
        Problem::from_files("S1 2 Math\r\n", "7 S1 1 Math\r\n", "A 7\r\n").expect("input parses");
    assert_eq!(problem.staffs[0].subject_areas, vec!["Math"]);
    assert_eq!(problem.projects[0].subject_area, "Math");
    assert_eq!(problem.students[0].choices, vec![RcKey::from(0)]);
}

#[test]
fn from_files_fails_on_one_bad_line() {
    assert!(Problem::from_files("S1 2 Math\nS2", "", "").is_err());
    assert!(Problem::from_files("S1 2 Math\n\nS2 1", "", "").is_err());
    assert!(Problem::from_files("S1 2 Math", "1 S1 1", "").is_err());
    assert!(Problem::from_files("S1 2 Math", "1 S1 1 Math", "A x").is_err());
}

#[test]
fn from_files_fails_on_unresolved_references() {
    assert!(Problem::from_files("S1 2 Math", "1 S2 1 Math", "").is_err());
    assert!(Problem::from_files("S1 2 Math", "1 S1 1 Math", "A 2").is_err());
    assert!(Problem::from_files("S1 2 Math", "X1 S1 1 Math", "A X1").is_err());
}

#[test]
fn keys_are_equal_when_they_name_the_same_record() {
    let a: RcKey<Staff> = RcKey::from(3);
    let b: RcKey<Staff> = RcKey::from(3);
    let c: RcKey<Staff> = RcKey::from(4);
    assert!(a == b);
    assert!(a != c);
    assert_eq!(a.index(), 3);
    assert_eq!(a.clone().index(), 3);
}
