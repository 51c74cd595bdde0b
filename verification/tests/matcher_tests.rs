use regrep::driver::{helper_spans, helper_spans_with_start, mirror_spans};
use regrep::matcher::{Matcher, Mode};

fn matches(regex: &str, line: &str) -> Vec<String> {
    let m = Matcher::new(regex).unwrap();
    let spans = m.find_in_line(line).unwrap();
    let chars: Vec<char> = line.chars().collect();
    spans.iter().map(|&(a, b)| chars[a..b].iter().collect()).collect()
}

#[test]
fn alternation_of_two_words() {
    assert_eq!(
        matches("Caltech|California", "Caltech is in California"),
        vec!["Caltech", "California"]
    );
}

#[test]
fn group_behind_a_prefix() {
    assert_eq!(matches("foo(d|l)", "food fool"), vec!["food", "fool"]);
    let m = Matcher::new("foo(d|l)").unwrap();
    assert_eq!(m.mode(), Mode::Prefix);
    assert_eq!(m.literal(), "foo");
}

#[test]
fn repeated_group() {
    assert_eq!(matches("c(ab)*", "cabab"), vec!["cabab"]);
}

#[test]
fn plus_takes_the_longest() {
    assert_eq!(matches("ab+", "ababbabbb"), vec!["ab", "abb", "abbb"]);
}

#[test]
fn dot_star_takes_the_line() {
    assert_eq!(matches(".*fail.*", "this will fail today"), vec!["this will fail today"]);
    let m = Matcher::new(".*fail.*").unwrap();
    assert_eq!(m.mode(), Mode::Unanchored);
    assert_eq!(m.literal(), "");
}

#[test]
fn digits() {
    assert_eq!(matches(r"\d", "room 237"), vec!["2", "3", "7"]);
}

#[test]
fn optional_letter_before_a_fixed_ending() {
    let m = Matcher::new("b?aaa").unwrap();
    assert_eq!(m.mode(), Mode::Suffix);
    assert_eq!(m.literal(), "aaa");
    assert_eq!(m.find_in_line("baaaxaaa"), Some(vec![(0, 4), (5, 8)]));
    assert_eq!(matches("b?aaa", "baaaxaaa"), vec!["baaa", "aaa"]);
}

#[test]
fn caltech_pattern_has_a_prefix() {
    let m = Matcher::new("Caltech|California").unwrap();
    assert_eq!(m.mode(), Mode::Prefix);
    assert_eq!(m.literal(), "Cal");
    assert_eq!(m.find_in_line("Caltech is in California"), Some(vec![(0, 7), (14, 24)]));
}

#[test]
fn empty_line_has_no_match() {
    assert_eq!(matches("ab+", ""), Vec::<String>::new());
    assert_eq!(matches(".*", ""), Vec::<String>::new());
    assert_eq!(matches("b?aaa", ""), Vec::<String>::new());
}

#[test]
fn invalid_pattern_gives_no_matcher() {
    assert!(Matcher::new("a|").is_none());
    assert!(Matcher::new("a)").is_none());
}

#[test]
fn line_outside_the_alphabet_is_refused_where_a_literal_is_searched() {
    let m = Matcher::new("foo(d|l)").unwrap();
    assert_eq!(m.find_in_line("food \u{e9}"), None);
    let m = Matcher::new(r"\d").unwrap();
    assert_eq!(m.mode(), Mode::Unanchored);
    assert_eq!(m.find_in_line("\u{e9}7"), Some(vec![(1, 2)]));
}

#[test]
fn overlapping_occurrences_of_the_literal_are_followed_up() {
    // The literal "aa" stands at 0 and at 1; only behind the second does
    // the rest of the pattern follow.
    let m = Matcher::new("aa(b|c)").unwrap();
    assert_eq!(m.literal(), "aa");
    assert_eq!(m.find_in_line("aaab"), Some(vec![(1, 4)]));
    assert_eq!(m.find_in_line("xaab"), Some(vec![(1, 4)]));
    let m = Matcher::new("aab?c").unwrap();
    assert_eq!(m.mode(), Mode::Prefix);
    assert_eq!(m.literal(), "aa");
    assert_eq!(matches("aab?c", "aaac"), vec!["aac"]);
}

#[test]
fn spans_are_selected_left_to_right() {
    assert_eq!(helper_spans(&vec![2, 3, 0, 5, 0]), vec![(0, 2), (3, 5)]);
    assert_eq!(helper_spans(&vec![0, 0]), vec![]);
    assert_eq!(helper_spans(&vec![1, 2, 3]), vec![(0, 1), (1, 2), (2, 3)]);
}

#[test]
fn spans_behind_anchors_begin_before_them() {
    assert_eq!(helper_spans_with_start(&vec![3, 7, 9], &vec![5, 0, 9], 3), vec![(0, 5), (6, 9)]);
}

#[test]
fn mirrored_spans_are_turned_and_reordered() {
    assert_eq!(mirror_spans(&vec![(0, 3), (4, 8)], 8), vec![(0, 4), (5, 8)]);
}

fn grep(regex: &str, lines: &[&str]) -> Result<Vec<String>, String> {
    let matcher = match Matcher::new(regex) {
        Some(m) => m,
        None => return Err(format!("invalid regular expression: {}", regex)),
    };
    let mut out = Vec::new();
    for (index, line) in lines.iter().enumerate() {
        let spans = matcher.find_in_line(line).unwrap();
        let chars: Vec<char> = line.chars().collect();
        for (a, b) in spans {
            out.push(format!("{}:{}", index + 1, chars[a..b].iter().collect::<String>()));
        }
    }
    Ok(out)
}

const SAMPLE: [&str; 8] = [
    "food fool abcdef",
    "cabab ab abbb",
    "^begin of the line",
    "the line's end$",
    "room 237 and 42",
    "no  match here",
    "",
    "this will fail today",
];

#[test]
fn test_grep() {
    let mut regex_vec: Vec<String> = Vec::new();

    // Including different types of regex patterns
    regex_vec.push("foo(d|l)".to_string()); // Testing grouping and alternatives
    regex_vec.push("abcdef".to_string()); // Testing exact matches
    regex_vec.push("c(ab)*".to_string()); // Testing repetition of groups
    regex_vec.push("ab*".to_string()); // Testing repetition of single character
    regex_vec.push("^begin".to_string()); // Testing start of line
    regex_vec.push("end$".to_string()); // Testing end of line
    regex_vec.push(".+".to_string()); // Testing match of one or more characters
    regex_vec.push("\\d+".to_string()); // Testing digit matching
    regex_vec.push("no\\s+match".to_string()); // Testing whitespace matching
    regex_vec.push(".*fail.*".to_string()); // Testing 'any character' and greediness

    for regex in &regex_vec {
        println!("Testing regex: {}", regex);
        match grep(regex, &SAMPLE) {
            Ok(_) => println!("Success for regex: {}", regex),
            Err(e) => panic!("Error for regex '{}': {}", regex, e),
        }
    }
    assert_eq!(grep("foo(d|l)", &SAMPLE).unwrap(), vec!["1:food", "1:fool"]);
    assert_eq!(grep("abcdef", &SAMPLE).unwrap(), vec!["1:abcdef"]);
    assert_eq!(grep("c(ab)*", &SAMPLE).unwrap(), vec!["1:c", "2:cabab", "6:c"]);
    assert_eq!(grep("^begin", &SAMPLE).unwrap(), vec!["3:^begin"]);
    assert_eq!(grep("end$", &SAMPLE).unwrap(), vec!["4:end$"]);
    assert_eq!(grep("\\d+", &SAMPLE).unwrap(), vec!["5:237", "5:42"]);
    assert_eq!(grep(".*fail.*", &SAMPLE).unwrap(), vec!["8:this will fail today"]);
    assert_eq!(grep(".+", &SAMPLE).unwrap().len(), 7);
}

#[test]
fn test_suffix() {
    let regex = "b?aaa";
    match grep(regex, &["baaaxaaa", "aa", "xaaab"]) {
        Ok(found) => {
            println!("Success for regex: {}", regex);
            assert_eq!(found, vec!["1:baaa", "1:aaa", "3:aaa"]);
        }
        Err(e) => panic!("Error for regex '{}': {}", regex, e),
    }
}
