use regrep::cfg::{cfg_for_regular_expression, prefix_and_remainder_extract, prefix_extract, two_str_common_prefix};
use regrep::earley_parse::PrettyPrint;

#[test]
fn test_cfg_for_regular_expression() {
    let cfg = cfg_for_regular_expression();
    let result = cfg.parse("ab*|c+");
    assert!(result.is_some());
}

#[test]
fn cfg_test_parentheses() {
    let cfg = cfg_for_regular_expression();
    let result = cfg.parse("a(b|b|c)");
    assert!(result.is_some());
    println!("{}", PrettyPrint(&result.unwrap().collapse()).render());
}

#[test]
fn test_character_classes() {
    let cfg = cfg_for_regular_expression();
    let result = cfg.parse(r"\s\d\D\w\W");
    assert!(result.is_some());
    println!("{}", PrettyPrint(&result.unwrap().collapse()).render());
}

#[test]
fn test_special_characters() {
    let cfg = cfg_for_regular_expression();
    let result = cfg.parse(r"\\");
    assert!(result.is_some());
    println!("{}", PrettyPrint(&result.unwrap().collapse()).render());
}

#[test]
fn test_prefix_extract_1() {
    let cfg = cfg_for_regular_expression();
    let result = cfg.parse(r"ab|ac");
    assert!(result.is_some());
    let tree = result.unwrap().collapse();
    println!("{}", PrettyPrint(&tree).render());
    let (prefix, rest) = prefix_and_remainder_extract(&tree);
    println!("{} and {}", prefix, rest);
    assert_eq!(prefix, "a");
    assert_eq!(rest, "b|c");
}

#[test]
fn test_prefix_extract_2() {
    let cfg = cfg_for_regular_expression();
    let result = cfg.parse(r"foo\*(d|l)");
    assert!(result.is_some());
    let tree = result.unwrap().collapse();
    println!("{}", PrettyPrint(&tree).render());
    let (prefix, rest) = prefix_and_remainder_extract(&tree);
    println!("{} and {}", prefix, rest);
    assert_eq!(prefix, "foo*");
    assert_eq!(rest, "(d|l)");
}

#[test]
fn test_prefix_extract_3() {
    let cfg = cfg_for_regular_expression();
    let result = cfg.parse(r"(na)+bc");
    assert!(result.is_some());
    let tree = result.unwrap().collapse();
    println!("{}", PrettyPrint(&tree).render());
    let (prefix, rest) = prefix_and_remainder_extract(&tree);
    println!("{} and {}", prefix, rest);
    assert_eq!(prefix, "(na)");
    assert_eq!(rest, "(na)*bc");
}

#[test]
fn test_prefix_and_remainder_extract_after_plus() {
    let mut r = String::new();
    for &c in &['|', '*', '(', ')', '+', '?', '\\', '{', '}', '.'] {
        r.push('\\');
        r.push(c);
    }
    let cfg = cfg_for_regular_expression();
    let result = cfg.parse(r.as_str());
    let tree = result.unwrap().collapse();
    let (prefix, remainder) = prefix_and_remainder_extract(&tree);
    println!("{} and {}", prefix, remainder);
    assert_eq!(prefix, "|*()+?\\{}.");
    assert_eq!(remainder, "");
}

#[test]
fn test_kleene_star_prefix() {
    let cfg = cfg_for_regular_expression();
    let result = cfg.parse(r"c(ab)+fg");
    assert!(result.is_some());
    let tree = result.unwrap().collapse();
    println!("{}", PrettyPrint(&tree).render());
    let (prefix, rest) = prefix_and_remainder_extract(&tree);
    println!("{} and {}", prefix, rest);
    assert_eq!(prefix, "c(ab)");
    assert_eq!(rest, "(ab)*fg");
}

// ".*fail.*"
#[test]
fn test_dot_star() {
    let cfg = cfg_for_regular_expression();
    let result = cfg.parse(".*fail.*");
    assert!(result.is_some());
    let tree = result.unwrap().collapse();
    println!("{}", PrettyPrint(&tree).render());
    let (prefix, rest) = prefix_and_remainder_extract(&tree);
    println!("{} and {}", prefix, rest);
    assert_eq!(prefix, "");
    assert_eq!(rest, ".*fail.*");
}

#[test]
fn prefix_extract_reads_the_fixed_beginning() {
    let cfg = cfg_for_regular_expression();
    let tree = cfg.parse("ab|ac").unwrap().collapse();
    assert_eq!(prefix_extract(&tree), "a");
    let tree = cfg.parse("foo(d|l)").unwrap().collapse();
    assert_eq!(prefix_extract(&tree), "foo");
    let tree = cfg.parse(r"\d+x").unwrap().collapse();
    assert_eq!(prefix_extract(&tree), "");
    let tree = cfg.parse("a.b").unwrap().collapse();
    assert_eq!(prefix_extract(&tree), "ab");
}

#[test]
fn strings_are_compared_side_by_side() {
    let (common, r1, r2) = two_str_common_prefix("abcd", "abxdef");
    assert_eq!(common, "abd");
    assert_eq!(r1, "c");
    assert_eq!(r2, "xef");
    let (common, r1, r2) = two_str_common_prefix("", "q");
    assert_eq!(common, "");
    assert_eq!(r1, "");
    assert_eq!(r2, "q");
}

#[test]
fn grammar_rejects_what_is_no_pattern() {
    let cfg = cfg_for_regular_expression();
    assert!(cfg.parse("").is_none());
    assert!(cfg.parse("a|").is_none());
    assert!(cfg.parse("(a").is_none());
    assert!(cfg.parse("*a").is_none());
    assert!(cfg.parse("a{").is_none());
    assert!(cfg.parse("a\\").is_none());
    assert!(cfg.parse("a\u{7f}").is_none());
    assert!(cfg.parse("a\tb").is_some());
    assert!(cfg.parse(r"a\{b\}").is_some());
}

#[test]
fn parse_tree_keeps_the_pattern_as_its_fringe() {
    let cfg = cfg_for_regular_expression();
    let tree = cfg.parse("a(b|c)*d").unwrap();
    assert_eq!(
        PrettyPrint(&tree.collapse()).render(),
        "Concat(Concat('a', Repeat(Term('(', Union('b', '|', 'c'), ')'), '*')), 'd')"
    );
}
