use regrep::compile::nfa_from_reg;
use regrep::earley_parse::{nt, tr, Symbol};
use regrep::matcher::{Matcher, Mode};
use regrep::nfa::{State, Transition, NFA};

// Every state of a compiled automaton is reached from the start state,
// no epsilon edge is left, and every edge leads to a state.
#[test]
fn compiled_automaton_is_closed_and_pruned() {
    for pattern in ["a(b|c)*d", "(ab|cd)+e?", r"\d+\.\d*", ".*fail.*", "a?a?aa"] {
        let nfa = nfa_from_reg(pattern).unwrap();
        let size = nfa.size();
        let mut seen = vec![false; size];
        let mut stack = vec![nfa.start_state().id];
        seen[nfa.start_state().id] = true;
        while let Some(q) = stack.pop() {
            assert_eq!(nfa.eps_from(State { id: q }).len(), 0);
            for e in nfa.arcs_from(State { id: q }) {
                assert!(nfa.has_state(State { id: e.to }));
                if !seen[e.to] {
                    seen[e.to] = true;
                    stack.push(e.to);
                }
            }
        }
        for q in 0..size {
            assert_eq!(nfa.has_state(State { id: q }), seen[q], "{} state {}", pattern, q);
            if !seen[q] {
                assert!(!nfa.is_accepting(State { id: q }));
                assert_eq!(nfa.arcs_from(State { id: q }).len(), 0);
            }
        }
    }
}

fn accepts(nfa: &NFA, word: &str) -> bool {
    if word.is_empty() {
        return nfa.is_accepting(nfa.start_state());
    }
    let n = word.chars().count();
    nfa.longest_from(&word.chars().collect(), 0) == Some(n)
}

// Every accepted word begins with the literal prefix, and what is left of
// it is accepted by the rewired automaton.
#[test]
fn rewired_automaton_accepts_the_tails() {
    let words = ["", "f", "fd", "fl", "fdfd", "fdl", "fdfdfd", "ffd", "d", "l", "dfd", "dfdfd"];
    let compiled = nfa_from_reg("(fd)+|fl").unwrap();
    let mut rewired = compiled.clone();
    let prefix = rewired.find_prefix_from_nfa();
    assert_eq!(prefix, "f");
    for w in words {
        if accepts(&compiled, w) {
            assert!(w.starts_with(&prefix));
        }
        let whole = format!("{}{}", prefix, w);
        assert_eq!(accepts(&rewired, w), accepts(&compiled, &whole), "tail {}", w);
    }
}

// Every accepted word ends with the literal suffix, and the rewired
// automaton accepts, read backwards, what stands before it.
#[test]
fn reversed_automaton_accepts_what_stands_before_the_suffix() {
    let compiled = nfa_from_reg("b?a?c?abc").unwrap();
    let mut rewired = compiled.clone();
    let suffix = rewired.find_suffix_from_nfa();
    assert_eq!(suffix, "abc");
    for before in ["", "b", "a", "c", "ba", "bc", "ac", "bac", "cab", "bb", "abc"] {
        let whole = format!("{}{}", before, suffix);
        let backwards: String = before.chars().rev().collect();
        assert_eq!(accepts(&rewired, &backwards), accepts(&compiled, &whole), "{}", before);
    }
}

// A second extraction finds nothing where the walk stopped at an
// accepting state or at a choice of characters.
#[test]
fn second_extraction_is_empty_after_a_choice() {
    for pattern in ["a(b|c)", "foo(d|l)", "ab*", "abc", "(fd)+|fl"] {
        let mut nfa = nfa_from_reg(pattern).unwrap();
        assert!(!nfa.find_prefix_from_nfa().is_empty());
        assert_eq!(nfa.find_prefix_from_nfa(), "", "{}", pattern);
    }
}

// Where the walk stops at a state with an edge to itself, the rewired
// automaton has a literal prefix again.
#[test]
fn second_extraction_after_a_loop_finds_more() {
    let mut nfa = nfa_from_reg("a+a").unwrap();
    assert_eq!(nfa.find_prefix_from_nfa(), "a");
    assert_eq!(nfa.find_prefix_from_nfa(), "a");
}

// The matches of a line are in order and do not overlap.
#[test]
fn matches_are_in_order() {
    let cases = [
        ("ab+", "ababbabbbxxab"),
        ("a*", "aaxaa"),
        ("b?aaa", "baaaxaaabaaaaaa"),
        (r"\d\d", "1234567"),
        ("(ab|ba)+", "ababbabaab"),
    ];
    for (pattern, line) in cases {
        let m = Matcher::new(pattern).unwrap();
        let spans = m.find_in_line(line).unwrap();
        for s in &spans {
            assert!(s.0 < s.1, "{} in {}", pattern, line);
            assert!(s.1 <= line.len());
        }
        for w in spans.windows(2) {
            assert!(w[0].1 <= w[1].0, "{} in {}", pattern, line);
            assert!(w[0].0 < w[1].0);
        }
    }
}

// Where the literal stands at places that overlap, every occurrence is
// followed up, and the anchored search finds what the plain search finds.
#[test]
fn anchored_search_follows_up_overlapping_occurrences() {
    let nfa = nfa_from_reg("aa(b|c)").unwrap();
    assert_eq!(nfa.check_str_without_start("aaab"), vec![0, 4, 0, 0]);
    let m = Matcher::new("aa(b|c)").unwrap();
    assert_eq!(m.mode(), Mode::Prefix);
    assert_eq!(m.find_in_line("aaab"), Some(vec![(1, 4)]));
}

// In suffix mode the line is read backwards, and the literal, read
// backwards too, is searched for in it.
#[test]
fn suffix_search_reads_line_and_literal_backwards() {
    let m = Matcher::new("b?ab").unwrap();
    assert_eq!(m.mode(), Mode::Suffix);
    assert_eq!(m.literal(), "ab");
    assert_eq!(m.find_in_line("xbab"), Some(vec![(1, 4)]));
    assert_eq!(m.find_in_line("ba"), Some(vec![]));
    let nfa = nfa_from_reg("b?ab").unwrap();
    assert_eq!(nfa.check_str_without_start("xbab"), vec![0, 4, 0, 0]);
    let m = Matcher::new("(x|y)*abc").unwrap();
    assert_eq!(m.mode(), Mode::Suffix);
    assert_eq!(m.literal(), "abc");
    assert_eq!(m.find_in_line("xyabc cba yabc"), Some(vec![(0, 5), (10, 14)]));
}

#[test]
fn symbols_are_written_out() {
    assert_eq!(tr('x').strval(), "x");
    assert_eq!(nt("Term").strval(), "Term");
    assert_eq!(nt("A"), Symbol::NonTerminal("A"));
}

#[test]
fn edges_to_several_states_are_added_at_once() {
    let mut nfa = NFA::new();
    let a = nfa.add_state();
    let b = nfa.add_state();
    nfa.add_transitions(State { id: 0 }, Transition::Char('x'), &vec![a, b, a]);
    nfa.add_transitions(State { id: 0 }, Transition::Epsilon, &vec![b]);
    let mut to: Vec<usize> = nfa.arcs_from(State { id: 0 }).iter().map(|e| e.to).collect();
    to.sort();
    assert_eq!(to, vec![1, 2]);
    assert_eq!(nfa.eps_from(State { id: 0 }), &vec![2]);
}

#[test]
fn anchors_before_the_end_of_a_match_are_passed_over() {
    let mut nfa = nfa_from_reg("ab*").unwrap();
    assert_eq!(nfa.find_prefix_from_nfa(), "a");
    // The second anchor lies inside the first match only by its literal:
    // its match would begin at 2, before the end 3 of the first.
    assert_eq!(nfa.check_str_with_start(&vec![1, 3], "abab", 1), vec![2, 4]);
    let mut nfa = nfa_from_reg("a(ba)*").unwrap();
    assert_eq!(nfa.find_prefix_from_nfa(), "a");
    assert_eq!(nfa.check_str_with_start(&vec![1, 3, 5], "ababa", 1), vec![5, 0, 0]);
}

#[test]
fn anchor_behind_the_line_finds_only_the_empty_match() {
    let mut nfa = nfa_from_reg("ab*").unwrap();
    assert_eq!(nfa.find_prefix_from_nfa(), "a");
    assert_eq!(nfa.longest_from(&"ab".chars().collect(), 5), Some(5));
    let nfa = nfa_from_reg("ab").unwrap();
    assert_eq!(nfa.longest_from(&"ab".chars().collect(), 5), None);
}

// Running the automaton at every place credits a match to the earliest
// place from which it is reached; where that place lies inside an earlier
// match, the match is not reported, though a later place begins it too.
// The search for the literal follows up every occurrence by itself.
#[test]
fn plain_search_can_miss_what_the_anchored_search_finds() {
    let nfa = nfa_from_reg("x(yx|x*z)").unwrap();
    assert_eq!(nfa.check_str_without_start("xyxxz"), vec![3, 0, 5, 0, 0]);
    assert_eq!(regrep::driver::helper_spans(&vec![3, 0, 5, 0, 0]), vec![(0, 3)]);
    let m = Matcher::new("x(yx|x*z)").unwrap();
    assert_eq!(m.mode(), Mode::Prefix);
    assert_eq!(m.literal(), "x");
    assert_eq!(m.find_in_line("xyxxz"), Some(vec![(0, 3), (3, 5)]));
}

// Where every match has its end credited to the place where it begins,
// the search for the literal prefix reports what the search at every
// place reports.
#[test]
fn both_searches_report_the_same_where_credits_are_unshared() {
    let cases = [
        ("Caltech|California", "Caltech is in California"),
        ("foo(d|l)", "food fool"),
        ("c(ab)*", "cabab"),
        ("ab+", "ababbabbb"),
        ("aab?c", "aaac"),
        ("aa(b|c)", "aaab"),
        ("abc", "ababcabcab"),
        ("a(b|c)", ""),
    ];
    for (pattern, line) in cases {
        let nfa = nfa_from_reg(pattern).unwrap();
        let plain = regrep::driver::helper_spans(&nfa.check_str_without_start(line));
        let m = Matcher::new(pattern).unwrap();
        assert_eq!(m.mode(), Mode::Prefix);
        assert_eq!(m.find_in_line(line), Some(plain), "{} in {}", pattern, line);
    }
}

// In suffix mode the line is read from its end, so of two matches that
// overlap the one further right is reported; the search at every place
// reports the one further left.
#[test]
fn suffix_search_prefers_the_match_further_right() {
    let m = Matcher::new("b?aaa").unwrap();
    assert_eq!(m.mode(), Mode::Suffix);
    assert_eq!(m.find_in_line("aaaa"), Some(vec![(1, 4)]));
    let nfa = nfa_from_reg("b?aaa").unwrap();
    assert_eq!(
        regrep::driver::helper_spans(&nfa.check_str_without_start("aaaa")),
        vec![(0, 3)]
    );
}
