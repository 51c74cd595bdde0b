use regrep::cfg::cfg_for_regular_expression;
use regrep::compile::{generate_regex_pattern, nfa_from_reg};
use regrep::nfa::{State, Transition, NFA};

fn shifted_example() -> NFA {
    let mut nfa = NFA::new();
    nfa.add_state();
    nfa.add_state();
    nfa.add_transition(State { id: 0 }, Transition::Char('a'), State { id: 1 });
    nfa.modify_state_id(5)
}

#[test]
fn nfa_test_shift_nfa() {
    println!("Test shift nfa");
    let nfa = shifted_example();
    assert_eq!(nfa.get_len(), 3);
    assert!(nfa.has_state(State { id: 5 }));
    assert!(nfa.has_state(State { id: 7 }));
    assert!(!nfa.has_state(State { id: 0 }));
    assert_eq!(nfa.start_state(), State { id: 5 });
    assert_eq!(nfa.arcs_from(State { id: 5 }).len(), 1);
    assert_eq!(nfa.arcs_from(State { id: 5 })[0].to, 6);
}

#[test]
fn nfa_optimized_test_shift_nfa() {
    println!("Test shift nfa");
    let nfa = shifted_example();
    assert_eq!(nfa.size(), 8);
    assert_eq!(nfa.arcs_from(State { id: 5 })[0].label, 'a');
}

#[test]
fn nfa_test_from_char() {
    let nfa = NFA::from_char('a');
    println!("Test from char");
    assert_eq!(nfa.get_len(), 2);
    assert!(nfa.is_accepting(State { id: 1 }));
    assert!(!nfa.is_accepting(State { id: 0 }));
}

#[test]
fn nfa_optimized_test_from_char() {
    let nfa = NFA::from_char('a');
    println!("Test from char");
    assert_eq!(nfa.arcs_from(State { id: 0 }).len(), 1);
    assert_eq!(nfa.arcs_from(State { id: 0 })[0].label, 'a');
    assert_eq!(nfa.arcs_from(State { id: 0 })[0].to, 1);
}

#[test]
fn nfa_test_single_char_nfa() {
    let nfa = NFA::from_char('a');
    println!("Test single char NFA");
    assert_eq!(nfa.accept_len(), 1);
}

#[test]
fn nfa_optimized_test_single_char_nfa() {
    let nfa = NFA::from_char('a');
    println!("Test single char NFA");
    assert_eq!(nfa.start_state(), State { id: 0 });
    assert_eq!(nfa.eps_from(State { id: 0 }).len(), 0);
    assert_eq!(nfa.arcs_from(State { id: 1 }).len(), 0);
}

#[test]
fn single_char_automaton_matches_its_character() {
    let nfa = NFA::from_char('a');
    assert_eq!(nfa.check_str_without_start("aba"), vec![1, 0, 3]);
}

#[test]
fn nfa_test_union() {
    println!("Test union");
    let nfa1 = NFA::from_char('a');
    let nfa2 = NFA::from_char('b');
    let nfa = NFA::from_union(vec![nfa1, nfa2]);
    assert!(nfa.get_len() == 5);
    assert!(nfa.accept_len() == 2);
}

#[test]
fn nfa_optimized_test_union() {
    println!("Test union");
    let nfa1 = NFA::from_char('a');
    let nfa2 = NFA::from_char('b');
    let nfa = NFA::from_union(vec![nfa1, nfa2]);
    assert!(nfa.get_len() == 5);
    assert!(nfa.accept_len() == 2);
}

#[test]
fn nfa_test_concatenation() {
    println!("Test concatenation");
    let nfa1 = NFA::from_char('a');
    let nfa2 = NFA::from_char('b');
    let nfa = NFA::from_concatenation(vec![nfa1, nfa2]);
    assert_eq!(nfa.get_len(), 5);
    assert_eq!(nfa.accept_len(), 1);
    assert!(nfa.is_accepting(State { id: 4 }));
    assert_eq!(nfa.eps_from(State { id: 0 }), &vec![1]);
    assert_eq!(nfa.eps_from(State { id: 2 }), &vec![3]);
}

#[test]
fn nfa_optimized_test_concatenation() {
    println!("Test concatenation");
    let nfa1 = NFA::from_char('a');
    let nfa2 = NFA::from_char('b');
    let nfa = NFA::from_concatenation(vec![nfa1, nfa2]);
    assert_eq!(nfa.arcs_from(State { id: 1 })[0].label, 'a');
    assert_eq!(nfa.arcs_from(State { id: 1 })[0].to, 2);
    assert_eq!(nfa.arcs_from(State { id: 3 })[0].label, 'b');
    assert_eq!(nfa.arcs_from(State { id: 3 })[0].to, 4);
}

#[test]
fn closed_concatenation_keeps_three_states() {
    let nfa1 = NFA::from_char('a');
    let nfa2 = NFA::from_char('b');
    let mut nfa = NFA::from_concatenation(vec![nfa1, nfa2]);
    nfa.epsilon_close();
    nfa.remove_unreachable_states();
    assert_eq!(nfa.get_len(), 3);
    assert_eq!(nfa.check_str_without_start("xab"), vec![0, 3, 0]);
}

#[test]
fn nfa_test_kleene_star() {
    println!("Test kleene star");
    let nfa = NFA::from_char('a');
    let nfa = NFA::from_kleene_star(nfa);
    assert_eq!(nfa.accept_len(), 2);
    assert_eq!(nfa.eps_from(State { id: 1 }), &vec![0]);
}

#[test]
fn nfa_optimized_test_kleene_star() {
    println!("Test kleene star");
    let nfa = NFA::from_char('a');
    let nfa = NFA::from_kleene_star(nfa);
    assert!(nfa.is_accepting(State { id: 0 }));
    assert!(nfa.is_accepting(State { id: 1 }));
    assert_eq!(nfa.eps_from(State { id: 0 }).len(), 0);
    assert_eq!(nfa.get_len(), 2);
}

#[test]
fn plus_and_question_mark_differ_from_the_star() {
    let plus = NFA::from_plus(NFA::from_char('a'));
    assert_eq!(plus.accept_len(), 1);
    assert_eq!(plus.eps_from(State { id: 1 }), &vec![0]);
    let opt = NFA::from_question_mark(NFA::from_char('a'));
    assert_eq!(opt.accept_len(), 2);
    assert_eq!(opt.eps_from(State { id: 1 }).len(), 0);
}

#[test]
fn nfa_test_union_and_concat() {
    println!("Test union and concatenation");
    let regex = "ac|b";
    let cfg = cfg_for_regular_expression();
    let ast = cfg.parse(regex).unwrap().collapse();
    let nfa = NFA::from_regex(&ast);
    assert_eq!(nfa.get_len(), 8);
    assert_eq!(nfa.accept_len(), 2);
}

#[test]
fn nfa_optimized_test_union_and_concat() {
    println!("Test union and concatenation");
    let regex = "ac|b";
    let cfg = cfg_for_regular_expression();
    let ast = cfg.parse(regex).unwrap().collapse();
    let nfa = NFA::from_regex(&ast);
    println!("\n After Episolon closure\n");
    assert_eq!(nfa.size(), 8);
    assert_eq!(nfa.eps_from(nfa.start_state()).len(), 2);
}

#[test]
fn closed_union_of_concatenation_matches_both_sides() {
    let cfg = cfg_for_regular_expression();
    let ast = cfg.parse("ac|b").unwrap().collapse();
    let mut nfa = NFA::from_regex(&ast);
    nfa.epsilon_close();
    nfa.remove_unreachable_states();
    assert_eq!(nfa.check_str_without_start("acb"), vec![2, 0, 3]);
}

#[test]
fn nfa_test_parentheses() {
    println!("Test parentheses");
    let regex = "a(b|c)";
    let cfg = cfg_for_regular_expression();
    let ast = cfg.parse(regex).unwrap().collapse();
    let nfa = NFA::from_regex(&ast);
    assert_eq!(nfa.get_len(), 8);
}

#[test]
fn nfa_optimized_test_parentheses() {
    println!("Test parentheses");
    let regex = "a(b|c)";
    let cfg = cfg_for_regular_expression();
    let ast = cfg.parse(regex).unwrap().collapse();
    let nfa = NFA::from_regex(&ast);
    assert_eq!(nfa.accept_len(), 2);
    assert_eq!(nfa.eps_from(nfa.start_state()), &vec![1]);
}

#[test]
fn group_behind_a_character_matches_either_side() {
    let nfa = nfa_from_reg("a(b|c)").unwrap();
    assert_eq!(nfa.check_str_without_start("abac"), vec![2, 0, 4, 0]);
}

#[test]
fn test_epsilon_closure() {
    println!("Test epsilon closure");
    let mut nfa = NFA::new();
    let state0 = State { id: 0 };
    let state1 = State { id: 1 };
    let state2 = State { id: 2 };
    let state3 = State { id: 3 };
    let state4 = State { id: 4 };
    nfa.add_state();
    nfa.add_state();
    nfa.add_state();
    nfa.add_state();

    nfa.add_transition(state0, Transition::Char('0'), state0);
    nfa.add_transition(state0, Transition::Epsilon, state1);
    nfa.add_transition(state1, Transition::Char('1'), state1);
    nfa.add_transition(state1, Transition::Epsilon, state2);
    nfa.add_transition(state2, Transition::Char('0'), state2);
    nfa.add_transition(state2, Transition::Epsilon, state3);
    nfa.add_transition(state2, Transition::Char('0'), state4);
    nfa.add_accept(state3);
    nfa.add_accept(state4);
    nfa.epsilon_close();
    println!("Done");
    for q in 0..5 {
        assert_eq!(nfa.eps_from(State { id: q }).len(), 0);
    }
    // every state but the last reaches state 3 along epsilon edges
    assert!(nfa.is_accepting(state0));
    assert!(nfa.is_accepting(state1));
    assert!(nfa.is_accepting(state2));
    assert!(nfa.is_accepting(state3));
    assert!(nfa.is_accepting(state4));
    let mut from0: Vec<(char, usize)> =
        nfa.arcs_from(state0).iter().map(|e| (e.label, e.to)).collect();
    from0.sort();
    assert_eq!(from0, vec![('0', 0), ('0', 2), ('0', 4), ('1', 1)]);
    assert_eq!(nfa.arcs_from(state3).len(), 0);
}

#[test]
fn nfa_test_prefix_nfa() {
    let nfa = nfa_from_reg("(fd)+|fl").unwrap();
    assert!(nfa.has_state(nfa.start_state()));
}

#[test]
fn nfa_optimized_test_prefix_nfa() {
    let nfa = nfa_from_reg("(fd)+|fl").unwrap();
    assert_eq!(nfa.get_len(), 5);
    assert_eq!(nfa.accept_len(), 2);
}

#[test]
fn nfa_test_prefix_from_nfa() {
    let mut nfa = nfa_from_reg("(fd)+|fl").unwrap();
    let prefix = nfa.find_prefix_from_nfa();
    println!("Prefix: {}", prefix);
    assert_eq!(prefix, "f");
}

#[test]
fn nfa_optimized_test_prefix_from_nfa() {
    let mut nfa = nfa_from_reg("(fd)+|fl").unwrap();
    let prefix = nfa.find_prefix_from_nfa();
    println!("Prefix: {}", prefix);
    assert_eq!(prefix, "f");
    assert!(nfa.has_state(nfa.start_state()));
    assert!(!nfa.is_accepting(nfa.start_state()));
}

#[test]
fn nfa_test_prefix_from_nfa_2() {
    let mut nfa = nfa_from_reg("a(b|c)").unwrap();
    let prefix = nfa.find_prefix_from_nfa();
    println!("Prefix: {}", prefix);
    assert_eq!(prefix, "a");
}

#[test]
fn nfa_optimized_test_prefix_from_nfa_2() {
    let mut nfa = nfa_from_reg("a(b|c)").unwrap();
    let prefix = nfa.find_prefix_from_nfa();
    assert_eq!(prefix, "a");
    assert_eq!(nfa.find_prefix_from_nfa(), "");
}

#[test]
fn nfa_test_prefix_from_nfa_3() {
    let mut nfa = nfa_from_reg("(abc|abc)de").unwrap();
    let prefix = nfa.find_prefix_from_nfa();
    println!("Prefix: {}", prefix);
    assert_eq!(prefix, "abcde");
}

#[test]
fn nfa_optimized_test_prefix_from_nfa_3() {
    let mut nfa = nfa_from_reg("(abc|abc)de").unwrap();
    let prefix = nfa.find_prefix_from_nfa();
    assert_eq!(prefix, "abcde");
    assert!(nfa.is_accepting(nfa.start_state()));
    assert_eq!(nfa.get_len(), 1);
}

#[test]
fn nfa_test_prefix_from_nfa_4() {
    let mut nfa = nfa_from_reg("ab*").unwrap();
    let prefix = nfa.find_prefix_from_nfa();
    println!("Prefix: {}", prefix);
    assert_eq!(prefix, "a");
}

#[test]
fn nfa_optimized_test_prefix_from_nfa_4() {
    let mut nfa = nfa_from_reg("ab*").unwrap();
    let prefix = nfa.find_prefix_from_nfa();
    assert_eq!(prefix, "a");
    assert!(nfa.is_accepting(nfa.start_state()));
}

#[test]
fn nfa_test_prefix_from_nfa_5() {
    let mut nfa = nfa_from_reg("ab+").unwrap();
    let prefix = nfa.find_prefix_from_nfa();
    println!("Prefix: {}", prefix);
    assert_eq!(prefix, "ab");
}

#[test]
fn nfa_optimized_test_prefix_from_nfa_5() {
    let mut nfa = nfa_from_reg("ab+").unwrap();
    let prefix = nfa.find_prefix_from_nfa();
    assert_eq!(prefix, "ab");
    assert!(nfa.is_accepting(nfa.start_state()));
}

#[test]
fn nfa_test_prefix_from_nfa_6() {
    let mut nfa = nfa_from_reg("(fd)+|fl").unwrap();
    let prefix = nfa.find_prefix_from_nfa();
    println!("Prefix: {}", prefix);
    assert_eq!(prefix.len(), 1);
}

#[test]
fn nfa_optimized_test_prefix_from_nfa_6() {
    let mut nfa = nfa_from_reg("(fd)+|fl").unwrap();
    let prefix = nfa.find_prefix_from_nfa();
    assert_eq!(prefix, "f");
    assert!(!nfa.is_accepting(nfa.start_state()));
}

#[test]
fn nfa_test_prefix_from_nfa_7() {
    let mut nfa = nfa_from_reg("ab*a").unwrap();
    let prefix = nfa.find_prefix_from_nfa();
    println!("Prefix: {}", prefix);
    assert_eq!(prefix, "a");
}

#[test]
fn nfa_optimized_test_prefix_from_nfa_7() {
    let mut nfa = nfa_from_reg("ab*a").unwrap();
    let prefix = nfa.find_prefix_from_nfa();
    assert_eq!(prefix, "a");
    assert!(!nfa.is_accepting(nfa.start_state()));
}

#[test]
fn nfa_test_prefix_from_nfa_8() {
    let mut nfa = nfa_from_reg(".*").unwrap();
    let prefix = nfa.find_prefix_from_nfa();
    println!("Prefix: {}", prefix);
    assert_eq!(prefix, "");
}

#[test]
fn nfa_optimized_test_prefix_from_nfa_8() {
    let mut nfa = nfa_from_reg(".*").unwrap();
    let before = nfa.get_len();
    let prefix = nfa.find_prefix_from_nfa();
    assert_eq!(prefix, "");
    assert_eq!(nfa.get_len(), before);
}

#[test]
fn nfa_test_prefix_from_nfa_9() {
    let mut nfa = nfa_from_reg("a?a?a?aa").unwrap();
    let prefix = nfa.find_prefix_from_nfa();
    println!("Prefix: {}", prefix);
    assert_eq!(prefix, "aa");
}

#[test]
fn nfa_optimized_test_prefix_from_nfa_9() {
    let mut nfa = nfa_from_reg("a?a?a?aa").unwrap();
    let prefix = nfa.find_prefix_from_nfa();
    assert_eq!(prefix, "aa");
    assert!(nfa.is_accepting(nfa.start_state()));
}

#[test]
fn nfa_test_check_str_without_start_1() {
    let nfa = nfa_from_reg("ab|c").unwrap();
    let matched_strs = nfa.check_str_without_start("ab");
    println!("{:?}", matched_strs);
    assert_eq!(matched_strs, vec![2, 0]);
}

#[test]
fn nfa_optimized_test_check_str_without_start_1() {
    let nfa = nfa_from_reg("ab|c").unwrap();
    let matched_strs = nfa.check_str_without_start("ab");
    println!("{:?}", matched_strs);
    assert_eq!(matched_strs.len(), 2);
    assert_eq!(matched_strs[0], 2);
    assert_eq!(matched_strs[1], 0);
}

#[test]
fn either_side_of_an_alternation_is_found() {
    let nfa = nfa_from_reg("ab|c").unwrap();
    assert_eq!(nfa.check_str_without_start("cab"), vec![1, 3, 0]);
}

#[test]
fn nfa_test_check_str_without_start_2() {
    let nfa = nfa_from_reg("k*").unwrap();
    let str = "kabk";
    let matched_strs = nfa.check_str_without_start(&str);
    assert_eq!(matched_strs, vec![1, 2, 3, 4]);
}

#[test]
fn nfa_optimized_test_check_str_without_start_2() {
    let nfa = nfa_from_reg("k*").unwrap();
    let str = "kabk";
    let matched_strs = nfa.check_str_without_start(&str);
    assert_eq!(
        regrep::driver::helper_spans(&matched_strs),
        vec![(0, 1), (1, 2), (2, 3), (3, 4)]
    );
}

#[test]
fn star_credits_a_run_to_its_first_place() {
    let nfa = nfa_from_reg("k*").unwrap();
    assert_eq!(nfa.check_str_without_start("kkab"), vec![2, 2, 3, 4]);
}

#[test]
fn nfa_test_check_str_without_start_3() {
    let nfa = nfa_from_reg("ab*").unwrap();
    let str = "ababbabbbab";
    let matched_strs = nfa.check_str_without_start(&str);
    println!("{:?}", matched_strs);
    assert_eq!(matched_strs, vec![2, 0, 5, 0, 0, 9, 0, 0, 0, 11, 0]);
}

#[test]
fn nfa_optimized_test_check_str_without_start_3() {
    let nfa = nfa_from_reg("ab*").unwrap();
    let str = "ababbabbbab";
    let matched_strs = nfa.check_str_without_start(&str);
    println!("{:?}", matched_strs);
    assert_eq!(
        regrep::driver::helper_spans(&matched_strs),
        vec![(0, 2), (2, 5), (5, 9), (9, 11)]
    );
}

#[test]
fn empty_line_gives_no_ends() {
    let nfa = nfa_from_reg("ab*").unwrap();
    assert_eq!(nfa.check_str_without_start(""), Vec::<usize>::new());
}

#[test]
fn test_time() {
    let start = std::time::Instant::now();
    let nfa = nfa_from_reg(r"is \s");
    println!("Time: {:?}", start.elapsed());
    assert!(nfa.is_some());
}

fn a_star(size: usize) -> String {
    let pattern = generate_regex_pattern(size);
    let mut nfa = nfa_from_reg(&pattern).unwrap();
    nfa.find_prefix_from_nfa()
}

fn a_star_prefix_extraction(size: usize) -> f32 {
    let pattern = generate_regex_pattern(size);
    let mut nfa = nfa_from_reg(&pattern).unwrap();
    let start = std::time::Instant::now();
    let _prefix = nfa.find_prefix_from_nfa();
    start.elapsed().as_secs_f32()
}

#[test]
fn test_a_star_specific() {
    let start = std::time::Instant::now();
    let prefix = a_star(3);
    println!("Prefix: {}", prefix);
    println!("Test Time: {:?}", start.elapsed());
    assert_eq!(prefix, "aaa");
}

#[test]
fn test_a_star_prefix_extraction_specific() {
    let sizes = vec![2, 5, 7, 10, 15, 20];
    let mut result_time = Vec::new();
    for size in sizes {
        let time = a_star_prefix_extraction(size);
        result_time.push(time);
    }
    println!("Result Time: {:?}", result_time);
    assert_eq!(result_time.len(), 6);
}

fn suffix_general(pattern: &str) -> String {
    let mut nfa = nfa_from_reg(pattern).unwrap();
    let suffix = nfa.find_suffix_from_nfa();
    println!("Suffix: {}", suffix);
    suffix
}

#[test]
fn test_suffix_from_nfa_1() {
    let pattern = "ab|acb";
    assert_eq!(suffix_general(pattern), "b");
}

#[test]
fn test_suffix_from_nfa_2() {
    let pattern = "b?b?c?b?aaaaa";
    assert_eq!(suffix_general(pattern), "aaaaa");
}

#[test]
fn test_suffix_from_nfa_3() {
    let pattern = "(foo)|(fo)o";
    assert_eq!(suffix_general(pattern), "foo");
}

#[test]
fn test_suffix_from_nfa_4() {
    let pattern = "b?a?c?abc";
    assert_eq!(suffix_general(pattern), "abc");
}

#[test]
fn pattern_generator_writes_both_halves() {
    assert_eq!(generate_regex_pattern(0), "");
    assert_eq!(generate_regex_pattern(3), "a?a?a?aaa");
}

#[test]
fn invalid_pattern_is_not_compiled() {
    assert!(nfa_from_reg("a|").is_none());
    assert!(nfa_from_reg("").is_none());
    assert!(nfa_from_reg("(a").is_none());
}

#[test]
fn classes_hold_the_listed_characters() {
    let members = |letter: char| -> String {
        let nfa = NFA::from_char_class(letter);
        let mut v: Vec<char> = nfa.arcs_from(State { id: 0 }).iter().map(|e| e.label).collect();
        v.sort();
        v.into_iter().collect()
    };
    assert_eq!(members('d'), "0123456789");
    assert_eq!(members('w'), "\t ");
    assert_eq!(members('s').len(), 52);
    assert_eq!(members('.').len(), 96);
    assert_eq!(members('W').len(), 94);
    assert_eq!(members('D').len(), 1 + 15 + 69);
    assert!(!members('D').contains('/'));
    assert_eq!(members('S').len(), 1 + 33 + 6 + 4);
    assert_eq!(members('x'), "");
}

#[test]
fn pruning_removes_what_the_start_cannot_reach() {
    let mut nfa = NFA::new();
    let a = nfa.add_state();
    let b = nfa.add_state();
    nfa.add_accept(b);
    nfa.add_transition(b, Transition::Char('x'), a);
    nfa.remove_unreachable_states();
    assert_eq!(nfa.get_len(), 1);
    assert_eq!(nfa.accept_len(), 0);
    assert!(!nfa.has_state(a));
    assert_eq!(nfa.arcs_from(b).len(), 0);
}

#[test]
fn reversing_turns_every_edge_round() {
    let nfa = nfa_from_reg("ab").unwrap();
    let rev = nfa.get_transitions_reverse();
    assert_eq!(rev.get_len(), nfa.get_len());
    assert_eq!(rev.accept_len(), 1);
    assert!(rev.is_accepting(nfa.start_state()));
}

#[test]
fn rewired_automata_are_run_behind_the_anchors() {
    let mut nfa = nfa_from_reg("(fd)+|fl").unwrap();
    assert_eq!(nfa.find_prefix_from_nfa(), "f");
    // what is left: d(fd)* or l
    assert_eq!(nfa.check_str_with_start(&vec![1], "fdfdx", 1), vec![4]);
    assert_eq!(nfa.check_str_with_start(&vec![1], "flfd", 1), vec![2]);
    let mut nfa = nfa_from_reg("ab*").unwrap();
    assert_eq!(nfa.find_prefix_from_nfa(), "a");
    assert_eq!(nfa.check_str_with_start(&vec![1, 4], "abbab", 1), vec![3, 5]);
    let mut nfa = nfa_from_reg("ab+").unwrap();
    assert_eq!(nfa.find_prefix_from_nfa(), "ab");
    assert_eq!(nfa.check_str_with_start(&vec![2], "abbb", 2), vec![4]);
    let mut nfa = nfa_from_reg("ab*a").unwrap();
    assert_eq!(nfa.find_prefix_from_nfa(), "a");
    assert_eq!(nfa.check_str_with_start(&vec![1], "abba", 1), vec![4]);
    let mut nfa = nfa_from_reg("a?a?a?aa").unwrap();
    assert_eq!(nfa.find_prefix_from_nfa(), "aa");
    assert_eq!(nfa.check_str_with_start(&vec![2], "aaaaaaa", 2), vec![5]);
}

#[test]
fn compiled_alternation_with_repetition_finds_its_words() {
    let nfa = nfa_from_reg("(fd)+|fl").unwrap();
    assert_eq!(nfa.check_str_without_start("fdfdfl"), vec![4, 0, 0, 0, 6, 0]);
}
