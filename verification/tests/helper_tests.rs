use regrep::helper::{
    alphabet_index, bad_char_table, find_prefix_boyer_moore, full_shift_table, good_suffix_table,
    match_length, preprocess,
};

fn search(p: &str, t: &str) -> Vec<usize> {
    let r = bad_char_table(p);
    let l = good_suffix_table(p);
    let f = full_shift_table(p);
    find_prefix_boyer_moore(p, t, &r, &l, &f)
}

fn naive(p: &str, t: &str) -> Vec<usize> {
    let p = p.as_bytes();
    let t = t.as_bytes();
    let mut out = Vec::new();
    let mut k = 0;
    while k + p.len() <= t.len() {
        if &t[k..k + p.len()] == p {
            out.push(k + p.len());
        }
        k += 1;
    }
    out
}

#[test]
fn alphabet_is_numbered_from_the_tab() {
    assert_eq!(alphabet_index('\t'), 0);
    assert_eq!(alphabet_index(' '), 1);
    assert_eq!(alphabet_index('a'), 66);
    assert_eq!(alphabet_index('~'), 95);
}

#[test]
fn match_length_counts_the_common_beginning() {
    let s: Vec<char> = "abcabcabd".chars().collect();
    assert_eq!(match_length(&s, 0, 3), 5);
    assert_eq!(match_length(&s, 0, 1), 0);
    assert_eq!(match_length(&s, 2, 2), 7);
    assert_eq!(match_length(&s, 0, 9), 0);
}

#[test]
fn z_array_of_a_periodic_word() {
    let s: Vec<char> = "aabcaabxaaaz".chars().collect();
    assert_eq!(preprocess(&s), vec![12, 1, 0, 0, 3, 1, 0, 0, 2, 2, 1, 0]);
    let s: Vec<char> = "aaaa".chars().collect();
    assert_eq!(preprocess(&s), vec![4, 3, 2, 1]);
    let s: Vec<char> = "a".chars().collect();
    assert_eq!(preprocess(&s), vec![1]);
    let s: Vec<char> = Vec::new();
    assert_eq!(preprocess(&s), Vec::<i32>::new());
}

#[test]
fn bad_char_table_gives_rightmost_places() {
    let r = bad_char_table("abab");
    assert_eq!(r.len(), 96);
    assert_eq!(r[alphabet_index('a')], vec![0, 0, 2, 2]);
    assert_eq!(r[alphabet_index('b')], vec![-1, 1, 1, 3]);
    assert_eq!(r[alphabet_index('c')], vec![-1, -1, -1, -1]);
    let r = bad_char_table("");
    assert_eq!(r.len(), 96);
    assert!(r.iter().all(|row| row.is_empty()));
}

#[test]
fn good_suffix_table_of_a_word_with_repeats() {
    assert_eq!(good_suffix_table("abab"), vec![-1, -1, 1, -1]);
    assert_eq!(good_suffix_table("xabyab"), vec![-1, -1, -1, -1, 2, -1]);
    assert_eq!(good_suffix_table("a"), vec![-1]);
}

#[test]
fn full_shift_table_gives_longest_borders() {
    assert_eq!(full_shift_table("abab"), vec![4, 2, 2, 0]);
    assert_eq!(full_shift_table("aaa"), vec![3, 2, 1]);
    assert_eq!(full_shift_table("abc"), vec![3, 0, 0]);
    assert_eq!(full_shift_table(""), Vec::<i32>::new());
}

#[test]
fn search_reports_ends_of_occurrences() {
    assert_eq!(search("aba", "xxabaxabababa"), vec![5, 9, 11, 13]);
    assert_eq!(search("foo", "food fool"), vec![3, 8]);
    assert_eq!(search("a", "banana"), vec![2, 4, 6]);
}

#[test]
fn search_in_short_or_empty_text_finds_nothing() {
    assert_eq!(search("abc", ""), Vec::<usize>::new());
    assert_eq!(search("abc", "ab"), Vec::<usize>::new());
    assert_eq!(search("abc", "abd"), Vec::<usize>::new());
}

#[test]
fn search_reports_overlapping_occurrences() {
    assert_eq!(search("aa", "aaa"), vec![2, 3]);
    assert_eq!(search("aa", "aaaa"), vec![2, 3, 4]);
    assert_eq!(search("aba", "ababa"), vec![3, 5]);
    assert_eq!(search("abcab", "abcabcabxabcab"), vec![5, 8, 14]);
    assert_eq!(search("a", "aaa"), vec![1, 2, 3]);
}

#[test]
fn search_does_not_take_a_shifted_window_for_a_match() {
    // After the mismatch on 'z' the window moves past it; what the old
    // window matched says nothing about the new one.
    assert_eq!(search("xabyab", "qqqzabbyab"), Vec::<usize>::new());
    assert_eq!(search("xabyab", "qqqzabxabyab"), vec![12]);
}

#[test]
fn search_agrees_with_a_plain_search() {
    let patterns = ["a", "ab", "aa", "aba", "abab", "aab", "baa", "abcab", "aabaa", "bb"];
    let alphabet = ['a', 'b'];
    for p in patterns.iter() {
        for len in 0..11usize {
            for code in 0..(1usize << len) {
                let t: String = (0..len).map(|i| alphabet[(code >> i) & 1]).collect();
                assert_eq!(search(p, &t), naive(p, &t), "pattern {} in {}", p, t);
            }
        }
    }
}
