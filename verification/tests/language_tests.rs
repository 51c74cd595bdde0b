use regrep::cfg::cfg_for_regular_expression;
use regrep::compile::nfa_from_reg;
use regrep::earley_parse::ASTNode;
use regrep::nfa::NFA;

fn class_holds(letter: char, c: char) -> bool {
    let printable = c == '\t' || (' '..='~').contains(&c);
    match letter {
        '.' => printable,
        's' => c.is_ascii_alphabetic(),
        'S' => printable && !c.is_ascii_alphabetic(),
        'd' => c.is_ascii_digit(),
        'D' => printable && !c.is_ascii_digit() && c != '/',
        'w' => c == '\t' || c == ' ',
        'W' => ('!'..='~').contains(&c),
        _ => false,
    }
}

// Whether the pattern of the collapsed tree denotes the word, by trying
// every way to cut the word.
fn denotes(node: &ASTNode, w: &[char]) -> bool {
    match node {
        ASTNode::Terminal('.') => w.len() == 1 && class_holds('.', w[0]),
        ASTNode::Terminal(c) => w.len() == 1 && w[0] == *c,
        ASTNode::NonTerminal { sym, children } => match *sym {
            "Union" => denotes(&children[0], w) || denotes(&children[2], w),
            "Concat" => (0..=w.len())
                .any(|k| denotes(&children[0], &w[..k]) && denotes(&children[1], &w[k..])),
            "Term" => denotes(&children[1], w),
            "Literal" => {
                let c = children[1].unwrap_terminal();
                if "sSdDwW".contains(c) {
                    w.len() == 1 && class_holds(c, w[0])
                } else {
                    w.len() == 1 && w[0] == c
                }
            }
            "Repeat" => match children[1].unwrap_terminal() {
                '?' => w.is_empty() || denotes(&children[0], w),
                '+' => repeats(&children[0], w, true),
                _ => repeats(&children[0], w, false),
            },
            _ => panic!("unexpected node"),
        },
    }
}

fn repeats(node: &ASTNode, w: &[char], at_least_one: bool) -> bool {
    if w.is_empty() {
        return !at_least_one || denotes(node, w);
    }
    (1..=w.len()).any(|k| denotes(node, &w[..k]) && repeats(node, &w[k..], false))
}

fn accepts(nfa: &NFA, w: &[char]) -> bool {
    if w.is_empty() {
        return nfa.is_accepting(nfa.start_state());
    }
    nfa.longest_from(&w.to_vec(), 0) == Some(w.len())
}

fn words(alphabet: &[char], max_len: usize) -> Vec<Vec<char>> {
    let mut all = vec![Vec::new()];
    let mut last = vec![Vec::new()];
    for _ in 0..max_len {
        let mut next = Vec::new();
        for w in &last {
            for &c in alphabet {
                let mut v: Vec<char> = w.clone();
                v.push(c);
                next.push(v);
            }
        }
        all.extend(next.iter().cloned());
        last = next;
    }
    all
}

#[test]
fn automaton_accepts_what_the_pattern_denotes() {
    let patterns = [
        "a", "ab", "a|b", "a*", "a+", "a?", "(ab)*", "(a|b)*abb", "a(b|c)*d", "(ab|a)(bc|c)",
        "a?a?aa", "(a*b*)*", "a((b*c*)*|d)", "(a|ab)(c|bcd)(d*)", "b?aaa", ".a.", r"\d\D",
        r"a\*b", r"\(a\)", "(a+)+b", "((a))", "a|b|c", "(a|b)+c?",
    ];
    let alphabet = ['a', 'b', 'c', 'd', '*', '(', ')', '1'];
    let cfg = cfg_for_regular_expression();
    for pattern in patterns {
        let tree = cfg.parse(pattern).unwrap().collapse();
        let nfa = nfa_from_reg(pattern).unwrap();
        for w in words(&alphabet, 4) {
            assert_eq!(
                accepts(&nfa, &w),
                denotes(&tree, &w),
                "pattern {} word {:?}",
                pattern,
                w
            );
        }
    }
}

#[test]
fn extraction_keeps_the_words_of_the_pattern() {
    let patterns = ["ab(c|d)*", "abc", "a+b", "(ab)+", "ab|ac", "aab*", "a(b|c)a"];
    let alphabet = ['a', 'b', 'c', 'd'];
    let cfg = cfg_for_regular_expression();
    for pattern in patterns {
        let tree = cfg.parse(pattern).unwrap().collapse();
        let mut nfa = nfa_from_reg(pattern).unwrap();
        let prefix: Vec<char> = nfa.find_prefix_from_nfa().chars().collect();
        assert!(!prefix.is_empty());
        for w in words(&alphabet, 4) {
            let mut whole = prefix.clone();
            whole.extend(w.iter());
            assert_eq!(accepts(&nfa, &w), denotes(&tree, &whole), "{} tail {:?}", pattern, w);
        }
    }
}
