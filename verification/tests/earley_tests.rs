use regrep::earley_parse::{nt, tr, ASTNode, PrettyPrint, Symbol, CFG};

#[test]
fn test_arith() {
    let mut g = CFG::new("EXP");

    g.add_rule("EXP", vec![nt("EXP"), tr('-'), nt("EXP")]);
    g.add_rule("EXP", vec![nt("TERM")]);

    g.add_rule("TERM", vec![nt("TERM"), tr('/'), nt("TERM")]);
    g.add_rule("TERM", vec![nt("FACTOR")]);

    g.add_rule("FACTOR", vec![tr('('), nt("EXP"), tr(')')]);
    for a in '0'..='9' {
        g.add_rule("FACTOR", vec![tr(a)]);
    }

    assert!(g.parse("5--5").is_none());
    assert!(g.parse("5-5").is_some());

    let tree = g.parse("5-6").unwrap().collapse();
    if let ASTNode::NonTerminal { sym: _, children } = tree {
        assert_eq!('5', children[0].unwrap_terminal());
        assert_eq!('-', children[1].unwrap_terminal());
        assert_eq!('6', children[2].unwrap_terminal());
    } else {
        panic!("Expected nonterminal");
    }

    let result = g.parse("(5-5)/(2-3/4)");
    assert!(result.is_some());
    println!("{}", PrettyPrint(&result.unwrap().collapse()).render());
}

#[test]
fn rules_come_back_in_the_order_added() {
    let mut g = CFG::new("S");
    g.add_rule("S", vec![nt("A"), tr('x')]);
    g.add_rule("A", vec![tr('a')]);
    g.add_rule("S", vec![tr('y')]);
    let s = g.rules("S");
    assert_eq!(s.len(), 2);
    assert_eq!(s[0], vec![Symbol::NonTerminal("A"), Symbol::Terminal('x')]);
    assert_eq!(s[1], vec![Symbol::Terminal('y')]);
    assert_eq!(g.rules("A").len(), 1);
    assert_eq!(g.rules("B").len(), 0);
}

#[test]
fn uncollapsed_tree_has_chain_nodes() {
    let mut g = CFG::new("S");
    g.add_rule("S", vec![nt("A")]);
    g.add_rule("A", vec![tr('a'), tr('b')]);
    let tree = g.parse("ab").unwrap();
    assert_eq!(PrettyPrint(&tree).render(), "S(A('a', 'b'))");
    assert_eq!(PrettyPrint(&tree.collapse()).render(), "A('a', 'b')");
    assert!(g.parse("a").is_none());
    assert!(g.parse("abb").is_none());
}

#[test]
fn grammar_without_start_rules_parses_nothing() {
    let mut g = CFG::new("S");
    g.add_rule("A", vec![tr('a')]);
    assert!(g.parse("a").is_none());
    assert!(g.parse("").is_none());
}
