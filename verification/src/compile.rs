//! From a pattern's syntax tree to its automaton.

use vstd::prelude::*;
use crate::automaton::{in_class, Automaton};
use crate::cfg::{cfg_for_regular_expression, lemma_names_differ, literal_rules, plain_rules, regex_grammar, regex_rules, special_rules, is_regex_name};
use crate::earley_parse::{generates, roots, ASTNode, Sym, Tree, lemma_node_view, lemma_trees_of};
use crate::nfa::NFA;
use crate::text::str_eq;

verus! {

/// `c` is one of the letters that name a character class behind a
/// backslash.
pub open spec fn is_class_letter(c: char) -> bool {
    c == 's' || c == 'S' || c == 'd' || c == 'D' || c == 'w' || c == 'W'
}

/// `c` is one of the three repetition operators.
pub open spec fn is_repeat_op(c: char) -> bool {
    c == '*' || c == '+' || c == '?'
}

/// The trees that can be compiled: every inner node has one of the six
/// names of the pattern grammar and the children that its name asks for.
pub open spec fn compilable(t: Tree) -> bool
    decreases t,
{
    match t {
        Tree::Leaf(_) => true,
        Tree::Node(name, kids) => {
            if name == "RE"@ {
                kids.len() >= 1 && compilable(kids[0])
            } else if name == "Concat"@ {
                kids.len() >= 2 && compilable(kids[0]) && compilable(kids[1])
            } else if name == "Union"@ {
                kids.len() == 3 && compilable(kids[0]) && compilable(kids[2])
            } else if name == "Repeat"@ {
                kids.len() >= 2 && compilable(kids[0]) && kids[1] is Leaf && is_repeat_op(
                    kids[1]->Leaf_0,
                )
            } else if name == "Term"@ {
                if kids.len() == 1 {
                    compilable(kids[0])
                } else {
                    kids.len() >= 2 && compilable(kids[1])
                }
            } else if name == "Literal"@ {
                if kids.len() == 1 {
                    compilable(kids[0])
                } else {
                    kids.len() >= 2 && kids[1] is Leaf
                }
            } else {
                false
            }
        },
    }
}

/// The automaton of a pattern's syntax tree, by Thompson's construction.
pub open spec fn thompson(t: Tree) -> Automaton
    decreases t,
{
    match t {
        Tree::Leaf(c) => if c == '.' {
            Automaton::class('.')
        } else {
            Automaton::single(c)
        },
        Tree::Node(name, kids) => {
            if name == "RE"@ {
                if kids.len() >= 1 {
                    thompson(kids[0])
                } else {
                    Automaton::blank()
                }
            } else if name == "Concat"@ {
                if kids.len() >= 2 {
                    Automaton::concat_all(seq![thompson(kids[0]), thompson(kids[1])])
                } else {
                    Automaton::blank()
                }
            } else if name == "Union"@ {
                if kids.len() == 3 {
                    Automaton::union_all(seq![thompson(kids[0]), thompson(kids[2])])
                } else {
                    Automaton::blank()
                }
            } else if name == "Repeat"@ {
                if kids.len() >= 2 && kids[1] is Leaf {
                    let op = kids[1]->Leaf_0;
                    if op == '*' {
                        thompson(kids[0]).star()
                    } else if op == '+' {
                        thompson(kids[0]).plus()
                    } else {
                        thompson(kids[0]).question()
                    }
                } else {
                    Automaton::blank()
                }
            } else if name == "Term"@ {
                if kids.len() == 1 {
                    thompson(kids[0])
                } else if kids.len() >= 2 {
                    thompson(kids[1])
                } else {
                    Automaton::blank()
                }
            } else if name == "Literal"@ {
                if kids.len() == 1 {
                    thompson(kids[0])
                } else if kids.len() >= 2 && kids[1] is Leaf {
                    let c = kids[1]->Leaf_0;
                    if is_class_letter(c) {
                        Automaton::class(c)
                    } else {
                        Automaton::single(c)
                    }
                } else {
                    Automaton::blank()
                }
            } else {
                Automaton::blank()
            }
        },
    }
}

/// The pattern of the syntax tree `t` denotes the word `w`.
pub open spec fn denotes(t: Tree, w: Seq<char>) -> bool
    decreases t, 0nat, 0nat,
{
    match t {
        Tree::Leaf(c) => if c == '.' {
            w.len() == 1 && in_class('.', w[0])
        } else {
            w == seq![c]
        },
        Tree::Node(name, kids) => {
            if name == "RE"@ {
                kids.len() >= 1 && denotes(kids[0], w)
            } else if name == "Concat"@ {
                kids.len() >= 2 && exists|k: int|
                    0 <= k <= w.len() && denotes(kids[0], #[trigger] w.take(k)) && denotes(
                        kids[1],
                        w.skip(k),
                    )
            } else if name == "Union"@ {
                kids.len() == 3 && (denotes(kids[0], w) || denotes(kids[2], w))
            } else if name == "Repeat"@ {
                kids.len() >= 2 && kids[1] is Leaf && {
                    let op = kids[1]->Leaf_0;
                    if op == '*' {
                        denotes_some(kids[0], w)
                    } else if op == '+' {
                        exists|k: int|
                            0 <= k <= w.len() && denotes_some(kids[0], #[trigger] w.take(k))
                                && denotes(kids[0], w.skip(k))
                    } else {
                        w.len() == 0 || denotes(kids[0], w)
                    }
                }
            } else if name == "Term"@ {
                if kids.len() == 1 {
                    denotes(kids[0], w)
                } else {
                    kids.len() >= 2 && denotes(kids[1], w)
                }
            } else if name == "Literal"@ {
                if kids.len() == 1 {
                    denotes(kids[0], w)
                } else {
                    kids.len() >= 2 && kids[1] is Leaf && {
                        let c = kids[1]->Leaf_0;
                        if is_class_letter(c) {
                            w.len() == 1 && in_class(c, w[0])
                        } else {
                            w == seq![c]
                        }
                    }
                }
            } else {
                false
            }
        },
    }
}

/// `w` can be cut into words that the pattern of `t` denotes, none of
/// them empty.
pub open spec fn denotes_some(t: Tree, w: Seq<char>) -> bool
    decreases t, 1nat, w.len(),
{
    w.len() == 0 || exists|k: int|
        0 <= k < w.len() && denotes_some(t, #[trigger] w.take(k)) && denotes(t, w.skip(k))
}

impl NFA {
    /// The automaton of a pattern's syntax tree.
    pub fn from_regex(node: &ASTNode) -> (nfa: NFA)
        requires
            compilable(node@),
        ensures
            nfa.wf(),
            nfa@ == thompson(node@),
        decreases node,
    {
        match node {
            ASTNode::Terminal(terminal) => {
                if *terminal == '.' {
                    NFA::from_char_class('.')
                } else {
                    NFA::from_char(*terminal)
                }
            },
            ASTNode::NonTerminal { sym, children } => {
                proof {
                    lemma_node_view(*node);
                    lemma_trees_of(children@);
                }
                if str_eq(sym, "RE") {
                    NFA::from_regex(&children[0])
                } else if str_eq(sym, "Concat") {
                    let left = NFA::from_regex(&children[0]);
                    let right = NFA::from_regex(&children[1]);
                    let mut parts: Vec<NFA> = Vec::new();
                    parts.push(left);
                    parts.push(right);
                    proof {
                        assert(parts@.map_values(|n: NFA| n@) =~= seq![
                            thompson(children@[0]@),
                            thompson(children@[1]@),
                        ]);
                    }
                    NFA::from_concatenation(parts)
                } else if str_eq(sym, "Union") {
                    let left = NFA::from_regex(&children[0]);
                    let right = NFA::from_regex(&children[2]);
                    let mut parts: Vec<NFA> = Vec::new();
                    parts.push(left);
                    parts.push(right);
                    proof {
                        assert(parts@.map_values(|n: NFA| n@) =~= seq![
                            thompson(children@[0]@),
                            thompson(children@[2]@),
                        ]);
                    }
                    NFA::from_union(parts)
                } else if str_eq(sym, "Repeat") {
                    let nfa = NFA::from_regex(&children[0]);
                    let op = children[1].unwrap_terminal();
                    if op == '*' {
                        NFA::from_kleene_star(nfa)
                    } else if op == '+' {
                        NFA::from_plus(nfa)
                    } else {
                        NFA::from_question_mark(nfa)
                    }
                } else if str_eq(sym, "Term") {
                    if children.len() == 1 {
                        NFA::from_regex(&children[0])
                    } else {
                        // skip '(' and ')'
                        NFA::from_regex(&children[1])
                    }
                } else {
                    if children.len() == 1 {
                        NFA::from_regex(&children[0])
                    } else {
                        // special characters or character classes
                        let c = children[1].unwrap_terminal();
                        if c == 's' || c == 'S' || c == 'd' || c == 'D' || c == 'w' || c == 'W' {
                            NFA::from_char_class(c)
                        } else {
                            NFA::from_char(c)
                        }
                    }
                }
            },
        }
    }
}

/// Every production for a plain character has that one character as its
/// right-hand side.
pub proof fn lemma_plain_rules(upto: int, p: int)
    requires
        0 <= p < plain_rules(upto).len(),
    ensures
        plain_rules(upto)[p].len() == 1,
        plain_rules(upto)[p][0] is T,
    decreases upto,
{
    if upto > 0x20 {
        if p < plain_rules(upto - 1).len() {
            lemma_plain_rules(upto - 1, p);
        }
    }
}

/// A production of `Literal` is one terminal, or a backslash and one
/// terminal.
pub proof fn lemma_literal_rule(p: int)
    requires
        0 <= p < literal_rules().len(),
    ensures
        literal_rules()[p].len() == 1 || literal_rules()[p].len() == 2,
        forall|i: int| 0 <= i < literal_rules()[p].len() ==> literal_rules()[p][i] is T,
{
    let plain = plain_rules(0x7F);
    if p < plain.len() {
        lemma_plain_rules(0x7F, p);
    } else if p == plain.len() {
    } else {
        let k = p - plain.len() - 1;
        assert(literal_rules()[p] == special_rules()[k]);
    }
}

/// No production of the pattern grammar is empty.
pub proof fn lemma_regex_no_empty_rule()
    ensures
        regex_grammar().no_empty_rule(),
{
    let g = regex_grammar();
    lemma_names_differ();
    assert forall|name: Seq<char>, p: int| 0 <= p < g.prods(name).len() implies (
    #[trigger] g.prods(name)[p]).len() > 0 by {
        assert(is_regex_name(name));
        assert(g.prods(name) == regex_rules(name));
        if name == "Literal"@ {
            lemma_literal_rule(p);
        }
    }
}

/// A parse tree of the pattern grammar can be compiled once it is
/// collapsed.
pub proof fn lemma_parse_tree_compilable(t: Tree)
    requires
        t.derives(regex_grammar()),
    ensures
        compilable(t.collapsed()),
    decreases t,
{
    match t {
        Tree::Leaf(_) => {},
        Tree::Node(name, kids) => {
            let g = regex_grammar();
            lemma_names_differ();
            Tree::lemma_collapsed_node(name, kids);
            let rhs = roots(kids);
            let p = choose|p: int| 0 <= p < g.prods(name).len() && #[trigger] g.prods(name)[p] == rhs;
            assert(is_regex_name(name));
            assert(g.prods(name) == regex_rules(name));
            assert(rhs.len() == kids.len());
            assert forall|i: int| 0 <= i < kids.len() implies compilable(
                (#[trigger] kids[i]).collapsed(),
            ) by {
                lemma_parse_tree_compilable(kids[i]);
            }
            assert forall|i: int| 0 <= i < kids.len() && rhs[i] is T implies (
            #[trigger] kids[i]).collapsed() == Tree::Leaf(rhs[i]->T_0) by {
                assert(rhs[i] == kids[i].root());
            }
            if kids.len() != 1 {
                let c = t.collapsed();
                let ck = c->Node_1;
                assert forall|i: int| 0 <= i < kids.len() implies compilable(#[trigger] ck[i]) by {
                    assert(ck[i] == kids[i].collapsed());
                }
                if name == "Repeat"@ {
                    assert(ck[1] == kids[1].collapsed());
                } else if name == "Literal"@ {
                    lemma_literal_rule(p);
                    assert(ck[1] == kids[1].collapsed());
                }
            }
        },
    }
}

/// The automaton of the pattern `regex`, closed under epsilon edges and
/// pruned, or `None` where `regex` is no pattern of the grammar. The
/// automaton is that of some parse tree of `regex`, collapsed, and it
/// accepts the words that the pattern of that tree denotes.
pub fn nfa_from_reg(regex: &str) -> (r: Option<NFA>)
    ensures
        r is Some <==> generates(regex_grammar(), regex@),
        r matches Some(nfa) ==> nfa.wf() && nfa@.compiled() && exists|t: Tree|
            t.derives(regex_grammar()) && t.root() == Sym::N("RE"@) && t.fringe() == regex@
                && nfa@ == thompson(#[trigger] t.collapsed()).eps_closed().pruned() && forall|
                w: Seq<char>,
            | #[trigger] nfa@.accepts_word(w) <==> denotes(t.collapsed(), w),
{
    let cfg = cfg_for_regular_expression();
    proof {
        lemma_regex_no_empty_rule();
    }
    match cfg.parse(regex) {
        None => None,
        Some(tree) => {
            let ghost t = tree@;
            proof {
                lemma_parse_tree_compilable(t);
            }
            let ast = tree.collapse();
            proof {
                crate::invariants::lemma_thompson_sound(ast@);
            }
            let mut nfa = NFA::from_regex(&ast);
            nfa.epsilon_close();
            nfa.remove_unreachable_states();
            proof {
                assert forall|w: Seq<char>| #[trigger]
                    nfa@.accepts_word(w) <==> denotes(t.collapsed(), w) by {
                    crate::semantics::lemma_compiled_language(t.collapsed(), w);
                }
            }
            Some(nfa)
        },
    }
}

/// The pattern of `size` optional `a`s followed by `size` `a`s.
pub fn generate_regex_pattern(size: usize) -> (s: String)
    ensures
        s@ == repeated(seq!['a', '?'], size as nat) + repeated(seq!['a'], size as nat),
{
    let mut s = String::new();
    let mut i: usize = 0;
    while i < size
        invariant
            i <= size,
            s@ == repeated(seq!['a', '?'], i as nat),
        decreases size - i,
    {
        s.push('a');
        s.push('?');
        proof {
            assert(s@ =~= repeated(seq!['a', '?'], i as nat) + seq!['a', '?']);
        }
        i += 1;
    }
    let ghost head = s@;
    let mut i: usize = 0;
    while i < size
        invariant
            i <= size,
            s@ == head + repeated(seq!['a'], i as nat),
        decreases size - i,
    {
        s.push('a');
        proof {
            assert(s@ =~= head + (repeated(seq!['a'], i as nat) + seq!['a']));
        }
        i += 1;
    }
    s
}

/// `unit` written `n` times.
pub open spec fn repeated(unit: Seq<char>, n: nat) -> Seq<char>
    decreases n,
{
    if n == 0 {
        Seq::empty()
    } else {
        repeated(unit, (n - 1) as nat) + unit
    }
}

} // verus!
