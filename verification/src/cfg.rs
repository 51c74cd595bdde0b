//! The grammar of the patterns.

use vstd::prelude::*;
use crate::earley_parse::{nt, tr, ASTNode, Grammar, Sym, Symbol, Tree, CFG, syms_of, lemma_node_view, lemma_trees_of};
use crate::text::{chars_of, str_eq, string_of};

verus! {

/// The characters that have a meaning of their own in a pattern. They
/// stand for themselves only behind a backslash.
pub open spec fn is_meta(c: char) -> bool {
    c == '{' || c == '|' || c == '*' || c == '(' || c == ')' || c == '+' || c == '?' || c == '\\'
        || c == '.' || c == '}'
}

/// The productions `Literal -> c` for the characters with codes from 0x20
/// up to, not including, `upto` that are not meta characters.
pub open spec fn plain_rules(upto: int) -> Seq<Seq<Sym>>
    decreases upto,
{
    if upto <= 0x20 {
        Seq::empty()
    } else {
        let c = ((upto - 1) as u8) as char;
        if is_meta(c) {
            plain_rules(upto - 1)
        } else {
            plain_rules(upto - 1).push(seq![Sym::T(c)])
        }
    }
}

/// The production `Literal -> \ c`.
pub open spec fn escaped(c: char) -> Seq<Sym> {
    seq![Sym::T('\\'), Sym::T(c)]
}

/// The productions of `Literal` that begin with a backslash, and the dot
/// among them: the ten escaped meta characters, the dot, the six class
/// letters.
pub open spec fn special_rules() -> Seq<Seq<Sym>> {
    seq![
        escaped('|'),
        escaped('*'),
        escaped('('),
        escaped(')'),
        escaped('+'),
        escaped('?'),
        escaped('\\'),
        escaped('{'),
        escaped('}'),
        escaped('.'),
        seq![Sym::T('.')],
        escaped('s'),
        escaped('S'),
        escaped('d'),
        escaped('D'),
        escaped('w'),
        escaped('W'),
    ]
}

/// The productions of `Literal`: a printable character that is no meta
/// character, the tab, and the special forms.
pub open spec fn literal_rules() -> Seq<Seq<Sym>> {
    plain_rules(0x7F).push(seq![Sym::T('\t')]) + special_rules()
}

/// The productions of the non-terminal `name` of the pattern grammar.
pub open spec fn regex_rules(name: Seq<char>) -> Seq<Seq<Sym>> {
    if name == "RE"@ {
        seq![seq![Sym::N("Union"@)]]
    } else if name == "Union"@ {
        seq![seq![Sym::N("Union"@), Sym::T('|'), Sym::N("Concat"@)], seq![Sym::N("Concat"@)]]
    } else if name == "Concat"@ {
        seq![seq![Sym::N("Concat"@), Sym::N("Repeat"@)], seq![Sym::N("Repeat"@)]]
    } else if name == "Repeat"@ {
        seq![
            seq![Sym::N("Term"@), Sym::T('*')],
            seq![Sym::N("Term"@), Sym::T('+')],
            seq![Sym::N("Term"@), Sym::T('?')],
            seq![Sym::N("Term"@)],
        ]
    } else if name == "Term"@ {
        seq![seq![Sym::T('('), Sym::N("Union"@), Sym::T(')')], seq![Sym::N("Literal"@)]]
    } else if name == "Literal"@ {
        literal_rules()
    } else {
        Seq::empty()
    }
}

/// `name` is one of the six non-terminals of the pattern grammar.
pub open spec fn is_regex_name(name: Seq<char>) -> bool {
    name == "RE"@ || name == "Union"@ || name == "Concat"@ || name == "Repeat"@ || name == "Term"@
        || name == "Literal"@
}

/// The pattern grammar: alternatives of concatenations of repetitions,
/// left associative.
pub open spec fn regex_grammar() -> Grammar {
    Grammar {
        start: "RE"@,
        rules: Map::new(|name: Seq<char>| is_regex_name(name), |name: Seq<char>| regex_rules(name)),
    }
}

/// The six names differ.
pub proof fn lemma_names_differ()
    ensures
        "RE"@ != "Union"@,
        "RE"@ != "Concat"@,
        "RE"@ != "Repeat"@,
        "RE"@ != "Term"@,
        "RE"@ != "Literal"@,
        "Union"@ != "Concat"@,
        "Union"@ != "Repeat"@,
        "Union"@ != "Term"@,
        "Union"@ != "Literal"@,
        "Concat"@ != "Repeat"@,
        "Concat"@ != "Term"@,
        "Concat"@ != "Literal"@,
        "Repeat"@ != "Term"@,
        "Repeat"@ != "Literal"@,
        "Term"@ != "Literal"@,
{
    reveal_strlit("RE");
    reveal_strlit("Union");
    reveal_strlit("Concat");
    reveal_strlit("Repeat");
    reveal_strlit("Term");
    reveal_strlit("Literal");
    assert("RE"@.len() == 2);
    assert("Union"@.len() == 5);
    assert("Concat"@.len() == 6);
    assert("Repeat"@.len() == 6);
    assert("Term"@.len() == 4);
    assert("Literal"@.len() == 7);
    assert("Concat"@[0] == 'C');
    assert("Repeat"@[0] == 'R');
}

/// Whether `c` is a meta character.
pub fn is_meta_char(c: char) -> (b: bool)
    ensures
        b == is_meta(c),
{
    c == '{' || c == '|' || c == '*' || c == '(' || c == ')' || c == '+' || c == '?' || c == '\\'
        || c == '.' || c == '}'
}

/// One symbol as a right-hand side.
fn one(a: Symbol) -> (v: Vec<Symbol>)
    ensures
        syms_of(v@) == seq![a@],
{
    let mut v: Vec<Symbol> = Vec::new();
    v.push(a);
    assert(syms_of(v@) =~= seq![a@]);
    v
}

/// Two symbols as a right-hand side.
fn two(a: Symbol, b: Symbol) -> (v: Vec<Symbol>)
    ensures
        syms_of(v@) == seq![a@, b@],
{
    let mut v: Vec<Symbol> = Vec::new();
    v.push(a);
    v.push(b);
    assert(syms_of(v@) =~= seq![a@, b@]);
    v
}

/// Three symbols as a right-hand side.
fn three(a: Symbol, b: Symbol, c: Symbol) -> (v: Vec<Symbol>)
    ensures
        syms_of(v@) == seq![a@, b@, c@],
{
    let mut v: Vec<Symbol> = Vec::new();
    v.push(a);
    v.push(b);
    v.push(c);
    assert(syms_of(v@) =~= seq![a@, b@, c@]);
    v
}

/// Adds `Literal -> \ c`.
fn add_escaped(cfg: &mut CFG, c: char)
    requires
        old(cfg).wf(),
    ensures
        final(cfg).wf(),
        final(cfg)@.start == old(cfg)@.start,
        final(cfg)@.rules.dom() == old(cfg)@.rules.dom().insert("Literal"@),
        final(cfg)@.prods("Literal"@) == old(cfg)@.prods("Literal"@).push(escaped(c)),
        forall|name: Seq<char>|
            name != "Literal"@ ==> #[trigger] final(cfg)@.prods(name) == old(cfg)@.prods(name),
{
    cfg.add_rule("Literal", two(tr('\\'), tr(c)));
    assert(final(cfg)@.rules.dom() =~= old(cfg)@.rules.dom().insert("Literal"@));
}

/// The grammar of the patterns.
pub fn cfg_for_regular_expression() -> (cfg: CFG)
    ensures
        cfg.wf(),
        cfg@ == regex_grammar(),
{
    let mut cfg = CFG::new("RE");
    proof {
        lemma_names_differ();
    }
    // base case
    cfg.add_rule("RE", one(nt("Union")));
    // union
    cfg.add_rule("Union", three(nt("Union"), tr('|'), nt("Concat")));
    cfg.add_rule("Union", one(nt("Concat")));
    // concatenation
    cfg.add_rule("Concat", two(nt("Concat"), nt("Repeat")));
    cfg.add_rule("Concat", one(nt("Repeat")));
    // star, plus, question mark, or none of them
    cfg.add_rule("Repeat", two(nt("Term"), tr('*')));
    cfg.add_rule("Repeat", two(nt("Term"), tr('+')));
    cfg.add_rule("Repeat", two(nt("Term"), tr('?')));
    cfg.add_rule("Repeat", one(nt("Term")));
    // parentheses
    cfg.add_rule("Term", three(tr('('), nt("Union"), tr(')')));
    cfg.add_rule("Term", one(nt("Literal")));
    assert(cfg@.prods("RE"@) =~= regex_rules("RE"@));
    assert(cfg@.prods("Union"@) =~= regex_rules("Union"@));
    assert(cfg@.prods("Concat"@) =~= regex_rules("Concat"@));
    assert(cfg@.prods("Repeat"@) =~= regex_rules("Repeat"@));
    assert(cfg@.prods("Term"@) =~= regex_rules("Term"@));
    assert(cfg@.prods("Literal"@) =~= plain_rules(0x20));
    assert(cfg@.rules.dom() =~= set!["RE"@, "Union"@, "Concat"@, "Repeat"@, "Term"@]);
    // Every character from space to tilde that is no meta character
    // stands for itself.
    let mut c: u8 = 0x20;
    while c < 0x7F
        invariant
            0x20 <= c <= 0x7F,
            cfg.wf(),
            cfg@.start == "RE"@,
            cfg@.prods("RE"@) == regex_rules("RE"@),
            cfg@.prods("Union"@) == regex_rules("Union"@),
            cfg@.prods("Concat"@) == regex_rules("Concat"@),
            cfg@.prods("Repeat"@) == regex_rules("Repeat"@),
            cfg@.prods("Term"@) == regex_rules("Term"@),
            cfg@.prods("Literal"@) == plain_rules(c as int),
            forall|name: Seq<char>| #[trigger]
                cfg@.rules.dom().contains(name) ==> is_regex_name(name),
            cfg@.rules.dom().contains("RE"@),
            cfg@.rules.dom().contains("Union"@),
            cfg@.rules.dom().contains("Concat"@),
            cfg@.rules.dom().contains("Repeat"@),
            cfg@.rules.dom().contains("Term"@),
            c > 0x20 ==> cfg@.rules.dom().contains("Literal"@),
        decreases 0x7F - c,
    {
        let ch = c as char;
        proof {
            lemma_names_differ();
        }
        if !is_meta_char(ch) {
            cfg.add_rule("Literal", one(tr(ch)));
        }
        proof {
            assert(!is_meta(' '));
        }
        c += 1;
    }
    // tab
    cfg.add_rule("Literal", one(tr('\t')));
    proof {
        lemma_names_differ();
    }
    // escaped special characters
    add_escaped(&mut cfg, '|');
    add_escaped(&mut cfg, '*');
    add_escaped(&mut cfg, '(');
    add_escaped(&mut cfg, ')');
    add_escaped(&mut cfg, '+');
    add_escaped(&mut cfg, '?');
    add_escaped(&mut cfg, '\\');
    add_escaped(&mut cfg, '{');
    add_escaped(&mut cfg, '}');
    add_escaped(&mut cfg, '.');
    // dot (any character)
    cfg.add_rule("Literal", one(tr('.')));
    // character classes
    add_escaped(&mut cfg, 's');
    add_escaped(&mut cfg, 'S');
    add_escaped(&mut cfg, 'd');
    add_escaped(&mut cfg, 'D');
    add_escaped(&mut cfg, 'w');
    add_escaped(&mut cfg, 'W');
    proof {
        assert(cfg@.prods("Literal"@) =~= literal_rules());
        let goal = regex_grammar();
        assert forall|name: Seq<char>| #[trigger]
            cfg@.rules.dom().contains(name) <==> goal.rules.dom().contains(name) by {}
        assert forall|name: Seq<char>| #[trigger]
            cfg@.rules.dom().contains(name) implies cfg@.rules[name] == goal.rules[name] by {
            assert(cfg@.prods(name) == regex_rules(name));
        }
        assert(cfg@.rules =~= goal.rules);
    }
    cfg
}

/// `c` is one of the letters that name a character class.
pub open spec fn names_class(c: char) -> bool {
    c == 's' || c == 'S' || c == 'd' || c == 'D' || c == 'w' || c == 'W'
}

/// The characters on which the first `n` places of `a` and `b` agree.
pub open spec fn agreeing(a: Seq<char>, b: Seq<char>, n: nat) -> Seq<char>
    decreases n,
{
    if n == 0 {
        Seq::empty()
    } else {
        let i = n - 1;
        let rest = agreeing(a, b, i as nat);
        if i < a.len() && i < b.len() && a[i] == b[i] {
            rest.push(a[i])
        } else {
            rest
        }
    }
}

/// The characters among the first `n` of `a` that `b` does not have at
/// the same place.
pub open spec fn differing(a: Seq<char>, b: Seq<char>, n: nat) -> Seq<char>
    decreases n,
{
    if n == 0 {
        Seq::empty()
    } else {
        let i = n - 1;
        let rest = differing(a, b, i as nat);
        if i < a.len() && (i >= b.len() || a[i] != b[i]) {
            rest.push(a[i])
        } else {
            rest
        }
    }
}

/// The longer of two lengths.
pub open spec fn longer(a: Seq<char>, b: Seq<char>) -> nat {
    if a.len() >= b.len() {
        a.len()
    } else {
        b.len()
    }
}

/// The two strings are read side by side. Returns the characters on which
/// they agree, then for each string those of its characters that the
/// other does not have at the same place.
pub fn two_str_common_prefix(s1: &str, s2: &str) -> (r: (String, String, String))
    ensures
        r.0@ == agreeing(s1@, s2@, longer(s1@, s2@)),
        r.1@ == differing(s1@, s2@, longer(s1@, s2@)),
        r.2@ == differing(s2@, s1@, longer(s1@, s2@)),
{
    let a = chars_of(s1);
    let b = chars_of(s2);
    let (c, x, y) = side_by_side(&a, &b);
    (string_of(&c), string_of(&x), string_of(&y))
}

/// `two_str_common_prefix` on character vectors.
fn side_by_side(a: &Vec<char>, b: &Vec<char>) -> (r: (Vec<char>, Vec<char>, Vec<char>))
    ensures
        r.0@ == agreeing(a@, b@, longer(a@, b@)),
        r.1@ == differing(a@, b@, longer(a@, b@)),
        r.2@ == differing(b@, a@, longer(a@, b@)),
{
    let mut common: Vec<char> = Vec::new();
    let mut rest1: Vec<char> = Vec::new();
    let mut rest2: Vec<char> = Vec::new();
    let n = if a.len() >= b.len() {
        a.len()
    } else {
        b.len()
    };
    let mut i: usize = 0;
    while i < n
        invariant
            i <= n,
            n == longer(a@, b@),
            common@ == agreeing(a@, b@, i as nat),
            rest1@ == differing(a@, b@, i as nat),
            rest2@ == differing(b@, a@, i as nat),
        decreases n - i,
    {
        if i < a.len() && i < b.len() {
            if a[i] == b[i] {
                common.push(a[i]);
            } else {
                rest1.push(a[i]);
                rest2.push(b[i]);
            }
        } else if i < a.len() {
            rest1.push(a[i]);
        } else {
            rest2.push(b[i]);
        }
        i += 1;
    }
    (common, rest1, rest2)
}

/// The trees from which `prefix_extract` can read a prefix: the nodes
/// that it visits have the children that it asks for.
pub open spec fn extractable(t: Tree) -> bool
    decreases t,
{
    match t {
        Tree::Leaf(_) => true,
        Tree::Node(name, kids) => {
            if name == "RE"@ {
                kids.len() >= 1 && extractable(kids[0])
            } else if name == "Union"@ {
                kids.len() == 3 && extractable(kids[0]) && extractable(kids[2])
            } else if name == "Concat"@ {
                kids.len() >= 1 && extractable(kids[0]) && (kids[0].root() != Sym::N("Repeat"@)
                    ==> kids.len() >= 2 && extractable(kids[1]))
            } else if name == "Repeat"@ {
                kids.len() >= 2 && extractable(kids[0]) && kids[1] is Leaf && (kids[1]->Leaf_0
                    == '*' || kids[1]->Leaf_0 == '+' || kids[1]->Leaf_0 == '?')
            } else if name == "Term"@ {
                if kids.len() == 1 {
                    extractable(kids[0])
                } else {
                    kids.len() >= 2 && extractable(kids[1])
                }
            } else if name == "Literal"@ {
                if kids.len() == 1 {
                    extractable(kids[0])
                } else {
                    kids.len() >= 2 && kids[1] is Leaf
                }
            } else {
                true
            }
        },
    }
}

/// The characters that are read off a pattern's syntax tree as its fixed
/// part. They need not be a beginning of the pattern's words.
/// - A character gives itself, the dot gives nothing.
/// - A concatenation gives what its two parts give, one after the other;
///   where its first part is a repetition, only what that gives.
/// - An alternation gives the characters on which what its two sides
///   give agree, place by place.
/// - Of the repetitions only `+` gives anything: what is repeated.
/// - A class gives nothing.
pub open spec fn tree_prefix(t: Tree) -> Seq<char>
    decreases t,
{
    match t {
        Tree::Leaf(c) => if c == '.' {
            Seq::empty()
        } else {
            seq![c]
        },
        Tree::Node(name, kids) => {
            if name == "RE"@ {
                if kids.len() >= 1 {
                    tree_prefix(kids[0])
                } else {
                    Seq::empty()
                }
            } else if name == "Union"@ {
                if kids.len() == 3 {
                    agreeing(
                        tree_prefix(kids[0]),
                        tree_prefix(kids[2]),
                        longer(tree_prefix(kids[0]), tree_prefix(kids[2])),
                    )
                } else {
                    Seq::empty()
                }
            } else if name == "Concat"@ {
                if kids.len() >= 1 && kids[0].root() == Sym::N("Repeat"@) {
                    tree_prefix(kids[0])
                } else if kids.len() >= 2 {
                    tree_prefix(kids[0]) + tree_prefix(kids[1])
                } else {
                    Seq::empty()
                }
            } else if name == "Repeat"@ {
                if kids.len() >= 2 && kids[1] == Tree::Leaf('+') {
                    tree_prefix(kids[0])
                } else {
                    Seq::empty()
                }
            } else if name == "Term"@ {
                if kids.len() == 1 {
                    tree_prefix(kids[0])
                } else if kids.len() >= 2 {
                    tree_prefix(kids[1])
                } else {
                    Seq::empty()
                }
            } else if name == "Literal"@ {
                if kids.len() == 1 {
                    tree_prefix(kids[0])
                } else if kids.len() >= 2 && kids[1] is Leaf && !names_class(kids[1]->Leaf_0) {
                    tree_prefix(kids[1])
                } else {
                    Seq::empty()
                }
            } else {
                Seq::empty()
            }
        },
    }
}

/// The characters that are read off the pattern's syntax tree as its
/// fixed part: see `tree_prefix`. They need not be a beginning of the
/// pattern's words: for `a.b` they are `ab`.
pub fn prefix_extract(node: &ASTNode) -> (s: String)
    requires
        extractable(node@),
    ensures
        s@ == tree_prefix(node@),
{
    let v = prefix_chars(node);
    string_of(&v)
}

/// `prefix_extract` with the result as a character vector.
fn prefix_chars(node: &ASTNode) -> (v: Vec<char>)
    requires
        extractable(node@),
    ensures
        v@ == tree_prefix(node@),
    decreases node,
{
    match node {
        ASTNode::Terminal(terminal) => {
            let mut v: Vec<char> = Vec::new();
            if *terminal != '.' {
                v.push(*terminal);
            }
            v
        },
        ASTNode::NonTerminal { sym, children } => {
            proof {
                lemma_node_view(*node);
                lemma_trees_of(children@);
            }
            if str_eq(sym, "RE") {
                prefix_chars(&children[0])
            } else if str_eq(sym, "Union") {
                let str1 = prefix_chars(&children[0]);
                let str2 = prefix_chars(&children[2]);
                side_by_side(&str1, &str2).0
            } else if str_eq(sym, "Concat") {
                let first_repeats = match &children[0] {
                    ASTNode::NonTerminal { sym: inner, .. } => str_eq(inner, "Repeat"),
                    ASTNode::Terminal(_) => false,
                };
                if first_repeats {
                    prefix_chars(&children[0])
                } else {
                    let mut result = prefix_chars(&children[0]);
                    let mut second = prefix_chars(&children[1]);
                    result.append(&mut second);
                    result
                }
            } else if str_eq(sym, "Repeat") {
                // no action for non-fixed symbols
                let op = children[1].unwrap_terminal();
                if op == '+' {
                    prefix_chars(&children[0])
                } else {
                    Vec::new()
                }
            } else if str_eq(sym, "Term") {
                if children.len() == 1 {
                    prefix_chars(&children[0])
                } else {
                    // skip '(' and ')'
                    prefix_chars(&children[1])
                }
            } else if str_eq(sym, "Literal") {
                if children.len() == 1 {
                    prefix_chars(&children[0])
                } else {
                    // special characters or character classes
                    let c = children[1].unwrap_terminal();
                    if c == 's' || c == 'S' || c == 'd' || c == 'D' || c == 'w' || c == 'W' {
                        Vec::new()
                    } else {
                        prefix_chars(&children[1])
                    }
                }
            } else {
                Vec::new()
            }
        },
    }
}

/// The trees that `prefix_and_remainder_extract` can split: the nodes
/// that it visits have the children that it asks for.
pub open spec fn splittable(t: Tree) -> bool
    decreases t,
{
    match t {
        Tree::Leaf(_) => true,
        Tree::Node(name, kids) => {
            if name == "RE"@ {
                kids.len() >= 1 && splittable(kids[0])
            } else if name == "Union"@ {
                kids.len() == 3 && splittable(kids[0]) && splittable(kids[2])
            } else if name == "Concat"@ {
                kids.len() >= 2 && splittable(kids[0]) && splittable(kids[1])
            } else if name == "Repeat"@ {
                kids.len() >= 2 && splittable(kids[0]) && kids[1] is Leaf && (kids[1]->Leaf_0
                    == '*' || kids[1]->Leaf_0 == '+' || kids[1]->Leaf_0 == '?')
            } else if name == "Term"@ {
                if kids.len() == 1 {
                    splittable(kids[0])
                } else {
                    kids.len() >= 2 && splittable(kids[1])
                }
            } else if name == "Literal"@ {
                if kids.len() == 1 {
                    splittable(kids[0])
                } else {
                    kids.len() >= 2 && kids[1] is Leaf && (names_class(kids[1]->Leaf_0)
                        ==> kids[0] is Leaf)
                }
            } else {
                true
            }
        },
    }
}

/// Two strings read off a pattern's syntax tree: the characters taken as
/// its fixed part, and the text of a pattern for the rest. The first need
/// not be a beginning of the pattern's words.
/// - A character goes to the first string; the dot and the three
///   repetition signs go to the second.
/// - A concatenation joins the first strings of its parts while the first
///   part has no rest; else the second part goes to the rest as a whole.
/// - An alternation keeps the characters on which the first strings of
///   its sides agree, place by place, and puts what differs behind the
///   rests of the sides, with `|` between the sides.
/// - A repetition by `+` keeps the first string of what is repeated and
///   repeats it with `*` in the rest; `*` and `?` put all into the rest.
/// - Parentheses are put round the first string, or round the rest where
///   the first string is empty.
/// - A class goes to the rest, with its backslash.
pub open spec fn tree_split(t: Tree) -> (Seq<char>, Seq<char>)
    decreases t,
{
    match t {
        Tree::Leaf(c) => if c == '.' || c == '*' || c == '+' || c == '?' {
            (Seq::empty(), seq![c])
        } else {
            (seq![c], Seq::empty())
        },
        Tree::Node(name, kids) => {
            if name == "RE"@ {
                if kids.len() >= 1 {
                    tree_split(kids[0])
                } else {
                    (Seq::empty(), Seq::empty())
                }
            } else if name == "Union"@ {
                if kids.len() == 3 {
                    let (first_lit, first_rest) = tree_split(kids[0]);
                    let (second_lit, second_rest) = tree_split(kids[2]);
                    let n = longer(first_lit, second_lit);
                    (
                        agreeing(first_lit, second_lit, n),
                        first_rest + differing(first_lit, second_lit, n) + seq!['|'] + second_rest + differing(second_lit, first_lit, n),
                    )
                } else {
                    (Seq::empty(), Seq::empty())
                }
            } else if name == "Concat"@ {
                if kids.len() >= 2 {
                    let (first_lit, first_rest) = tree_split(kids[0]);
                    let (second_lit, second_rest) = tree_split(kids[1]);
                    if first_rest.len() == 0 {
                        (first_lit + second_lit, second_rest)
                    } else {
                        (first_lit, first_rest + second_lit + second_rest)
                    }
                } else {
                    (Seq::empty(), Seq::empty())
                }
            } else if name == "Repeat"@ {
                if kids.len() >= 2 && kids[1] is Leaf {
                    let (p, r) = tree_split(kids[0]);
                    let op = kids[1]->Leaf_0;
                    if op == '+' {
                        (p, p + r + seq!['*'])
                    } else {
                        (Seq::empty(), p + r + seq![op])
                    }
                } else {
                    (Seq::empty(), Seq::empty())
                }
            } else if name == "Term"@ {
                if kids.len() == 1 {
                    tree_split(kids[0])
                } else if kids.len() >= 2 {
                    let (p, r) = tree_split(kids[1]);
                    if p.len() == 0 {
                        (p, seq!['('] + r + seq![')'])
                    } else {
                        (seq!['('] + p + seq![')'], r)
                    }
                } else {
                    (Seq::empty(), Seq::empty())
                }
            } else if name == "Literal"@ {
                if kids.len() == 1 {
                    tree_split(kids[0])
                } else if kids.len() >= 2 && kids[1] is Leaf {
                    let c = kids[1]->Leaf_0;
                    if names_class(c) {
                        if kids[0] is Leaf {
                            (Seq::empty(), seq![kids[0]->Leaf_0, c])
                        } else {
                            (Seq::empty(), Seq::empty())
                        }
                    } else {
                        (seq![c], Seq::empty())
                    }
                } else {
                    (Seq::empty(), Seq::empty())
                }
            } else {
                (Seq::empty(), Seq::empty())
            }
        },
    }
}

/// Reads two strings off the pattern's syntax tree: the characters taken
/// as its fixed part, and the text of a pattern for the rest: see
/// `tree_split`. The first need not be a beginning of the pattern's
/// words.
pub fn prefix_and_remainder_extract(node: &ASTNode) -> (r: (String, String))
    requires
        splittable(node@),
    ensures
        r.0@ == tree_split(node@).0,
        r.1@ == tree_split(node@).1,
{
    let (p, r) = split_chars(node);
    (string_of(&p), string_of(&r))
}

/// The characters of `a`, then those of `b`.
fn joined(a: &Vec<char>, b: &Vec<char>) -> (v: Vec<char>)
    ensures
        v@ == a@ + b@,
{
    let mut v: Vec<char> = Vec::new();
    let mut i: usize = 0;
    while i < a.len()
        invariant
            i <= a@.len(),
            v@ == a@.take(i as int),
        decreases a@.len() - i,
    {
        v.push(a[i]);
        assert(a@.take(i + 1) =~= a@.take(i as int).push(a@[i as int]));
        i += 1;
    }
    assert(a@.take(a@.len() as int) =~= a@);
    let mut i: usize = 0;
    while i < b.len()
        invariant
            i <= b@.len(),
            v@ == a@ + b@.take(i as int),
        decreases b@.len() - i,
    {
        v.push(b[i]);
        assert(a@ + b@.take(i + 1) =~= (a@ + b@.take(i as int)).push(b@[i as int]));
        i += 1;
    }
    assert(b@.take(b@.len() as int) =~= b@);
    v
}

/// One character.
fn single(c: char) -> (v: Vec<char>)
    ensures
        v@ == seq![c],
{
    let mut v: Vec<char> = Vec::new();
    v.push(c);
    v
}

/// `prefix_and_remainder_extract` with the results as character vectors.
fn split_chars(node: &ASTNode) -> (r: (Vec<char>, Vec<char>))
    requires
        splittable(node@),
    ensures
        r.0@ == tree_split(node@).0,
        r.1@ == tree_split(node@).1,
    decreases node,
{
    match node {
        ASTNode::Terminal(terminal) => {
            let c = *terminal;
            if c == '.' || c == '*' || c == '+' || c == '?' {
                (Vec::new(), single(c))
            } else {
                (single(c), Vec::new())
            }
        },
        ASTNode::NonTerminal { sym, children } => {
            proof {
                lemma_node_view(*node);
                lemma_trees_of(children@);
            }
            if str_eq(sym, "RE") {
                split_chars(&children[0])
            } else if str_eq(sym, "Union") {
                let (prefix1, remainder1) = split_chars(&children[0]);
                let (prefix2, remainder2) = split_chars(&children[2]);
                let (common_prefix, prefix_remainder1, prefix_remainder2) = side_by_side(
                    &prefix1,
                    &prefix2,
                );
                let a = joined(&remainder1, &prefix_remainder1);
                let b = joined(&a, &single('|'));
                let c = joined(&b, &remainder2);
                let remainder = joined(&c, &prefix_remainder2);
                (common_prefix, remainder)
            } else if str_eq(sym, "Concat") {
                let (prefix1, remainder1) = split_chars(&children[0]);
                let (prefix2, remainder2) = split_chars(&children[1]);
                if remainder1.len() == 0 {
                    (joined(&prefix1, &prefix2), remainder2)
                } else {
                    let a = joined(&remainder1, &prefix2);
                    (prefix1, joined(&a, &remainder2))
                }
            } else if str_eq(sym, "Repeat") {
                let op = children[1].unwrap_terminal();
                let (prefix, rest) = split_chars(&children[0]);
                let whole = joined(&prefix, &rest);
                if op == '+' {
                    let remainder = joined(&whole, &single('*'));
                    (prefix, remainder)
                } else {
                    (Vec::new(), joined(&whole, &single(op)))
                }
            } else if str_eq(sym, "Term") {
                if children.len() == 1 {
                    split_chars(&children[0])
                } else {
                    // skip '(' and ')'
                    let (prefix, remainder) = split_chars(&children[1]);
                    if prefix.len() == 0 {
                        let a = joined(&single('('), &remainder);
                        (prefix, joined(&a, &single(')')))
                    } else {
                        let a = joined(&single('('), &prefix);
                        (joined(&a, &single(')')), remainder)
                    }
                }
            } else if str_eq(sym, "Literal") {
                if children.len() == 1 {
                    split_chars(&children[0])
                } else {
                    let c = children[1].unwrap_terminal();
                    if c == 's' || c == 'S' || c == 'd' || c == 'D' || c == 'w' || c == 'W' {
                        let lead = children[0].unwrap_terminal();
                        (Vec::new(), joined(&single(lead), &single(c)))
                    } else {
                        (single(c), Vec::new())
                    }
                }
            } else {
                (Vec::new(), Vec::new())
            }
        },
    }
}

} // verus!
