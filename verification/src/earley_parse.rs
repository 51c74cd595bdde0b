//! Context-free grammars and an Earley parser for them.

use vstd::prelude::*;
use crate::text::{chars_of, str_eq, string_of};
use crate::graph::{count_false, lemma_count_false_update};

verus! {

pub type Terminal = char;

pub type NonTerminal = &'static str;

/// A sequence of `Symbol`s forms the right-hand side of a production.
#[derive(Debug, Clone, Copy, Hash, PartialEq, Eq, PartialOrd, Ord)]
pub enum Symbol {
    Terminal(Terminal),
    NonTerminal(NonTerminal),
}

/// A symbol as a value: a terminal character or the name of a non-terminal.
pub enum Sym {
    T(char),
    N(Seq<char>),
}

impl View for Symbol {
    type V = Sym;

    open spec fn view(&self) -> Sym {
        match self {
            Symbol::Terminal(c) => Sym::T(*c),
            Symbol::NonTerminal(name) => Sym::N(name@),
        }
    }
}

impl Symbol {
    /// The symbol written out: the character of a terminal, the name of a
    /// non-terminal.
    pub fn strval(&self) -> (s: String)
        ensures
            s@ == match self@ {
                Sym::T(c) => seq![c],
                Sym::N(name) => name,
            },
    {
        match self {
            Symbol::Terminal(c) => {
                let mut s = String::new();
                s.push(*c);
                assert(s@ =~= seq![*c]);
                s
            },
            Symbol::NonTerminal(name) => {
                let v = chars_of(name);
                string_of(&v)
            },
        }
    }
}

/// The symbols of a right-hand side as values.
pub open spec fn syms_of(rhs: Seq<Symbol>) -> Seq<Sym> {
    rhs.map_values(|s: Symbol| s@)
}

/// The productions of one non-terminal as values.
pub open spec fn prods_of(body: Seq<Vec<Symbol>>) -> Seq<Seq<Sym>> {
    body.map_values(|rhs: Vec<Symbol>| syms_of(rhs@))
}

/// Convenience function for creating a non-terminal `Symbol`.
pub fn nt(x: NonTerminal) -> (s: Symbol)
    ensures
        s == Symbol::NonTerminal(x),
{
    Symbol::NonTerminal(x)
}

/// Convenience function for creating a terminal `Symbol`.
pub fn tr(x: Terminal) -> (s: Symbol)
    ensures
        s == Symbol::Terminal(x),
{
    Symbol::Terminal(x)
}

/// A grammar as a value: the start symbol's name, and for the name of each
/// non-terminal with a production its right-hand sides, in the order in
/// which they were added.
pub struct Grammar {
    pub start: Seq<char>,
    pub rules: Map<Seq<char>, Seq<Seq<Sym>>>,
}

impl Grammar {
    /// The right-hand sides of `name`: none where it has no production.
    pub open spec fn prods(self, name: Seq<char>) -> Seq<Seq<Sym>> {
        if self.rules.dom().contains(name) {
            self.rules[name]
        } else {
            Seq::empty()
        }
    }

    /// `name -> rhs` is a production.
    pub open spec fn has_rule(self, name: Seq<char>, rhs: Seq<Sym>) -> bool {
        exists|p: int| 0 <= p < self.prods(name).len() && #[trigger] self.prods(name)[p] == rhs
    }

    /// No production has an empty right-hand side.
    pub open spec fn no_empty_rule(self) -> bool {
        forall|name: Seq<char>, p: int|
            0 <= p < self.prods(name).len() ==> (#[trigger] self.prods(name)[p]).len() > 0
    }
}

/// A struct holding production rules for a CFG.
pub struct CFG {
    start: NonTerminal,
    heads: Vec<NonTerminal>,
    bodies: Vec<Vec<Vec<Symbol>>>,
    dummy: Vec<Vec<Symbol>>,
}

/// The position of `name` among `heads`.
pub open spec fn head_index(heads: Seq<NonTerminal>, name: Seq<char>) -> int {
    choose|h: int| 0 <= h < heads.len() && (#[trigger] heads[h])@ == name
}

/// `name` is one of `heads`.
pub open spec fn is_head(heads: Seq<NonTerminal>, name: Seq<char>) -> bool {
    exists|h: int| 0 <= h < heads.len() && (#[trigger] heads[h])@ == name
}

impl View for CFG {
    type V = Grammar;

    closed spec fn view(&self) -> Grammar {
        Grammar {
            start: self.start@,
            rules: Map::new(
                |name: Seq<char>| is_head(self.heads@, name),
                |name: Seq<char>| prods_of(self.bodies@[head_index(self.heads@, name)]@),
            ),
        }
    }
}

impl CFG {
    /// The representation is consistent: one list of productions for each
    /// head, and no head twice.
    pub closed spec fn wf(&self) -> bool {
        &&& self.heads@.len() == self.bodies@.len()
        &&& self.dummy@.len() == 0
        &&& forall|a: int, b: int|
            0 <= a < self.heads@.len() && 0 <= b < self.heads@.len() && (#[trigger] self.heads@[a])@
                == (#[trigger] self.heads@[b])@ ==> a == b
    }

    /// Initialize the CFG with the starting symbol.
    pub fn new(start: NonTerminal) -> (g: CFG)
        ensures
            g.wf(),
            g@.start == start@,
            g@.rules == Map::<Seq<char>, Seq<Seq<Sym>>>::empty(),
    {
        let g = CFG { start, heads: Vec::new(), bodies: Vec::new(), dummy: Vec::new() };
        assert(g@.rules =~= Map::<Seq<char>, Seq<Seq<Sym>>>::empty());
        g
    }

    /// The position of `name` among the heads, if it has a production.
    fn find_head(&self, name: &str) -> (r: Option<usize>)
        requires
            self.wf(),
        ensures
            match r {
                Some(h) => h < self.heads@.len() && self.heads@[h as int]@ == name@,
                None => !is_head(self.heads@, name@),
            },
    {
        let mut h: usize = 0;
        while h < self.heads.len()
            invariant
                h <= self.heads@.len(),
                forall|k: int| 0 <= k < h ==> (#[trigger] self.heads@[k])@ != name@,
            decreases self.heads@.len() - h,
        {
            if str_eq(self.heads[h], name) {
                return Some(h);
            }
            h += 1;
        }
        None
    }

    /// What the representation says of the productions of each head.
    proof fn lemma_view(&self)
        requires
            self.wf(),
        ensures
            forall|h: int|
                0 <= h < self.heads@.len() ==> #[trigger] self@.prods(self.heads@[h]@) == prods_of(
                    self.bodies@[h]@,
                ),
            forall|name: Seq<char>|
                !is_head(self.heads@, name) ==> (#[trigger] self@.prods(name)).len() == 0,
            self@.start == self.start@,
    {
        assert forall|h: int| 0 <= h < self.heads@.len() implies #[trigger] self@.prods(
            self.heads@[h]@,
        ) == prods_of(self.bodies@[h]@) by {
            let name = self.heads@[h]@;
            assert(is_head(self.heads@, name));
            assert(head_index(self.heads@, name) == h);
        }
    }

    /// Adds the production `lhs -> rhs` behind those that `lhs` has.
    pub fn add_rule(&mut self, lhs: NonTerminal, rhs: Vec<Symbol>)
        requires
            old(self).wf(),
        ensures
            final(self).wf(),
            final(self)@.start == old(self)@.start,
            final(self)@.rules == old(self)@.rules.insert(
                lhs@,
                old(self)@.prods(lhs@).push(syms_of(rhs@)),
            ),
            final(self)@.prods(lhs@) == old(self)@.prods(lhs@).push(syms_of(rhs@)),
            forall|name: Seq<char>|
                name != lhs@ ==> #[trigger] final(self)@.prods(name) == old(self)@.prods(name),
    {
        let ghost rhs_syms = syms_of(rhs@);
        proof {
            old(self).lemma_view();
        }
        match self.find_head(lhs) {
            Some(h) => {
                self.bodies[h].push(rhs);
                proof {
                    self.lemma_view();
                    assert(prods_of(self.bodies@[h as int]@) =~= prods_of(
                        old(self).bodies@[h as int]@,
                    ).push(rhs_syms));
                    let goal = old(self)@.rules.insert(lhs@, old(self)@.prods(lhs@).push(rhs_syms));
                    assert forall|name: Seq<char>| #[trigger]
                        self@.rules.dom().contains(name) == goal.dom().contains(name) by {}
                    assert forall|name: Seq<char>| #[trigger]
                        self@.rules.dom().contains(name) implies self@.rules[name] == goal[name] by {
                        let k = head_index(self.heads@, name);
                        if name == lhs@ {
                            assert(k == h);
                        } else {
                            assert(self.bodies@[k] == old(self).bodies@[k]);
                        }
                    }
                    assert(self@.rules =~= goal);
                }
            },
            None => {
                let mut body: Vec<Vec<Symbol>> = Vec::new();
                body.push(rhs);
                self.heads.push(lhs);
                self.bodies.push(body);
                proof {
                    let n = old(self).heads@.len() as int;
                    assert(self.heads@[n]@ == lhs@);
                    assert forall|a: int, b: int|
                        0 <= a < self.heads@.len() && 0 <= b < self.heads@.len() && (
                        #[trigger] self.heads@[a])@ == (#[trigger] self.heads@[b])@ implies a
                        == b by {
                        if a == n && b < n {
                            assert(old(self).heads@[b]@ == lhs@);
                        }
                        if b == n && a < n {
                            assert(old(self).heads@[a]@ == lhs@);
                        }
                    }
                    self.lemma_view();
                    assert(prods_of(self.bodies@[n]@) =~= Seq::<Seq<Sym>>::empty().push(rhs_syms));
                    let goal = old(self)@.rules.insert(lhs@, old(self)@.prods(lhs@).push(rhs_syms));
                    assert forall|name: Seq<char>| #[trigger]
                        self@.rules.dom().contains(name) == goal.dom().contains(name) by {
                        if is_head(self.heads@, name) && name != lhs@ {
                            let k = head_index(self.heads@, name);
                            assert(old(self).heads@[k]@ == name);
                        }
                        if is_head(old(self).heads@, name) {
                            let k = head_index(old(self).heads@, name);
                            assert(self.heads@[k]@ == name);
                        }
                    }
                    assert forall|name: Seq<char>| #[trigger]
                        self@.rules.dom().contains(name) implies self@.rules[name] == goal[name] by {
                        let k = head_index(self.heads@, name);
                        if name == lhs@ {
                            assert(k == n);
                            assert(old(self)@.prods(lhs@) =~= Seq::<Seq<Sym>>::empty());
                        } else {
                            assert(old(self).heads@[k]@ == name);
                            assert(head_index(old(self).heads@, name) == k);
                            assert(self.bodies@[k] == old(self).bodies@[k]);
                        }
                    }
                    assert(self@.rules =~= goal);
                }
            },
        }
    }

    /// The productions of `lhs`, in the order in which they were added.
    pub fn rules(&self, lhs: NonTerminal) -> (r: &[Vec<Symbol>])
        requires
            self.wf(),
        ensures
            prods_of(r@) == self@.prods(lhs@),
    {
        proof {
            self.lemma_view();
        }
        match self.find_head(lhs) {
            Some(h) => self.bodies[h].as_slice(),
            None => {
                assert(prods_of(self.dummy@) =~= Seq::<Seq<Sym>>::empty());
                assert(self@.prods(lhs@) =~= Seq::<Seq<Sym>>::empty());
                self.dummy.as_slice()
            },
        }
    }
}

/// A parse tree.
#[derive(Debug)]
pub enum ASTNode {
    Terminal(Terminal),
    NonTerminal { sym: NonTerminal, children: Vec<ASTNode> },
}

/// A parse tree as a value.
pub enum Tree {
    Leaf(char),
    Node(Seq<char>, Seq<Tree>),
}

impl View for ASTNode {
    type V = Tree;

    open spec fn view(&self) -> Tree {
        tree_of(*self)
    }
}

/// The tree that `t` stands for.
pub open spec fn tree_of(t: ASTNode) -> Tree
    decreases t, 0nat,
{
    match t {
        ASTNode::Terminal(c) => Tree::Leaf(c),
        ASTNode::NonTerminal { sym, children } => Tree::Node(
            sym@,
            trees_upto(children@, children@.len()),
        ),
    }
}

/// The trees that the first `n` of `cs` stand for.
pub open spec fn trees_upto(cs: Seq<ASTNode>, n: nat) -> Seq<Tree>
    decreases cs, n,
{
    if n == 0 || n > cs.len() {
        Seq::empty()
    } else {
        trees_upto(cs, (n - 1) as nat).push(tree_of(cs[n - 1]))
    }
}

/// The trees that `cs` stand for.
pub open spec fn trees_of(cs: Seq<ASTNode>) -> Seq<Tree> {
    trees_upto(cs, cs.len())
}

pub proof fn lemma_trees_upto(cs: Seq<ASTNode>, n: nat)
    requires
        n <= cs.len(),
    ensures
        trees_upto(cs, n).len() == n,
        forall|i: int| 0 <= i < n ==> (#[trigger] trees_upto(cs, n)[i]) == cs[i]@,
    decreases n,
{
    if n > 0 {
        lemma_trees_upto(cs, (n - 1) as nat);
    }
}

/// The trees of a list are those of its elements.
pub proof fn lemma_trees_of(cs: Seq<ASTNode>)
    ensures
        trees_of(cs).len() == cs.len(),
        forall|i: int| 0 <= i < cs.len() ==> (#[trigger] trees_of(cs)[i]) == cs[i]@,
{
    lemma_trees_upto(cs, cs.len());
}

/// The tree of an inner node holds its name and the trees of its children.
pub proof fn lemma_node_view(t: ASTNode)
    requires
        t is NonTerminal,
    ensures
        t@ == Tree::Node(t->sym@, trees_of(t->children@)),
        forall|i: int|
            0 <= i < t->children@.len() ==> decreases_to!(t => #[trigger] t->children@[i]),
{
}

/// The root symbols of `ts`.
pub open spec fn roots(ts: Seq<Tree>) -> Seq<Sym> {
    ts.map_values(|t: Tree| t.root())
}

impl Tree {
    /// The symbol at the root.
    pub open spec fn root(self) -> Sym {
        match self {
            Tree::Leaf(c) => Sym::T(c),
            Tree::Node(name, _) => Sym::N(name),
        }
    }

    /// The terminals of the tree from left to right.
    pub open spec fn fringe(self) -> Seq<char>
        decreases self, 0nat,
    {
        match self {
            Tree::Leaf(c) => seq![c],
            Tree::Node(_, kids) => Tree::fringe_all(kids),
        }
    }

    /// The terminals of the trees of `ts`, from left to right.
    pub open spec fn fringe_all(ts: Seq<Tree>) -> Seq<char>
        decreases ts, ts.len(),
    {
        if ts.len() == 0 {
            Seq::empty()
        } else {
            Tree::fringe_all(ts.drop_last()) + ts.last().fringe()
        }
    }

    /// Every inner node applies a production of `g`.
    pub open spec fn derives(self, g: Grammar) -> bool
        decreases self,
    {
        match self {
            Tree::Leaf(_) => true,
            Tree::Node(name, kids) => g.has_rule(name, roots(kids)) && forall|i: int|
                0 <= i < kids.len() ==> (#[trigger] kids[i]).derives(g),
        }
    }

    /// The tree in which every node with a single child is replaced by
    /// that child.
    pub open spec fn collapsed(self) -> Tree
        decreases self,
    {
        match self {
            Tree::Leaf(_) => self,
            Tree::Node(name, kids) => if kids.len() == 1 {
                kids[0].collapsed()
            } else {
                Tree::Node(
                    name,
                    Seq::new(
                        kids.len(),
                        |i: int|
                            if 0 <= i < kids.len() {
                                kids[i].collapsed()
                            } else {
                                Tree::Leaf(' ')
                            },
                    ),
                )
            },
        }
    }

    /// No inner node has a single child.
    pub open spec fn no_single_child(self) -> bool
        decreases self,
    {
        match self {
            Tree::Leaf(_) => true,
            Tree::Node(_, kids) => kids.len() != 1 && forall|i: int|
                0 <= i < kids.len() ==> (#[trigger] kids[i]).no_single_child(),
        }
    }

    /// What `collapsed` makes of an inner node.
    pub proof fn lemma_collapsed_node(name: Seq<char>, kids: Seq<Tree>)
        ensures
            kids.len() == 1 ==> Tree::Node(name, kids).collapsed() == kids[0].collapsed(),
            kids.len() != 1 ==> Tree::Node(name, kids).collapsed() is Node && Tree::Node(
                name,
                kids,
            ).collapsed()->Node_0 == name && Tree::Node(name, kids).collapsed()->Node_1.len()
                == kids.len() && forall|i: int|
                0 <= i < kids.len() ==> (#[trigger] Tree::Node(name, kids).collapsed()->Node_1[i])
                    == kids[i].collapsed(),
    {
    }

    /// The fringe of a list of trees with one more tree behind it.
    pub proof fn lemma_fringe_push(ts: Seq<Tree>, t: Tree)
        ensures
            Tree::fringe_all(ts.push(t)) == Tree::fringe_all(ts) + t.fringe(),
    {
        assert(ts.push(t).drop_last() =~= ts);
    }

    /// Two lists of trees with the same fringes, tree by tree, have the
    /// same fringe.
    pub proof fn lemma_fringe_all_same(a: Seq<Tree>, b: Seq<Tree>)
        requires
            a.len() == b.len(),
            forall|i: int| 0 <= i < a.len() ==> (#[trigger] a[i]).fringe() == b[i].fringe(),
        ensures
            Tree::fringe_all(a) == Tree::fringe_all(b),
        decreases a.len(),
    {
        if a.len() > 0 {
            Tree::lemma_fringe_all_same(a.drop_last(), b.drop_last());
        }
    }

    /// Collapsing a tree keeps its fringe, and leaves no node with a
    /// single child.
    pub proof fn lemma_collapsed(self)
        ensures
            self.collapsed().fringe() == self.fringe(),
            self.collapsed().no_single_child(),
        decreases self,
    {
        match self {
            Tree::Leaf(_) => {},
            Tree::Node(name, kids) => {
                Tree::lemma_collapsed_node(name, kids);
                if kids.len() == 1 {
                    kids[0].lemma_collapsed();
                    assert(kids.drop_last() =~= Seq::<Tree>::empty());
                    assert(Tree::fringe_all(kids) =~= Tree::fringe_all(kids.drop_last())
                        + kids.last().fringe());
                    assert(Tree::fringe_all(kids.drop_last()) =~= Seq::<char>::empty());
                    assert(Tree::fringe_all(kids) =~= kids[0].fringe());
                } else {
                    let ck = self.collapsed()->Node_1;
                    assert forall|i: int| 0 <= i < kids.len() implies (#[trigger] ck[i]).fringe()
                        == kids[i].fringe() && ck[i].no_single_child() by {
                        kids[i].lemma_collapsed();
                    }
                    Tree::lemma_fringe_all_same(ck, kids);
                }
            },
        }
    }
}

impl ASTNode {
    /// The character of a leaf.
    pub fn unwrap_terminal(&self) -> (c: Terminal)
        requires
            self is Terminal,
        ensures
            self@ == Tree::Leaf(c),
    {
        match self {
            ASTNode::Terminal(c) => *c,
            ASTNode::NonTerminal { .. } => ' ',
        }
    }

    /// Collapse the parse tree.
    /// Returns a tree where no non-terminal node has a single child.
    pub fn collapse(self) -> (r: ASTNode)
        ensures
            r@ == self@.collapsed(),
            r@.no_single_child(),
            r@.fringe() == self@.fringe(),
        decreases self,
    {
        proof {
            self@.lemma_collapsed();
            if self is NonTerminal {
                lemma_node_view(self);
                lemma_trees_of(self->children@);
                Tree::lemma_collapsed_node(self@->Node_0, self@->Node_1);
            }
        }
        match self {
            ASTNode::Terminal(c) => ASTNode::Terminal(c),
            ASTNode::NonTerminal { sym, mut children } => {
                let ghost orig = children@;
                let n = children.len();
                if n == 1 {
                    let c = children.pop().unwrap();
                    assert(c == orig[0]);
                    c.collapse()
                } else {
                    // Move the children out back to front, then restore the order.
                    let mut rev: Vec<ASTNode> = Vec::new();
                    while children.len() > 0
                        invariant
                            children@.len() + rev@.len() == n,
                            n == orig.len(),
                            forall|j: int| 0 <= j < children@.len() ==> children@[j] == orig[j],
                            forall|j: int|
                                0 <= j < rev@.len() ==> (#[trigger] rev@[j])@ == orig[n - 1
                                    - j]@.collapsed(),
                            forall|j: int|
                                0 <= j < orig.len() ==> decreases_to!(self => #[trigger] orig[j]),
                        decreases children@.len(),
                    {
                        let c = children.pop().unwrap();
                        assert(c == orig[children@.len() as int]);
                        assert(decreases_to!(self => c));
                        rev.push(c.collapse());
                    }
                    let mut out: Vec<ASTNode> = Vec::new();
                    while rev.len() > 0
                        invariant
                            out@.len() + rev@.len() == n,
                            n == orig.len(),
                            forall|j: int|
                                0 <= j < rev@.len() ==> (#[trigger] rev@[j])@ == orig[n - 1
                                    - j]@.collapsed(),
                            forall|j: int|
                                0 <= j < out@.len() ==> (#[trigger] out@[j])@
                                    == orig[j]@.collapsed(),
                        decreases rev@.len(),
                    {
                        let c = rev.pop().unwrap();
                        out.push(c);
                    }
                    let r = ASTNode::NonTerminal { sym, children: out };
                    proof {
                        lemma_node_view(r);
                        lemma_trees_of(out@);
                        assert(r@->Node_1 =~= self@.collapsed()->Node_1);
                    }
                    r
                }
            },
        }
    }
}

/// A production with a dot in its right-hand side.
#[derive(Clone, Copy)]
struct Dotted {
    head: usize,
    prod: usize,
    dot: usize,
}

/// An Earley item: a dotted production, by its number, and the position at
/// which it was predicted. Where the dot has moved, `left_pos` and
/// `left_idx` say where the item stands from which it moved, and, where it
/// moved over a non-terminal, `right_idx` gives the completed item in the
/// same set.
#[derive(Clone, Copy)]
struct Item {
    code: usize,
    origin: usize,
    left_pos: usize,
    left_idx: usize,
    right_idx: usize,
}

spec fn rhs_of(bodies: Seq<Vec<Vec<Symbol>>>, d: Dotted) -> Seq<Symbol> {
    bodies[d.head as int]@[d.prod as int]@
}

/// Every dotted production has a place in the table, next to the one with
/// the dot one further.
spec fn dotted_ok(bodies: Seq<Vec<Vec<Symbol>>>, dotted: Seq<Dotted>) -> bool {
    forall|c: int| 0 <= c < dotted.len() ==> #[trigger] dotted_at_ok(bodies, dotted, c)
}

/// The dotted production with number `c` is one of the grammar, and its
/// neighbours in the table have the dot one place to either side.
spec fn dotted_at_ok(bodies: Seq<Vec<Vec<Symbol>>>, dotted: Seq<Dotted>, c: int) -> bool {
    let d = dotted[c];
    &&& d.head < bodies.len()
    &&& d.prod < bodies[d.head as int]@.len()
    &&& d.dot <= rhs_of(bodies, d).len()
    &&& (d.dot > 0 ==> c >= 1 && dotted[c - 1].head == d.head && dotted[c - 1].prod == d.prod
        && dotted[c - 1].dot == d.dot - 1)
    &&& (d.dot < rhs_of(bodies, d).len() ==> c + 1 < dotted.len() && dotted[c + 1].head == d.head
        && dotted[c + 1].prod == d.prod && dotted[c + 1].dot == d.dot + 1)
}

/// `offsets` gives for every production the number of its first dotted
/// form.
spec fn offsets_ok(
    bodies: Seq<Vec<Vec<Symbol>>>,
    dotted: Seq<Dotted>,
    offsets: Seq<Vec<usize>>,
) -> bool {
    &&& offsets.len() == bodies.len()
    &&& forall|h: int| 0 <= h < bodies.len() ==> (#[trigger] offsets[h])@.len() == bodies[h]@.len()
    &&& forall|h: int, p: int|
        0 <= h < bodies.len() && 0 <= p < bodies[h]@.len() ==> (#[trigger] offsets[h]@[p])
            < dotted.len() && dotted[offsets[h]@[p] as int].head == h
            && dotted[offsets[h]@[p] as int].prod == p && dotted[offsets[h]@[p] as int].dot == 0
}

/// `b` holds the items of `a` at their places, and maybe more behind them.
spec fn extends(a: Seq<Seq<Item>>, b: Seq<Seq<Item>>) -> bool {
    &&& a.len() == b.len()
    &&& forall|j: int| 0 <= j < a.len() ==> (#[trigger] a[j]).len() <= b[j].len()
    &&& forall|j: int, l: int|
        0 <= j < a.len() && 0 <= l < a[j].len() ==> (#[trigger] b[j][l]) == a[j][l]
}

/// The item at `idx` of set `pos` is what the input, the grammar and the
/// items that it points to allow.
spec fn item_ok(
    heads: Seq<NonTerminal>,
    bodies: Seq<Vec<Vec<Symbol>>>,
    dotted: Seq<Dotted>,
    input: Seq<char>,
    chart: Seq<Seq<Item>>,
    pos: int,
    idx: int,
) -> bool {
    let it = chart[pos][idx];
    let d = dotted[it.code as int];
    let rhs = rhs_of(bodies, d);
    &&& it.code < dotted.len()
    &&& it.origin <= pos
    &&& (d.dot == 0 ==> it.origin == pos)
    &&& (d.dot > 0 ==> match rhs[d.dot - 1] {
        Symbol::Terminal(c) => {
            &&& pos >= 1
            &&& input[pos - 1] == c
            &&& it.left_pos == pos - 1
            &&& it.left_idx < chart[pos - 1].len()
            &&& chart[pos - 1][it.left_idx as int].code == it.code - 1
            &&& chart[pos - 1][it.left_idx as int].origin == it.origin
        },
        Symbol::NonTerminal(name) => {
            let r = chart[pos][it.right_idx as int];
            let rd = dotted[r.code as int];
            &&& it.right_idx < idx
            &&& rd.dot == rhs_of(bodies, rd).len()
            &&& heads[rd.head as int]@ == name@
            &&& it.left_pos == r.origin
            &&& it.left_pos <= pos
            &&& (it.left_pos < pos || it.left_idx < idx)
            &&& it.left_idx < chart[it.left_pos as int].len()
            &&& chart[it.left_pos as int][it.left_idx as int].code == it.code - 1
            &&& chart[it.left_pos as int][it.left_idx as int].origin == it.origin
        },
    })
}

spec fn chart_ok(
    heads: Seq<NonTerminal>,
    bodies: Seq<Vec<Vec<Symbol>>>,
    dotted: Seq<Dotted>,
    input: Seq<char>,
    chart: Seq<Seq<Item>>,
) -> bool {
    &&& chart.len() == input.len() + 1
    &&& forall|pos: int, idx: int|
        0 <= pos < chart.len() && 0 <= idx < chart[pos].len() ==> #[trigger] item_ok(
            heads,
            bodies,
            dotted,
            input,
            chart,
            pos,
            idx,
        )
}

/// Items stay what they are allowed to be when more items are added
/// behind them.
proof fn lemma_chart_grows(
    heads: Seq<NonTerminal>,
    bodies: Seq<Vec<Vec<Symbol>>>,
    dotted: Seq<Dotted>,
    input: Seq<char>,
    a: Seq<Seq<Item>>,
    b: Seq<Seq<Item>>,
    at: int,
)
    requires
        chart_ok(heads, bodies, dotted, input, a),
        extends(a, b),
        0 <= at < a.len(),
        forall|j: int| 0 <= j < a.len() && j != at ==> (#[trigger] b[j]).len() == a[j].len(),
        b[at].len() <= a[at].len() + 1,
        b[at].len() == a[at].len() + 1 ==> item_ok(
            heads,
            bodies,
            dotted,
            input,
            b,
            at,
            a[at].len() as int,
        ),
    ensures
        chart_ok(heads, bodies, dotted, input, b),
{
    assert forall|pos: int, idx: int|
        0 <= pos < b.len() && 0 <= idx < b[pos].len() implies #[trigger] item_ok(
        heads,
        bodies,
        dotted,
        input,
        b,
        pos,
        idx,
    ) by {
        if idx < a[pos].len() {
            assert(item_ok(heads, bodies, dotted, input, a, pos, idx));
            let it = a[pos][idx];
            assert(b[pos][idx] == it);
            let d = dotted[it.code as int];
            if d.dot > 0 {
                match rhs_of(bodies, d)[d.dot - 1] {
                    Symbol::Terminal(c) => {
                        assert(b[pos - 1][it.left_idx as int] == a[pos - 1][it.left_idx as int]);
                    },
                    Symbol::NonTerminal(name) => {
                        assert(b[pos][it.right_idx as int] == a[pos][it.right_idx as int]);
                        assert(b[it.left_pos as int][it.left_idx as int] == a[it.left_pos as int][it.left_idx as int]);
                    },
                }
            }
        }
    }
}

/// The sets of the chart as sequences.
spec fn rows_of(chart: Seq<Vec<Item>>) -> Seq<Seq<Item>> {
    chart.map_values(|v: Vec<Item>| v@)
}

/// `ts` are parse trees for the symbols before the dot of `d`, over the
/// input from `origin` to `pos`.
spec fn kids_ok(
    g: Grammar,
    bodies: Seq<Vec<Vec<Symbol>>>,
    input: Seq<char>,
    d: Dotted,
    origin: int,
    pos: int,
    ts: Seq<Tree>,
) -> bool {
    &&& ts.len() == d.dot
    &&& roots(ts) == syms_of(rhs_of(bodies, d).take(d.dot as int))
    &&& forall|k: int| 0 <= k < ts.len() ==> (#[trigger] ts[k]).derives(g)
    &&& 0 <= origin <= pos <= input.len()
    &&& Tree::fringe_all(ts) == input.subrange(origin, pos)
}

/// The trees of a list with one more element behind it.
proof fn lemma_trees_push(cs: Seq<ASTNode>, t: ASTNode)
    ensures
        trees_of(cs.push(t)) == trees_of(cs).push(t@),
{
    lemma_trees_of(cs.push(t));
    lemma_trees_of(cs);
    assert(trees_of(cs.push(t)) =~= trees_of(cs).push(t@));
}

impl CFG {
    /// Numbers the dotted productions.
    fn dotted_rules(&self) -> (r: (Vec<Dotted>, Vec<Vec<usize>>))
        requires
            self.wf(),
        ensures
            dotted_ok(self.bodies@, r.0@),
            offsets_ok(self.bodies@, r.0@, r.1@),
    {
        let mut dotted: Vec<Dotted> = Vec::new();
        let mut offsets: Vec<Vec<usize>> = Vec::new();
        let mut h: usize = 0;
        while h < self.bodies.len()
            invariant
                h <= self.bodies@.len(),
                dotted_ok(self.bodies@, dotted@),
                offsets@.len() == h,
                forall|x: int| 0 <= x < h ==> (#[trigger] offsets@[x])@.len() == self.bodies@[x]@.len(),
                forall|x: int, p: int|
                    0 <= x < h && 0 <= p < self.bodies@[x]@.len() ==> (#[trigger] offsets@[x]@[p])
                        < dotted@.len() && dotted@[offsets@[x]@[p] as int].head == x
                        && dotted@[offsets@[x]@[p] as int].prod == p
                        && dotted@[offsets@[x]@[p] as int].dot == 0,
            decreases self.bodies@.len() - h,
        {
            let mut row: Vec<usize> = Vec::new();
            let mut p: usize = 0;
            while p < self.bodies[h].len()
                invariant
                    h < self.bodies@.len(),
                    p <= self.bodies@[h as int]@.len(),
                    dotted_ok(self.bodies@, dotted@),
                    row@.len() == p,
                    offsets@.len() == h,
                    forall|x: int, y: int|
                        0 <= x < h && 0 <= y < self.bodies@[x]@.len() ==> (
                        #[trigger] offsets@[x]@[y]) < dotted@.len()
                            && dotted@[offsets@[x]@[y] as int].head == x
                            && dotted@[offsets@[x]@[y] as int].prod == y
                            && dotted@[offsets@[x]@[y] as int].dot == 0,
                    forall|y: int|
                        0 <= y < p ==> (#[trigger] row@[y]) < dotted@.len()
                            && dotted@[row@[y] as int].head == h && dotted@[row@[y] as int].prod
                            == y && dotted@[row@[y] as int].dot == 0,
                decreases self.bodies@[h as int]@.len() - p,
            {
                let len = self.bodies[h][p].len();
                let ghost before = dotted@;
                let base = dotted.len();
                row.push(base);
                let mut d: usize = 0;
                while d < len
                    invariant
                        h < self.bodies@.len(),
                        p < self.bodies@[h as int]@.len(),
                        len == self.bodies@[h as int]@[p as int]@.len(),
                        d <= len,
                        base == before.len(),
                        dotted@.len() == base + d,
                        forall|c: int| 0 <= c < base ==> dotted@[c] == before[c],
                        forall|k: int|
                            0 <= k < d ==> (#[trigger] dotted@[base + k]) == (Dotted {
                                head: h,
                                prod: p,
                                dot: k as usize,
                            }),
                    decreases len - d,
                {
                    dotted.push(Dotted { head: h, prod: p, dot: d });
                    d += 1;
                }
                dotted.push(Dotted { head: h, prod: p, dot: len });
                proof {
                    assert forall|c: int| 0 <= c < dotted@.len() implies #[trigger] dotted_at_ok(
                        self.bodies@,
                        dotted@,
                        c,
                    ) by {
                        if c < base {
                            assert(dotted_at_ok(self.bodies@, before, c));
                            assert(dotted@[c] == before[c]);
                            let dd = before[c];
                            if dd.dot > 0 {
                                assert(dotted@[c - 1] == before[c - 1]);
                            }
                            if dd.dot < rhs_of(self.bodies@, dd).len() {
                                assert(dotted@[c + 1] == before[c + 1]);
                            }
                        } else {
                            let k = c - base;
                            assert(dotted@[base + k].dot == k);
                            if k > 0 {
                                assert(dotted@[base + (k - 1)].dot == k - 1);
                            }
                            if k < len {
                                if k + 1 < len {
                                    assert(dotted@[base + (k + 1)].dot == k + 1);
                                }
                            }
                        }
                    }
                    assert(dotted@[row@[p as int] as int] == dotted@[base + 0]);
                }
                p += 1;
            }
            offsets.push(row);
            h += 1;
        }
        (dotted, offsets)
    }
}

/// One more tree behind the trees for the symbols before the dot moves
/// the dot by one symbol.
proof fn lemma_extend_kids(
    g: Grammar,
    bodies: Seq<Vec<Vec<Symbol>>>,
    input: Seq<char>,
    d: Dotted,
    origin: int,
    mid: int,
    pos: int,
    ts: Seq<Tree>,
    t: Tree,
)
    requires
        1 <= d.dot <= rhs_of(bodies, d).len(),
        kids_ok(g, bodies, input, Dotted { dot: (d.dot - 1) as usize, ..d }, origin, mid, ts),
        t.root() == rhs_of(bodies, d)[d.dot - 1]@,
        t.derives(g),
        mid <= pos <= input.len(),
        t.fringe() == input.subrange(mid, pos),
    ensures
        kids_ok(g, bodies, input, d, origin, pos, ts.push(t)),
{
    let rhs = rhs_of(bodies, d);
    let ld = Dotted { dot: (d.dot - 1) as usize, ..d };
    assert(rhs_of(bodies, ld) == rhs);
    assert(roots(ts.push(t)) =~= roots(ts).push(t.root()));
    assert(syms_of(rhs.take(d.dot as int)) =~= syms_of(rhs.take(d.dot - 1)).push(rhs[d.dot - 1]@));
    Tree::lemma_fringe_push(ts, t);
    assert(input.subrange(origin, pos) =~= input.subrange(origin, mid) + input.subrange(mid, pos));
    assert forall|k: int| 0 <= k < ts.push(t).len() implies (#[trigger] ts.push(t)[k]).derives(
        g,
    ) by {
        if k < ts.len() {
            assert(ts.push(t)[k] == ts[k]);
        }
    }
}

/// The trees for a whole right-hand side make a tree for its head.
proof fn lemma_node_derives(
    g: Grammar,
    bodies: Seq<Vec<Vec<Symbol>>>,
    input: Seq<char>,
    d: Dotted,
    name: Seq<char>,
    origin: int,
    pos: int,
    ts: Seq<Tree>,
)
    requires
        d.dot == rhs_of(bodies, d).len(),
        kids_ok(g, bodies, input, d, origin, pos, ts),
        g.prods(name) == prods_of(bodies[d.head as int]@),
        d.prod < bodies[d.head as int]@.len(),
    ensures
        Tree::Node(name, ts).derives(g),
        Tree::Node(name, ts).fringe() == input.subrange(origin, pos),
        Tree::Node(name, ts).root() == Sym::N(name),
{
    let rhs = rhs_of(bodies, d);
    assert(rhs.take(d.dot as int) =~= rhs);
    assert(prods_of(bodies[d.head as int]@)[d.prod as int] == syms_of(rhs));
    assert(g.has_rule(name, roots(ts)));
}

/// The parse trees for the symbols before the dot of the item at `idx` of
/// set `pos`, from left to right.
fn build_kids(
    cfg: &CFG,
    dotted: &Vec<Dotted>,
    chars: &Vec<char>,
    chart: &Vec<Vec<Item>>,
    pos: usize,
    idx: usize,
) -> (kids: Vec<ASTNode>)
    requires
        cfg.wf(),
        dotted_ok(cfg.bodies@, dotted@),
        chart_ok(cfg.heads@, cfg.bodies@, dotted@, chars@, rows_of(chart@)),
        pos < chart@.len(),
        idx < chart@[pos as int]@.len(),
    ensures
        kids_ok(
            cfg@,
            cfg.bodies@,
            chars@,
            dotted@[chart@[pos as int]@[idx as int].code as int],
            chart@[pos as int]@[idx as int].origin as int,
            pos as int,
            trees_of(kids@),
        ),
    decreases pos, idx,
{
    let it = chart[pos][idx];
    assert(item_ok(
        cfg.heads@,
        cfg.bodies@,
        dotted@,
        chars@,
        rows_of(chart@),
        pos as int,
        idx as int,
    ));
    let d = dotted[it.code];
    assert(dotted_at_ok(cfg.bodies@, dotted@, it.code as int));
    let ghost rhs = rhs_of(cfg.bodies@, d);
    if d.dot == 0 {
        let kids: Vec<ASTNode> = Vec::new();
        proof {
            lemma_trees_of(kids@);
            assert(roots(trees_of(kids@)) =~= syms_of(rhs.take(0)));
            assert(chars@.subrange(pos as int, pos as int) =~= Seq::<char>::empty());
        }
        return kids;
    }
    let sym = cfg.bodies[d.head][d.prod][d.dot - 1];
    assert(sym == rhs[d.dot - 1]);
    assert(dotted@[it.code - 1] == Dotted { dot: (d.dot - 1) as usize, ..d });
    assert(dotted_at_ok(cfg.bodies@, dotted@, it.code - 1));
    match sym {
        Symbol::Terminal(c) => {
            let mut kids = build_kids(cfg, dotted, chars, chart, pos - 1, it.left_idx);
            let ghost before = kids@;
            let leaf = ASTNode::Terminal(c);
            kids.push(leaf);
            proof {
                lemma_trees_push(before, leaf);
                assert(leaf@.fringe() =~= chars@.subrange(pos - 1, pos as int));
                lemma_extend_kids(
                    cfg@,
                    cfg.bodies@,
                    chars@,
                    d,
                    it.origin as int,
                    pos - 1,
                    pos as int,
                    trees_of(before),
                    leaf@,
                );
            }
            kids
        },
        Symbol::NonTerminal(name) => {
            let r = chart[pos][it.right_idx];
            assert(item_ok(
                cfg.heads@,
                cfg.bodies@,
                dotted@,
                chars@,
                rows_of(chart@),
                pos as int,
                it.right_idx as int,
            ));
            let rd = dotted[r.code];
            assert(dotted_at_ok(cfg.bodies@, dotted@, r.code as int));
            let sub = build_kids(cfg, dotted, chars, chart, pos, it.right_idx);
            let node = ASTNode::NonTerminal { sym: cfg.heads[rd.head], children: sub };
            let mut kids = build_kids(cfg, dotted, chars, chart, it.left_pos, it.left_idx);
            let ghost before = kids@;
            kids.push(node);
            proof {
                lemma_node_view(node);
                cfg.lemma_view();
                lemma_node_derives(
                    cfg@,
                    cfg.bodies@,
                    chars@,
                    rd,
                    cfg.heads@[rd.head as int]@,
                    r.origin as int,
                    pos as int,
                    trees_of(sub@),
                );
                lemma_trees_push(before, node);
                lemma_extend_kids(
                    cfg@,
                    cfg.bodies@,
                    chars@,
                    d,
                    it.origin as int,
                    r.origin as int,
                    pos as int,
                    trees_of(before),
                    node@,
                );
            }
            kids
        },
    }
}

/// The number of `false` entries of a table.
spec fn count2(t: Seq<Vec<bool>>) -> nat
    decreases t.len(),
{
    if t.len() == 0 {
        0
    } else {
        count2(t.drop_last()) + count_false(t.last()@)
    }
}

/// Replacing a row by one with one `false` entry less lowers the count by
/// one.
proof fn lemma_count2_update(t: Seq<Vec<bool>>, r: int, row: Vec<bool>)
    requires
        0 <= r < t.len(),
        count_false(row@) + 1 == count_false(t[r]@),
    ensures
        count2(t.update(r, row)) + 1 == count2(t),
    decreases t.len(),
{
    let u = t.update(r, row);
    if r == t.len() - 1 {
        assert(u.drop_last() =~= t.drop_last());
    } else {
        lemma_count2_update(t.drop_last(), r, row);
        assert(u.drop_last() =~= t.drop_last().update(r, row));
    }
}

/// The table has a row for every dotted production and in it an entry for
/// every position.
spec fn table_ok(t: Seq<Vec<bool>>, rows: nat, width: nat) -> bool {
    &&& t.len() == rows
    &&& forall|r: int| 0 <= r < rows ==> (#[trigger] t[r])@.len() == width
}

/// A table of `rows` rows of `width` entries, all `false`.
fn blank_table(rows: usize, width: usize) -> (t: Vec<Vec<bool>>)
    ensures
        table_ok(t@, rows as nat, width as nat),
        forall|r: int, x: int| 0 <= r < rows && 0 <= x < width ==> !(#[trigger] t@[r]@[x]),
{
    let mut t: Vec<Vec<bool>> = Vec::new();
    let mut r: usize = 0;
    while r < rows
        invariant
            r <= rows,
            table_ok(t@, r as nat, width as nat),
            forall|y: int, x: int| 0 <= y < r && 0 <= x < width ==> !(#[trigger] t@[y]@[x]),
        decreases rows - r,
    {
        let mut row: Vec<bool> = Vec::new();
        let mut k: usize = 0;
        while k < width
            invariant
                k <= width,
                row@.len() == k,
                forall|x: int| 0 <= x < k ==> !(#[trigger] row@[x]),
            decreases width - k,
        {
            row.push(false);
            k += 1;
        }
        t.push(row);
        r += 1;
    }
    t
}

/// Sets the entry at row `c`, place `o`. Returns whether it was not set
/// before.
fn mark(seen: &mut Vec<Vec<bool>>, c: usize, o: usize) -> (fresh: bool)
    requires
        c < old(seen)@.len(),
        o < old(seen)@[c as int]@.len(),
    ensures
        final(seen)@.len() == old(seen)@.len(),
        forall|r: int|
            0 <= r < old(seen)@.len() ==> (#[trigger] final(seen)@[r])@.len() == old(
                seen,
            )@[r]@.len(),
        fresh ==> count2(final(seen)@) + 1 == count2(old(seen)@),
        !fresh ==> count2(final(seen)@) == count2(old(seen)@),
        fresh == !old(seen)@[c as int]@[o as int],
        !fresh ==> final(seen)@ == old(seen)@,
        final(seen)@[c as int]@[o as int],
        forall|r: int, x: int|
            0 <= r < old(seen)@.len() && 0 <= x < old(seen)@[r]@.len() && !(r == c && x == o)
                ==> (#[trigger] final(seen)@[r]@[x]) == old(seen)@[r]@[x],
{
    if seen[c][o] {
        return false;
    }
    seen[c].set(o, true);
    proof {
        lemma_count_false_update(old(seen)@[c as int]@, o as int);
        assert(seen@ =~= old(seen)@.update(c as int, seen@[c as int]));
        lemma_count2_update(old(seen)@, c as int, seen@[c as int]);
    }
    true
}

/// What the parser keeps true of its data while it runs.
spec fn parser_ok(
    cfg: &CFG,
    dotted: Seq<Dotted>,
    offsets: Seq<Vec<usize>>,
    input: Seq<char>,
    chart: Seq<Vec<Item>>,
) -> bool {
    &&& cfg.wf()
    &&& dotted_ok(cfg.bodies@, dotted)
    &&& offsets_ok(cfg.bodies@, dotted, offsets)
    &&& chart_ok(cfg.heads@, cfg.bodies@, dotted, input, rows_of(chart))
}

/// Only set `at` of `new` differs from `old`, and only by items added
/// behind.
spec fn grew_at(old_chart: Seq<Vec<Item>>, new_chart: Seq<Vec<Item>>, at: int) -> bool {
    &&& extends(rows_of(old_chart), rows_of(new_chart))
    &&& forall|j: int|
        0 <= j < old_chart.len() && j != at ==> (#[trigger] new_chart[j])@.len()
            == old_chart[j]@.len()
}

/// Growing twice is growing.
proof fn lemma_grew_twice(a: Seq<Vec<Item>>, b: Seq<Vec<Item>>, c: Seq<Vec<Item>>, at: int)
    requires
        grew_at(a, b, at),
        grew_at(b, c, at),
    ensures
        grew_at(a, c, at),
{
    let ra = rows_of(a);
    let rb = rows_of(b);
    let rc = rows_of(c);
    assert forall|j: int| 0 <= j < ra.len() implies (#[trigger] ra[j]).len() <= rc[j].len() by {
        assert(ra[j].len() <= rb[j].len());
        assert(rb[j].len() <= rc[j].len());
    }
    assert forall|j: int, l: int| 0 <= j < ra.len() && 0 <= l < ra[j].len() implies (
    #[trigger] rc[j][l]) == ra[j][l] by {
        assert(ra[j].len() <= rb[j].len());
        assert(rb[j][l] == ra[j][l]);
    }
    assert forall|j: int| 0 <= j < a.len() && j != at implies (#[trigger] c[j])@.len()
        == a[j]@.len() by {
        assert(b[j]@.len() == a[j]@.len());
    }
}

/// Nothing grows where nothing changes.
proof fn lemma_grew_none(a: Seq<Vec<Item>>, at: int)
    ensures
        grew_at(a, a, at),
{
}

/// Adds `item` to set `at`.
fn add_item(
    cfg: &CFG,
    dotted: &Vec<Dotted>,
    chars: &Vec<char>,
    chart: &mut Vec<Vec<Item>>,
    at: usize,
    item: Item,
)
    requires
        chart_ok(cfg.heads@, cfg.bodies@, dotted@, chars@, rows_of(old(chart)@)),
        at < old(chart)@.len(),
        item_ok(
            cfg.heads@,
            cfg.bodies@,
            dotted@,
            chars@,
            rows_of(old(chart)@).update(at as int, old(chart)@[at as int]@.push(item)),
            at as int,
            old(chart)@[at as int]@.len() as int,
        ),
    ensures
        chart_ok(cfg.heads@, cfg.bodies@, dotted@, chars@, rows_of(final(chart)@)),
        grew_at(old(chart)@, final(chart)@, at as int),
        final(chart)@.len() == old(chart)@.len(),
        final(chart)@[at as int]@ == old(chart)@[at as int]@.push(item),
{
    chart[at].push(item);
    proof {
        let a = rows_of(old(chart)@);
        let b = rows_of(chart@);
        assert(b =~= a.update(at as int, old(chart)@[at as int]@.push(item)));
        lemma_chart_grows(cfg.heads@, cfg.bodies@, dotted@, chars@, a, b, at as int);
    }
}

/// Set `pos` holds the item with the dotted production `c` and the
/// origin `o`.
spec fn has_item(rows: Seq<Seq<Item>>, pos: int, c: int, o: int) -> bool {
    exists|idx: int|
        0 <= idx < rows[pos].len() && (#[trigger] rows[pos][idx]).code == c && rows[pos][idx].origin
            == o
}

/// What the table marks is in set `pos`.
spec fn seen_sound(seen: Seq<Vec<bool>>, rows: Seq<Seq<Item>>, pos: int) -> bool {
    forall|c: int, o: int|
        0 <= c < seen.len() && 0 <= o < seen[c]@.len() && (#[trigger] seen[c]@[o]) ==> has_item(
            rows,
            pos,
            c,
            o,
        )
}

/// What a set holds it still holds when the chart has grown.
proof fn lemma_has_item_grows(a: Seq<Seq<Item>>, b: Seq<Seq<Item>>, pos: int, c: int, o: int)
    requires
        extends(a, b),
        0 <= pos < a.len(),
        has_item(a, pos, c, o),
    ensures
        has_item(b, pos, c, o),
{
    let idx = choose|idx: int|
        0 <= idx < a[pos].len() && (#[trigger] a[pos][idx]).code == c && a[pos][idx].origin == o;
    assert(a[pos].len() <= b[pos].len());
    assert(b[pos][idx] == a[pos][idx]);
}

/// What the table marks is still in the set when the chart has grown.
proof fn lemma_seen_grows(seen: Seq<Vec<bool>>, a: Seq<Seq<Item>>, b: Seq<Seq<Item>>, pos: int)
    requires
        extends(a, b),
        0 <= pos < a.len(),
        seen_sound(seen, a, pos),
    ensures
        seen_sound(seen, b, pos),
{
    assert forall|c: int, o: int|
        0 <= c < seen.len() && 0 <= o < seen[c]@.len() && (#[trigger] seen[c]@[o]) implies has_item(
        b,
        pos,
        c,
        o,
    ) by {
        lemma_has_item_grows(a, b, pos, c, o);
    }
}

/// Marks the item in the table of set `at` and adds it to the set, unless
/// the table has it.
fn insert(
    cfg: &CFG,
    dotted: &Vec<Dotted>,
    chars: &Vec<char>,
    chart: &mut Vec<Vec<Item>>,
    seen: &mut Vec<Vec<bool>>,
    at: usize,
    item: Item,
)
    requires
        chart_ok(cfg.heads@, cfg.bodies@, dotted@, chars@, rows_of(old(chart)@)),
        table_ok(old(seen)@, dotted@.len(), old(chart)@.len()),
        seen_sound(old(seen)@, rows_of(old(chart)@), at as int),
        at < old(chart)@.len(),
        item.code < dotted@.len(),
        item.origin < old(chart)@.len(),
        item_ok(
            cfg.heads@,
            cfg.bodies@,
            dotted@,
            chars@,
            rows_of(old(chart)@).update(at as int, old(chart)@[at as int]@.push(item)),
            at as int,
            old(chart)@[at as int]@.len() as int,
        ),
    ensures
        chart_ok(cfg.heads@, cfg.bodies@, dotted@, chars@, rows_of(final(chart)@)),
        table_ok(final(seen)@, dotted@.len(), final(chart)@.len()),
        seen_sound(final(seen)@, rows_of(final(chart)@), at as int),
        grew_at(old(chart)@, final(chart)@, at as int),
        final(chart)@.len() == old(chart)@.len(),
        has_item(rows_of(final(chart)@), at as int, item.code as int, item.origin as int),
        count2(final(seen)@) + final(chart)@[at as int]@.len() == count2(old(seen)@) + old(
            chart,
        )@[at as int]@.len(),
{
    let ghost rows0 = rows_of(chart@);
    if mark(seen, item.code, item.origin) {
        add_item(cfg, dotted, chars, chart, at, item);
        proof {
            let rows1 = rows_of(chart@);
            let last = old(chart)@[at as int]@.len() as int;
            assert(rows1[at as int][last] == item);
            assert(has_item(rows1, at as int, item.code as int, item.origin as int));
            assert forall|c: int, o: int|
                0 <= c < seen@.len() && 0 <= o < seen@[c]@.len() && (
                #[trigger] seen@[c]@[o]) implies has_item(rows1, at as int, c, o) by {
                if !(c == item.code && o == item.origin) {
                    assert(old(seen)@[c]@[o]);
                    lemma_has_item_grows(rows0, rows1, at as int, c, o);
                }
            }
        }
    } else {
        proof {
            lemma_grew_none(chart@, at as int);
        }
    }
}

/// The item waits for the non-terminal `name`: its dot stands before it.
spec fn waits_for(
    bodies: Seq<Vec<Vec<Symbol>>>,
    dotted: Seq<Dotted>,
    item: Item,
    name: Seq<char>,
) -> bool {
    let d = dotted[item.code as int];
    d.dot < rhs_of(bodies, d).len() && rhs_of(bodies, d)[d.dot as int]@ == Sym::N(name)
}

/// Prediction: every production of head `h` is added to set `i` with the
/// dot in front, unless it is there.
fn predict(
    cfg: &CFG,
    dotted: &Vec<Dotted>,
    offsets: &Vec<Vec<usize>>,
    chars: &Vec<char>,
    chart: &mut Vec<Vec<Item>>,
    seen: &mut Vec<Vec<bool>>,
    i: usize,
    h: usize,
)
    requires
        parser_ok(cfg, dotted@, offsets@, chars@, old(chart)@),
        table_ok(old(seen)@, dotted@.len(), old(chart)@.len()),
        seen_sound(old(seen)@, rows_of(old(chart)@), i as int),
        i < old(chart)@.len(),
        h < cfg.bodies@.len(),
    ensures
        parser_ok(cfg, dotted@, offsets@, chars@, final(chart)@),
        table_ok(final(seen)@, dotted@.len(), final(chart)@.len()),
        seen_sound(final(seen)@, rows_of(final(chart)@), i as int),
        final(chart)@.len() == old(chart)@.len(),
        grew_at(old(chart)@, final(chart)@, i as int),
        count2(final(seen)@) + final(chart)@[i as int]@.len() == count2(old(seen)@) + old(
            chart,
        )@[i as int]@.len(),
        forall|p: int|
            0 <= p < cfg.bodies@[h as int]@.len() ==> has_item(
                rows_of(final(chart)@),
                i as int,
                (#[trigger] offsets@[h as int]@[p]) as int,
                i as int,
            ),
{
    let np = cfg.bodies[h].len();
    let mut p: usize = 0;
    proof {
        lemma_grew_none(chart@, i as int);
    }
    while p < np
        invariant
            p <= np,
            np == cfg.bodies@[h as int]@.len(),
            h < cfg.bodies@.len(),
            i < chart@.len(),
            parser_ok(cfg, dotted@, offsets@, chars@, chart@),
            table_ok(seen@, dotted@.len(), chart@.len()),
            seen_sound(seen@, rows_of(chart@), i as int),
            chart@.len() == old(chart)@.len(),
            grew_at(old(chart)@, chart@, i as int),
            count2(seen@) + chart@[i as int]@.len() == count2(old(seen)@) + old(
                chart,
            )@[i as int]@.len(),
            forall|y: int|
                0 <= y < p ==> has_item(
                    rows_of(chart@),
                    i as int,
                    (#[trigger] offsets@[h as int]@[y]) as int,
                    i as int,
                ),
        decreases np - p,
    {
        let code = offsets[h][p];
        assert(offsets@[h as int]@[p as int] < dotted@.len());
        let item = Item { code, origin: i, left_pos: 0, left_idx: 0, right_idx: 0 };
        let ghost before = chart@;
        proof {
            let grown = rows_of(before).update(i as int, before[i as int]@.push(item));
            assert(grown[i as int][before[i as int]@.len() as int] == item);
        }
        insert(cfg, dotted, chars, chart, seen, i, item);
        proof {
            lemma_grew_twice(old(chart)@, before, chart@, i as int);
            assert forall|y: int| 0 <= y < p implies has_item(
                rows_of(chart@),
                i as int,
                (#[trigger] offsets@[h as int]@[y]) as int,
                i as int,
            ) by {
                lemma_has_item_grows(
                    rows_of(before),
                    rows_of(chart@),
                    i as int,
                    offsets@[h as int]@[y] as int,
                    i as int,
                );
            }
        }
        p += 1;
    }
}

/// Completion: the item at `q` of set `i` has the dot at its end, so every
/// item of the set where it began that waits for its head moves on, into
/// set `i`.
fn complete(
    cfg: &CFG,
    dotted: &Vec<Dotted>,
    offsets: &Vec<Vec<usize>>,
    chars: &Vec<char>,
    chart: &mut Vec<Vec<Item>>,
    seen: &mut Vec<Vec<bool>>,
    i: usize,
    q: usize,
)
    requires
        parser_ok(cfg, dotted@, offsets@, chars@, old(chart)@),
        table_ok(old(seen)@, dotted@.len(), old(chart)@.len()),
        seen_sound(old(seen)@, rows_of(old(chart)@), i as int),
        i < old(chart)@.len(),
        q < old(chart)@[i as int]@.len(),
        old(chart)@[i as int]@[q as int].code < dotted@.len(),
        dotted@[old(chart)@[i as int]@[q as int].code as int].dot == rhs_of(
            cfg.bodies@,
            dotted@[old(chart)@[i as int]@[q as int].code as int],
        ).len(),
    ensures
        parser_ok(cfg, dotted@, offsets@, chars@, final(chart)@),
        table_ok(final(seen)@, dotted@.len(), final(chart)@.len()),
        seen_sound(final(seen)@, rows_of(final(chart)@), i as int),
        final(chart)@.len() == old(chart)@.len(),
        grew_at(old(chart)@, final(chart)@, i as int),
        count2(final(seen)@) + final(chart)@[i as int]@.len() == count2(old(seen)@) + old(
            chart,
        )@[i as int]@.len(),
        forall|l: int|
            0 <= l < old(chart)@[old(chart)@[i as int]@[q as int].origin as int]@.len()
                && waits_for(
                cfg.bodies@,
                dotted@,
                #[trigger] old(chart)@[old(chart)@[i as int]@[q as int].origin as int]@[l],
                cfg.heads@[dotted@[old(chart)@[i as int]@[q as int].code as int].head as int]@,
            ) ==> has_item(
                rows_of(final(chart)@),
                i as int,
                old(chart)@[old(chart)@[i as int]@[q as int].origin as int]@[l].code + 1,
                old(chart)@[old(chart)@[i as int]@[q as int].origin as int]@[l].origin as int,
            ),
{
    let it = chart[i][q];
    assert(item_ok(
        cfg.heads@,
        cfg.bodies@,
        dotted@,
        chars@,
        rows_of(chart@),
        i as int,
        q as int,
    ));
    let d = dotted[it.code];
    assert(dotted_at_ok(cfg.bodies@, dotted@, it.code as int));
    let j = it.origin;
    let name = cfg.heads[d.head];
    let m = chart[j].len();
    let ghost first = old(chart)@[j as int]@;
    let mut l: usize = 0;
    proof {
        lemma_grew_none(chart@, i as int);
    }
    while l < m
        invariant
            l <= m,
            j <= i,
            i < chart@.len(),
            m <= chart@[j as int]@.len(),
            m == first.len(),
            first == old(chart)@[j as int]@,
            forall|y: int| 0 <= y < m ==> (#[trigger] chart@[j as int]@[y]) == first[y],
            q < chart@[i as int]@.len(),
            chart@[i as int]@[q as int] == it,
            it.origin == j,
            it.code < dotted@.len(),
            d == dotted@[it.code as int],
            d.head < cfg.heads@.len(),
            d.dot == rhs_of(cfg.bodies@, d).len(),
            name@ == cfg.heads@[d.head as int]@,
            parser_ok(cfg, dotted@, offsets@, chars@, chart@),
            table_ok(seen@, dotted@.len(), chart@.len()),
            seen_sound(seen@, rows_of(chart@), i as int),
            chart@.len() == old(chart)@.len(),
            grew_at(old(chart)@, chart@, i as int),
            count2(seen@) + chart@[i as int]@.len() == count2(old(seen)@) + old(
                chart,
            )@[i as int]@.len(),
            forall|y: int|
                0 <= y < l && waits_for(cfg.bodies@, dotted@, #[trigger] first[y], name@)
                    ==> has_item(
                    rows_of(chart@),
                    i as int,
                    first[y].code + 1,
                    first[y].origin as int,
                ),
        decreases m - l,
    {
        let cand = chart[j][l];
        assert(cand == first[l as int]);
        assert(item_ok(
            cfg.heads@,
            cfg.bodies@,
            dotted@,
            chars@,
            rows_of(chart@),
            j as int,
            l as int,
        ));
        let cd = dotted[cand.code];
        assert(dotted_at_ok(cfg.bodies@, dotted@, cand.code as int));
        let crhs = &cfg.bodies[cd.head][cd.prod];
        assert(crhs@ == rhs_of(cfg.bodies@, cd));
        let ghost before = chart@;
        let mut moved = false;
        if cd.dot < crhs.len() {
            match crhs[cd.dot] {
                Symbol::NonTerminal(x) => {
                    if str_eq(x, name) {
                        assert(cand.code + 1 < dotted@.len());
                        assert(dotted@.len() == dotted.len());
                        assert(cand.origin <= j);
                        let item = Item {
                            code: cand.code + 1,
                            origin: cand.origin,
                            left_pos: j,
                            left_idx: l,
                            right_idx: q,
                        };
                        proof {
                            let rows = rows_of(before);
                            let grown = rows.update(i as int, before[i as int]@.push(item));
                            let at = before[i as int]@.len() as int;
                            assert(grown[i as int][at] == item);
                            assert(grown[i as int][q as int] == it);
                            assert(grown[j as int][l as int] == cand);
                            assert(dotted_at_ok(cfg.bodies@, dotted@, cand.code + 1));
                            assert(item_ok(
                                cfg.heads@,
                                cfg.bodies@,
                                dotted@,
                                chars@,
                                grown,
                                i as int,
                                at,
                            ));
                        }
                        insert(cfg, dotted, chars, chart, seen, i, item);
                        moved = true;
                    }
                },
                Symbol::Terminal(_) => {},
            }
        }
        proof {
            if moved {
                lemma_grew_twice(old(chart)@, before, chart@, i as int);
                assert(rows_of(chart@)[i as int][q as int] == rows_of(before)[i as int][q as int]);
                assert forall|y: int| 0 <= y < m implies (#[trigger] chart@[j as int]@[y])
                    == first[y] by {
                    assert(rows_of(chart@)[j as int][y] == rows_of(before)[j as int][y]);
                }
                assert forall|y: int|
                    0 <= y < l && waits_for(
                        cfg.bodies@,
                        dotted@,
                        #[trigger] first[y],
                        name@,
                    ) implies has_item(
                    rows_of(chart@),
                    i as int,
                    first[y].code + 1,
                    first[y].origin as int,
                ) by {
                    lemma_has_item_grows(
                        rows_of(before),
                        rows_of(chart@),
                        i as int,
                        first[y].code + 1,
                        first[y].origin as int,
                    );
                }
            }
        }
        l += 1;
    }
}

/// Scanning: the item at `q` of set `i` has the dot before the terminal
/// that stands at `i` in the input, so it moves on into set `i + 1`.
fn scan(
    cfg: &CFG,
    dotted: &Vec<Dotted>,
    offsets: &Vec<Vec<usize>>,
    chars: &Vec<char>,
    chart: &mut Vec<Vec<Item>>,
    seen_next: &mut Vec<Vec<bool>>,
    i: usize,
    q: usize,
)
    requires
        parser_ok(cfg, dotted@, offsets@, chars@, old(chart)@),
        table_ok(old(seen_next)@, dotted@.len(), old(chart)@.len()),
        seen_sound(old(seen_next)@, rows_of(old(chart)@), i + 1),
        i < chars@.len(),
        q < old(chart)@[i as int]@.len(),
        old(chart)@[i as int]@[q as int].code < dotted@.len(),
        dotted@[old(chart)@[i as int]@[q as int].code as int].dot < rhs_of(
            cfg.bodies@,
            dotted@[old(chart)@[i as int]@[q as int].code as int],
        ).len(),
        rhs_of(
            cfg.bodies@,
            dotted@[old(chart)@[i as int]@[q as int].code as int],
        )[dotted@[old(chart)@[i as int]@[q as int].code as int].dot as int] == Symbol::Terminal(
            chars@[i as int],
        ),
    ensures
        parser_ok(cfg, dotted@, offsets@, chars@, final(chart)@),
        table_ok(final(seen_next)@, dotted@.len(), final(chart)@.len()),
        seen_sound(final(seen_next)@, rows_of(final(chart)@), i + 1),
        final(chart)@.len() == old(chart)@.len(),
        grew_at(old(chart)@, final(chart)@, i + 1),
        has_item(
            rows_of(final(chart)@),
            i + 1,
            old(chart)@[i as int]@[q as int].code + 1,
            old(chart)@[i as int]@[q as int].origin as int,
        ),
{
    let it = chart[i][q];
    assert(item_ok(
        cfg.heads@,
        cfg.bodies@,
        dotted@,
        chars@,
        rows_of(chart@),
        i as int,
        q as int,
    ));
    assert(dotted_at_ok(cfg.bodies@, dotted@, it.code as int));
    assert(it.code + 1 < dotted@.len());
    assert(dotted@.len() == dotted.len());
    assert(chart@.len() == chars@.len() + 1);
    assert(chart@.len() == chart.len());
    let item = Item { code: it.code + 1, origin: it.origin, left_pos: i, left_idx: q, right_idx: 0 };
    proof {
        let rows = rows_of(chart@);
        let grown = rows.update(i + 1, chart@[i + 1]@.push(item));
        let at = chart@[i + 1]@.len() as int;
        assert(grown[i + 1][at] == item);
        assert(dotted_at_ok(cfg.bodies@, dotted@, it.code + 1));
        let d = dotted@[it.code as int];
        let nd = dotted@[it.code + 1];
        assert(nd.dot == d.dot + 1 && nd.head == d.head && nd.prod == d.prod);
        assert(rhs_of(cfg.bodies@, nd) == rhs_of(cfg.bodies@, d));
        assert(rhs_of(cfg.bodies@, nd)[nd.dot - 1] == Symbol::Terminal(chars@[i as int]));
        assert(grown[i + 1][at].code == it.code + 1);
        assert(grown[(i + 1) - 1][q as int] == it);
        assert(item_ok(cfg.heads@, cfg.bodies@, dotted@, chars@, grown, i + 1, at));
    }
    insert(cfg, dotted, chars, chart, seen_next, i + 1, item);
}

/// The grammar generates `w`: some parse tree of the grammar, rooted at
/// the start symbol, has `w` as its terminals from left to right.
pub open spec fn generates(g: Grammar, w: Seq<char>) -> bool {
    exists|t: Tree| #[trigger] t.derives(g) && t.root() == Sym::N(g.start) && t.fringe() == w
}

/// What follows from the item at `idx` of set `pos` is in the chart: the
/// productions that it predicts, the item that scanning makes of it, or
/// the items that it completes.
spec fn processed(
    heads: Seq<NonTerminal>,
    bodies: Seq<Vec<Vec<Symbol>>>,
    dotted: Seq<Dotted>,
    offsets: Seq<Vec<usize>>,
    input: Seq<char>,
    rows: Seq<Seq<Item>>,
    pos: int,
    idx: int,
) -> bool {
    let it = rows[pos][idx];
    let d = dotted[it.code as int];
    let rhs = rhs_of(bodies, d);
    if d.dot < rhs.len() {
        match rhs[d.dot as int] {
            Symbol::NonTerminal(name) => forall|h: int, p: int|
                0 <= h < heads.len() && heads[h]@ == name@ && 0 <= p < bodies[h]@.len()
                    ==> has_item(rows, pos, (#[trigger] offsets[h]@[p]) as int, pos),
            Symbol::Terminal(c) => pos < input.len() && input[pos] == c ==> has_item(
                rows,
                pos + 1,
                it.code + 1,
                it.origin as int,
            ),
        }
    } else {
        it.origin < pos ==> forall|l: int|
            0 <= l < rows[it.origin as int].len() && waits_for(
                bodies,
                dotted,
                #[trigger] rows[it.origin as int][l],
                heads[d.head as int]@,
            ) ==> has_item(
                rows,
                pos,
                rows[it.origin as int][l].code + 1,
                rows[it.origin as int][l].origin as int,
            )
    }
}

/// Every item before place `q` of set `i` is processed.
spec fn closed_before(
    heads: Seq<NonTerminal>,
    bodies: Seq<Vec<Vec<Symbol>>>,
    dotted: Seq<Dotted>,
    offsets: Seq<Vec<usize>>,
    input: Seq<char>,
    rows: Seq<Seq<Item>>,
    i: int,
    q: int,
) -> bool {
    forall|pos: int, idx: int|
        0 <= pos < rows.len() && 0 <= idx < rows[pos].len() && (pos < i || (pos == i && idx < q))
            ==> #[trigger] processed(heads, bodies, dotted, offsets, input, rows, pos, idx)
}

/// Items stay processed when the chart grows at set `i` or behind it.
proof fn lemma_closed_grows(
    heads: Seq<NonTerminal>,
    bodies: Seq<Vec<Vec<Symbol>>>,
    dotted: Seq<Dotted>,
    offsets: Seq<Vec<usize>>,
    input: Seq<char>,
    a: Seq<Seq<Item>>,
    b: Seq<Seq<Item>>,
    i: int,
    q: int,
    at: int,
)
    requires
        closed_before(heads, bodies, dotted, offsets, input, a, i, q),
        chart_ok(heads, bodies, dotted, input, a),
        extends(a, b),
        0 <= i <= at,
        i < a.len(),
        q <= a[i].len(),
        forall|j: int| 0 <= j < a.len() && j != at ==> (#[trigger] b[j]).len() == a[j].len(),
    ensures
        closed_before(heads, bodies, dotted, offsets, input, b, i, q),
{
    assert forall|pos: int, idx: int|
        0 <= pos < b.len() && 0 <= idx < b[pos].len() && (pos < i || (pos == i && idx < q))
        implies #[trigger] processed(heads, bodies, dotted, offsets, input, b, pos, idx) by {
        assert(a[pos].len() <= b[pos].len());
        if pos < i {
            assert(b[pos].len() == a[pos].len());
        }
        assert(processed(heads, bodies, dotted, offsets, input, a, pos, idx));
        assert(item_ok(heads, bodies, dotted, input, a, pos, idx));
        let it = a[pos][idx];
        assert(b[pos][idx] == it);
        let d = dotted[it.code as int];
        let rhs = rhs_of(bodies, d);
        if d.dot < rhs.len() {
            match rhs[d.dot as int] {
                Symbol::NonTerminal(name) => {
                    assert forall|h: int, p: int|
                        0 <= h < heads.len() && heads[h]@ == name@ && 0 <= p
                            < bodies[h]@.len() implies has_item(
                        b,
                        pos,
                        (#[trigger] offsets[h]@[p]) as int,
                        pos,
                    ) by {
                        lemma_has_item_grows(a, b, pos, offsets[h]@[p] as int, pos);
                    }
                },
                Symbol::Terminal(c) => {
                    if pos < input.len() && input[pos] == c {
                        lemma_has_item_grows(a, b, pos + 1, it.code + 1, it.origin as int);
                    }
                },
            }
        } else {
            if it.origin < pos {
                let o = it.origin as int;
                assert(b[o].len() == a[o].len());
                assert forall|l: int|
                    0 <= l < b[o].len() && waits_for(
                        bodies,
                        dotted,
                        #[trigger] b[o][l],
                        heads[d.head as int]@,
                    ) implies has_item(b, pos, b[o][l].code + 1, b[o][l].origin as int) by {
                    assert(b[o][l] == a[o][l]);
                    lemma_has_item_grows(a, b, pos, a[o][l].code + 1, a[o][l].origin as int);
                }
            }
        }
    }
}

/// What the finished chart has: every item allowed and processed, and
/// the productions of the start symbol in the first set.
spec fn finished(
    cfg: &CFG,
    dotted: Seq<Dotted>,
    offsets: Seq<Vec<usize>>,
    input: Seq<char>,
    rows: Seq<Seq<Item>>,
    start_h: int,
) -> bool {
    &&& cfg.wf()
    &&& dotted_ok(cfg.bodies@, dotted)
    &&& offsets_ok(cfg.bodies@, dotted, offsets)
    &&& chart_ok(cfg.heads@, cfg.bodies@, dotted, input, rows)
    &&& closed_before(cfg.heads@, cfg.bodies@, dotted, offsets, input, rows, rows.len() as int, 0)
    &&& 0 <= start_h < cfg.heads@.len()
    &&& cfg.heads@[start_h]@ == cfg.start@
    &&& forall|p: int|
        0 <= p < cfg.bodies@[start_h]@.len() ==> has_item(
            rows,
            0,
            (#[trigger] offsets[start_h]@[p]) as int,
            0,
        )
}

/// The dotted forms of a production stand one behind the other in the
/// table.
proof fn lemma_dotted_run(
    bodies: Seq<Vec<Vec<Symbol>>>,
    dotted: Seq<Dotted>,
    offsets: Seq<Vec<usize>>,
    h: int,
    p: int,
    k: int,
)
    requires
        dotted_ok(bodies, dotted),
        offsets_ok(bodies, dotted, offsets),
        0 <= h < bodies.len(),
        0 <= p < bodies[h]@.len(),
        0 <= k <= bodies[h]@[p]@.len(),
    ensures
        offsets[h]@[p] + k < dotted.len(),
        dotted[offsets[h]@[p] + k].head == h,
        dotted[offsets[h]@[p] + k].prod == p,
        dotted[offsets[h]@[p] + k].dot == k,
    decreases k,
{
    let c0 = offsets[h]@[p] as int;
    if k > 0 {
        lemma_dotted_run(bodies, dotted, offsets, h, p, k - 1);
        assert(dotted_at_ok(bodies, dotted, c0 + (k - 1)));
    }
}

/// The trees of a beginning of a list have a beginning of its fringe.
proof fn lemma_fringe_take(ts: Seq<Tree>, k: int)
    requires
        0 <= k <= ts.len(),
    ensures
        Tree::fringe_all(ts.take(k)).len() <= Tree::fringe_all(ts).len(),
        Tree::fringe_all(ts.take(k)) == Tree::fringe_all(ts).subrange(
            0,
            Tree::fringe_all(ts.take(k)).len() as int,
        ),
        k < ts.len() ==> Tree::fringe_all(ts.take(k + 1)) == Tree::fringe_all(ts.take(k))
            + ts[k].fringe(),
    decreases ts.len() - k,
{
    if k == ts.len() {
        assert(ts.take(k) =~= ts);
        assert(Tree::fringe_all(ts).subrange(0, Tree::fringe_all(ts).len() as int)
            =~= Tree::fringe_all(ts));
    } else {
        lemma_fringe_take(ts, k + 1);
        let more = ts.take(k + 1);
        assert(more.drop_last() =~= ts.take(k));
        assert(more.last() == ts[k]);
        let a = Tree::fringe_all(ts.take(k));
        let b = Tree::fringe_all(more);
        assert(b == a + ts[k].fringe());
        assert(a =~= Tree::fringe_all(ts).subrange(0, a.len() as int));
    }
}

/// A piece of a beginning of `whole` stands in `input` where `whole`
/// puts it.
proof fn lemma_piece(
    input: Seq<char>,
    i: int,
    whole: Seq<char>,
    before: Seq<char>,
    piece: Seq<char>,
)
    requires
        0 <= i,
        i + whole.len() <= input.len(),
        input.subrange(i, i + whole.len()) == whole,
        before.len() + piece.len() <= whole.len(),
        whole.subrange(0, (before.len() + piece.len()) as int) == before + piece,
    ensures
        input.subrange(i + before.len(), i + before.len() + piece.len()) == piece,
{
    let m = i + before.len();
    assert forall|x: int| 0 <= x < piece.len() implies input[m + x] == piece[x] by {
        assert((before + piece)[before.len() + x] == piece[x]);
        assert(input.subrange(i, i + whole.len())[before.len() + x] == input[i + (before.len()
            + x)]);
        assert(input.subrange(i, i + whole.len())[before.len() + x] == whole[before.len() + x]);
        assert(whole.subrange(0, (before.len() + piece.len()) as int)[before.len() + x] == (before
            + piece)[before.len() + x]);
    }
    assert(input.subrange(m, m + piece.len()) =~= piece);
}

/// Where no production is empty, a tree with a production at its root
/// has a terminal.
proof fn lemma_fringe_not_empty(g: Grammar, t: Tree)
    requires
        g.no_empty_rule(),
        t.derives(g),
    ensures
        t is Leaf ==> t.fringe().len() == 1,
        t is Node ==> t.fringe().len() >= 1,
    decreases t,
{
    match t {
        Tree::Leaf(_) => {},
        Tree::Node(name, kids) => {
            let p = choose|p: int|
                0 <= p < g.prods(name).len() && #[trigger] g.prods(name)[p] == roots(kids);
            assert(g.prods(name)[p].len() > 0);
            assert(roots(kids).len() == kids.len());
            lemma_fringe_not_empty(g, kids.last());
        },
    }
}

/// In the finished chart an item whose dot stands before the root
/// symbol of a parse tree has moved over it, into the set behind the
/// tree's terminals.
proof fn lemma_step(
    cfg: &CFG,
    dotted: Seq<Dotted>,
    offsets: Seq<Vec<usize>>,
    input: Seq<char>,
    rows: Seq<Seq<Item>>,
    start_h: int,
    t: Tree,
    i: int,
    c: int,
    o: int,
)
    requires
        finished(cfg, dotted, offsets, input, rows, start_h),
        cfg@.no_empty_rule(),
        0 <= i < rows.len(),
        has_item(rows, i, c, o),
        0 <= c < dotted.len(),
        dotted[c].dot < rhs_of(cfg.bodies@, dotted[c]).len(),
        rhs_of(cfg.bodies@, dotted[c])[dotted[c].dot as int]@ == t.root(),
        t.derives(cfg@),
        i + t.fringe().len() <= input.len(),
        input.subrange(i, i + t.fringe().len()) == t.fringe(),
    ensures
        has_item(rows, i + t.fringe().len(), c + 1, o),
    decreases t, 0nat,
{
    let heads = cfg.heads@;
    let bodies = cfg.bodies@;
    let idx = choose|idx: int|
        0 <= idx < rows[i].len() && (#[trigger] rows[i][idx]).code == c && rows[i][idx].origin == o;
    assert(processed(heads, bodies, dotted, offsets, input, rows, i, idx));
    match t {
        Tree::Leaf(ch) => {
            assert(input.subrange(i, i + 1)[0] == ch);
        },
        Tree::Node(name, kids) => {
            cfg.lemma_view();
            let g = cfg@;
            let p = choose|p: int|
                0 <= p < g.prods(name).len() && #[trigger] g.prods(name)[p] == roots(kids);
            assert(is_head(heads, name));
            let h = head_index(heads, name);
            assert(g.prods(heads[h]@) == prods_of(bodies[h]@));
            assert(prods_of(bodies[h]@)[p] == syms_of(bodies[h]@[p]@));
            let c0 = offsets[h]@[p] as int;
            // The production is predicted in set `i`.
            assert(has_item(rows, i, c0, i));
            // Its dot moves over all children.
            lemma_steps(cfg, dotted, offsets, input, rows, start_h, kids, kids.len() as int, i, h, p);
            assert(kids.take(kids.len() as int) =~= kids);
            let j = i + t.fringe().len();
            lemma_fringe_not_empty(g, t);
            assert(roots(kids).len() == kids.len());
            assert(syms_of(bodies[h]@[p]@).len() == bodies[h]@[p]@.len());
            lemma_dotted_run(bodies, dotted, offsets, h, p, kids.len() as int);
            let done = choose|x: int|
                0 <= x < rows[j].len() && (#[trigger] rows[j][x]).code == c0 + kids.len()
                    && rows[j][x].origin == i;
            assert(processed(heads, bodies, dotted, offsets, input, rows, j, done));
            // The item that waited for the head moves on.
            assert(waits_for(bodies, dotted, rows[i][idx], heads[h]@));
        },
    }
}

/// In the finished chart a predicted production has moved its dot over
/// the first `k` of the trees of its right-hand side.
proof fn lemma_steps(
    cfg: &CFG,
    dotted: Seq<Dotted>,
    offsets: Seq<Vec<usize>>,
    input: Seq<char>,
    rows: Seq<Seq<Item>>,
    start_h: int,
    kids: Seq<Tree>,
    k: int,
    i: int,
    h: int,
    p: int,
)
    requires
        finished(cfg, dotted, offsets, input, rows, start_h),
        cfg@.no_empty_rule(),
        0 <= i < rows.len(),
        0 <= h < cfg.bodies@.len(),
        0 <= p < cfg.bodies@[h]@.len(),
        has_item(rows, i, offsets[h]@[p] as int, i),
        roots(kids) == syms_of(cfg.bodies@[h]@[p]@),
        forall|x: int| 0 <= x < kids.len() ==> (#[trigger] kids[x]).derives(cfg@),
        0 <= k <= kids.len(),
        i + Tree::fringe_all(kids).len() <= input.len(),
        input.subrange(i, i + Tree::fringe_all(kids).len()) == Tree::fringe_all(kids),
    ensures
        has_item(rows, i + Tree::fringe_all(kids.take(k)).len(), offsets[h]@[p] + k, i),
    decreases kids, k,
{
    let bodies = cfg.bodies@;
    let c0 = offsets[h]@[p] as int;
    if k == 0 {
        assert(kids.take(0) =~= Seq::<Tree>::empty());
    } else {
        lemma_steps(cfg, dotted, offsets, input, rows, start_h, kids, k - 1, i, h, p);
        lemma_fringe_take(kids, k - 1);
        lemma_fringe_take(kids, k);
        let before = Tree::fringe_all(kids.take(k - 1));
        let upto = Tree::fringe_all(kids.take(k));
        let whole = Tree::fringe_all(kids);
        let t = kids[k - 1];
        let m = i + before.len();
        assert(upto == before + t.fringe());
        assert(roots(kids).len() == kids.len());
        assert(syms_of(bodies[h]@[p]@).len() == bodies[h]@[p]@.len());
        lemma_dotted_run(bodies, dotted, offsets, h, p, k - 1);
        assert(syms_of(bodies[h]@[p]@)[k - 1] == bodies[h]@[p]@[k - 1]@);
        assert(roots(kids)[k - 1] == t.root());
        lemma_piece(input, i, whole, before, t.fringe());
        lemma_step(cfg, dotted, offsets, input, rows, start_h, t, m, c0 + (k - 1), i);
    }
}

/// Where the grammar generates the input, the last set of the finished
/// chart holds a production of the start symbol with the dot at its end
/// that began at the first place.
proof fn lemma_chart_complete(
    cfg: &CFG,
    dotted: Seq<Dotted>,
    offsets: Seq<Vec<usize>>,
    input: Seq<char>,
    rows: Seq<Seq<Item>>,
    start_h: int,
)
    requires
        finished(cfg, dotted, offsets, input, rows, start_h),
        cfg@.no_empty_rule(),
        generates(cfg@, input),
    ensures
        exists|idx: int|
            0 <= idx < rows[input.len() as int].len() && (#[trigger] rows[input.len() as int][idx]).origin
                == 0 && dotted[rows[input.len() as int][idx].code as int].head == start_h
                && dotted[rows[input.len() as int][idx].code as int].dot == rhs_of(
                cfg.bodies@,
                dotted[rows[input.len() as int][idx].code as int],
            ).len(),
{
    let heads = cfg.heads@;
    let bodies = cfg.bodies@;
    let g = cfg@;
    cfg.lemma_view();
    let t = choose|t: Tree| #[trigger] t.derives(g) && t.root() == Sym::N(g.start) && t.fringe() == input;
    match t {
        Tree::Leaf(_) => {},
        Tree::Node(name, kids) => {
            let p = choose|p: int|
                0 <= p < g.prods(name).len() && #[trigger] g.prods(name)[p] == roots(kids);
            assert(g.prods(heads[start_h]@) == prods_of(bodies[start_h]@));
            assert(prods_of(bodies[start_h]@)[p] == syms_of(bodies[start_h]@[p]@));
            let c0 = offsets[start_h]@[p] as int;
            assert(has_item(rows, 0, c0, 0));
            assert(input.subrange(0, input.len() as int) =~= input);
            lemma_steps(
                cfg,
                dotted,
                offsets,
                input,
                rows,
                start_h,
                kids,
                kids.len() as int,
                0,
                start_h,
                p,
            );
            assert(kids.take(kids.len() as int) =~= kids);
            assert(roots(kids).len() == kids.len());
            assert(syms_of(bodies[start_h]@[p]@).len() == bodies[start_h]@[p]@.len());
            lemma_dotted_run(bodies, dotted, offsets, start_h, p, kids.len() as int);
            let n = input.len() as int;
            let done = choose|x: int|
                0 <= x < rows[n].len() && (#[trigger] rows[n][x]).code == c0 + kids.len()
                    && rows[n][x].origin == 0;
            assert(rows[n][done].origin == 0);
        },
    }
}

/// Where the start symbol has no production, the grammar generates
/// nothing.
proof fn lemma_no_start_rule(cfg: &CFG, input: Seq<char>)
    requires
        cfg.wf(),
        !is_head(cfg.heads@, cfg.start@),
    ensures
        !generates(cfg@, input),
{
    cfg.lemma_view();
    if generates(cfg@, input) {
        let g = cfg@;
        let t = choose|t: Tree| #[trigger] t.derives(g) && t.root() == Sym::N(g.start) && t.fringe() == input;
        match t {
            Tree::Leaf(_) => {},
            Tree::Node(name, kids) => {
                let p = choose|p: int|
                    0 <= p < g.prods(name).len() && #[trigger] g.prods(name)[p] == roots(kids);
            },
        }
    }
}

/// Runs the three Earley steps over the input, then looks for a start
/// production that spans it and builds its tree.
fn parse(cfg: &CFG, input: &str) -> (r: Option<ASTNode>)
    requires
        cfg.wf(),
    ensures
        r matches Some(t) ==> t@.derives(cfg@) && t@.root() == Sym::N(cfg@.start) && t@.fringe()
            == input@,
        r is Some ==> generates(cfg@, input@),
        cfg@.no_empty_rule() ==> (r is Some <==> generates(cfg@, input@)),
{
    let chars = chars_of(input);
    let n = chars.len();
    let (dotted, offsets) = cfg.dotted_rules();
    let start_h = match cfg.find_head(cfg.start) {
        Some(h) => h,
        None => {
            proof {
                lemma_no_start_rule(cfg, input@);
            }
            return None;
        },
    };
    let mut chart: Vec<Vec<Item>> = Vec::new();
    let mut k: usize = 0;
    while k < n
        invariant
            k <= n,
            chart@.len() == k,
            forall|j: int| 0 <= j < k ==> (#[trigger] chart@[j])@.len() == 0,
        decreases n - k,
    {
        chart.push(Vec::new());
        k += 1;
    }
    chart.push(Vec::new());
    let width = chart.len();
    assert(chart_ok(cfg.heads@, cfg.bodies@, dotted@, chars@, rows_of(chart@)));
    let mut seen_cur = blank_table(dotted.len(), width);
    let ghost heads = cfg.heads@;
    let ghost bodies = cfg.bodies@;
    predict(cfg, &dotted, &offsets, &chars, &mut chart, &mut seen_cur, 0, start_h);
    let mut i: usize = 0;
    while i < width
        invariant
            i <= width,
            width == n + 1,
            n == chars@.len(),
            chart@.len() == width,
            heads == cfg.heads@,
            bodies == cfg.bodies@,
            start_h < heads.len(),
            parser_ok(cfg, dotted@, offsets@, chars@, chart@),
            table_ok(seen_cur@, dotted@.len(), width as nat),
            i < width ==> seen_sound(seen_cur@, rows_of(chart@), i as int),
            closed_before(heads, bodies, dotted@, offsets@, chars@, rows_of(chart@), i as int, 0),
            forall|p: int|
                0 <= p < bodies[start_h as int]@.len() ==> has_item(
                    rows_of(chart@),
                    0,
                    (#[trigger] offsets@[start_h as int]@[p]) as int,
                    0,
                ),
        decreases width - i,
    {
        let mut seen_next = blank_table(dotted.len(), width);
        let mut q: usize = 0;
        while q < chart[i].len()
            invariant
                i < width,
                width == n + 1,
                n == chars@.len(),
                chart@.len() == width,
                heads == cfg.heads@,
                bodies == cfg.bodies@,
                start_h < heads.len(),
                q <= chart@[i as int]@.len(),
                parser_ok(cfg, dotted@, offsets@, chars@, chart@),
                table_ok(seen_cur@, dotted@.len(), width as nat),
                table_ok(seen_next@, dotted@.len(), width as nat),
                seen_sound(seen_cur@, rows_of(chart@), i as int),
                i + 1 < width ==> seen_sound(seen_next@, rows_of(chart@), i + 1),
                closed_before(
                    heads,
                    bodies,
                    dotted@,
                    offsets@,
                    chars@,
                    rows_of(chart@),
                    i as int,
                    q as int,
                ),
                forall|p: int|
                    0 <= p < bodies[start_h as int]@.len() ==> has_item(
                        rows_of(chart@),
                        0,
                        (#[trigger] offsets@[start_h as int]@[p]) as int,
                        0,
                    ),
            decreases count2(seen_cur@) + chart@[i as int]@.len() - q,
        {
            let it = chart[i][q];
            assert(item_ok(heads, bodies, dotted@, chars@, rows_of(chart@), i as int, q as int));
            let d = dotted[it.code];
            assert(dotted_at_ok(bodies, dotted@, it.code as int));
            let rhs = &cfg.bodies[d.head][d.prod];
            assert(rhs@ == rhs_of(bodies, d));
            let ghost before = chart@;
            let ghost at: int = i as int;
            if d.dot < rhs.len() {
                match rhs[d.dot] {
                    Symbol::NonTerminal(name) => {
                        match cfg.find_head(name) {
                            Some(h) => {
                                predict(
                                    cfg,
                                    &dotted,
                                    &offsets,
                                    &chars,
                                    &mut chart,
                                    &mut seen_cur,
                                    i,
                                    h,
                                );
                                proof {
                                    if i + 1 < width {
                                        lemma_seen_grows(
                                            seen_next@,
                                            rows_of(before),
                                            rows_of(chart@),
                                            i + 1,
                                        );
                                    }
                                }
                            },
                            None => {
                                proof {
                                    lemma_grew_none(chart@, i as int);
                                }
                            },
                        }
                    },
                    Symbol::Terminal(t) => {
                        if i < n && t == chars[i] {
                            scan(
                                cfg,
                                &dotted,
                                &offsets,
                                &chars,
                                &mut chart,
                                &mut seen_next,
                                i,
                                q,
                            );
                            proof {
                                at = i + 1;
                                lemma_seen_grows(seen_cur@, rows_of(before), rows_of(chart@), i as int);
                            }
                        } else {
                            proof {
                                lemma_grew_none(chart@, i as int);
                            }
                        }
                    },
                }
            } else {
                complete(cfg, &dotted, &offsets, &chars, &mut chart, &mut seen_cur, i, q);
                proof {
                    if i + 1 < width {
                        lemma_seen_grows(seen_next@, rows_of(before), rows_of(chart@), i + 1);
                    }
                }
            }
            proof {
                let a = rows_of(before);
                let b = rows_of(chart@);
                assert(grew_at(before, chart@, at));
                assert forall|j: int| 0 <= j < a.len() && j != at implies (#[trigger] b[j]).len()
                    == a[j].len() by {
                    assert(chart@[j]@.len() == before[j]@.len());
                }
                lemma_closed_grows(
                    heads,
                    bodies,
                    dotted@,
                    offsets@,
                    chars@,
                    a,
                    b,
                    i as int,
                    q as int,
                    at,
                );
                assert forall|p: int| 0 <= p < bodies[start_h as int]@.len() implies has_item(
                    b,
                    0,
                    (#[trigger] offsets@[start_h as int]@[p]) as int,
                    0,
                ) by {
                    lemma_has_item_grows(a, b, 0, offsets@[start_h as int]@[p] as int, 0);
                }
                // The item at `q` is processed now.
                assert(b[i as int][q as int] == it);
                assert(processed(heads, bodies, dotted@, offsets@, chars@, b, i as int, q as int))
                    by {
                    if d.dot < rhs@.len() {
                        match rhs@[d.dot as int] {
                            Symbol::NonTerminal(name) => {
                                assert forall|h: int, p: int|
                                    0 <= h < heads.len() && heads[h]@ == name@ && 0 <= p
                                        < bodies[h]@.len() implies has_item(
                                    b,
                                    i as int,
                                    (#[trigger] offsets@[h]@[p]) as int,
                                    i as int,
                                ) by {
                                    assert(is_head(heads, name@));
                                }
                            },
                            Symbol::Terminal(t) => {},
                        }
                    } else {
                        if it.origin < i {
                            let o = it.origin as int;
                            assert(b[o].len() == a[o].len());
                            assert forall|l: int|
                                0 <= l < b[o].len() && waits_for(
                                    bodies,
                                    dotted@,
                                    #[trigger] b[o][l],
                                    heads[d.head as int]@,
                                ) implies has_item(
                                b,
                                i as int,
                                b[o][l].code + 1,
                                b[o][l].origin as int,
                            ) by {
                                assert(b[o][l] == a[o][l]);
                                assert(a[o][l] == before[o]@[l]);
                            }
                        }
                    }
                }
            }
            q += 1;
        }
        seen_cur = seen_next;
        i += 1;
    }
    let mut idx: usize = 0;
    while idx < chart[n].len()
        invariant
            width == n + 1,
            n == chars@.len(),
            chars@ == input@,
            chart@.len() == width,
            heads == cfg.heads@,
            bodies == cfg.bodies@,
            start_h < cfg.heads@.len(),
            cfg.heads@[start_h as int]@ == cfg.start@,
            idx <= chart@[n as int]@.len(),
            parser_ok(cfg, dotted@, offsets@, chars@, chart@),
            forall|y: int|
                0 <= y < idx ==> !((#[trigger] chart@[n as int]@[y]).origin == 0
                    && dotted@[chart@[n as int]@[y].code as int].head == start_h
                    && dotted@[chart@[n as int]@[y].code as int].dot == rhs_of(
                    bodies,
                    dotted@[chart@[n as int]@[y].code as int],
                ).len()),
        decreases chart@[n as int]@.len() - idx,
    {
        let it = chart[n][idx];
        assert(item_ok(
            cfg.heads@,
            cfg.bodies@,
            dotted@,
            chars@,
            rows_of(chart@),
            n as int,
            idx as int,
        ));
        let d = dotted[it.code];
        assert(dotted_at_ok(cfg.bodies@, dotted@, it.code as int));
        if d.head == start_h && it.origin == 0 && d.dot == cfg.bodies[d.head][d.prod].len() {
            let kids = build_kids(cfg, &dotted, &chars, &chart, n, idx);
            let node = ASTNode::NonTerminal { sym: cfg.heads[start_h], children: kids };
            proof {
                lemma_node_view(node);
                cfg.lemma_view();
                lemma_node_derives(
                    cfg@,
                    cfg.bodies@,
                    chars@,
                    d,
                    cfg.heads@[start_h as int]@,
                    0,
                    n as int,
                    trees_of(kids@),
                );
                assert(chars@.subrange(0, n as int) =~= chars@);
                assert(node@.derives(cfg@));
            }
            return Some(node);
        }
        idx += 1;
    }
    proof {
        if cfg@.no_empty_rule() && generates(cfg@, input@) {
            let rows = rows_of(chart@);
            assert(finished(cfg, dotted@, offsets@, chars@, rows, start_h as int));
            lemma_chart_complete(cfg, dotted@, offsets@, chars@, rows, start_h as int);
            let x = choose|x: int|
                0 <= x < rows[n as int].len() && (#[trigger] rows[n as int][x]).origin == 0
                    && dotted@[rows[n as int][x].code as int].head == start_h
                    && dotted@[rows[n as int][x].code as int].dot == rhs_of(
                    cfg.bodies@,
                    dotted@[rows[n as int][x].code as int],
                ).len();
            assert(rows[n as int][x] == chart@[n as int]@[x]);
        }
    }
    None
}

impl CFG {
    /// Perform Earley parsing on the input using the given CFG. What comes
    /// back is a parse tree of the grammar, rooted at its start symbol,
    /// whose terminals from left to right are the input. Where no
    /// production of the grammar is empty, a tree comes back if and only
    /// if the grammar generates the input.
    pub fn parse(&self, input: &str) -> (r: Option<ASTNode>)
        requires
            self.wf(),
        ensures
            r matches Some(t) ==> t@.derives(self@) && t@.root() == Sym::N(self@.start)
                && t@.fringe() == input@,
            self@.no_empty_rule() ==> (r is Some <==> generates(self@, input@)),
    {
        parse(self, input)
    }
}

/// A struct that renders an `ASTNode` on one line.
pub struct PrettyPrint<'a>(pub &'a ASTNode);

/// A tree on one line: a leaf as its character between quotes, an inner
/// node as its name and, where it has children, the children in
/// parentheses with commas between them.
pub open spec fn rendering(t: Tree) -> Seq<char>
    decreases t, 0nat,
{
    match t {
        Tree::Leaf(c) => seq!['\'', c, '\''],
        Tree::Node(name, kids) => if kids.len() == 0 {
            name
        } else {
            name + seq!['('] + rendering_all(kids, kids.len()) + seq![')']
        },
    }
}

/// The first `n` of `ts` rendered, with commas between them.
pub open spec fn rendering_all(ts: Seq<Tree>, n: nat) -> Seq<char>
    decreases ts, n,
{
    if n == 0 || n > ts.len() {
        Seq::empty()
    } else if n == 1 {
        rendering(ts[0])
    } else {
        rendering_all(ts, (n - 1) as nat) + seq![',', ' '] + rendering(ts[n - 1])
    }
}

/// Appends the characters of `b` to `a`.
fn push_all(a: &mut Vec<char>, b: &Vec<char>)
    ensures
        final(a)@ == old(a)@ + b@,
{
    let mut i: usize = 0;
    while i < b.len()
        invariant
            i <= b@.len(),
            a@ == old(a)@ + b@.take(i as int),
        decreases b@.len() - i,
    {
        a.push(b[i]);
        assert(old(a)@ + b@.take(i + 1) =~= (old(a)@ + b@.take(i as int)).push(b@[i as int]));
        i += 1;
    }
    assert(b@.take(b@.len() as int) =~= b@);
}

/// The characters of the rendering of `node`.
fn render_chars(node: &ASTNode) -> (v: Vec<char>)
    ensures
        v@ == rendering(node@),
    decreases node,
{
    match node {
        ASTNode::Terminal(c) => {
            let mut v: Vec<char> = Vec::new();
            v.push('\'');
            v.push(*c);
            v.push('\'');
            assert(v@ =~= seq!['\'', *c, '\'']);
            v
        },
        ASTNode::NonTerminal { sym, children } => {
            proof {
                lemma_node_view(*node);
                lemma_trees_of(children@);
            }
            let mut v = chars_of(sym);
            if children.len() == 0 {
                return v;
            }
            let ghost kids = trees_of(children@);
            v.push('(');
            let ghost head = v@;
            let mut k: usize = 0;
            while k < children.len()
                invariant
                    k <= children@.len(),
                    children@.len() > 0,
                    kids == trees_of(children@),
                    kids.len() == children@.len(),
                    forall|i: int| 0 <= i < children@.len() ==> (#[trigger] kids[i]) == children@[i]@,
                    forall|i: int|
                        0 <= i < children@.len() ==> decreases_to!(node => #[trigger] children@[i]),
                    v@ == head + rendering_all(kids, k as nat),
                decreases children@.len() - k,
            {
                if k > 0 {
                    v.push(',');
                    v.push(' ');
                }
                assert(decreases_to!(node => children@[k as int]));
                let part = render_chars(&children[k]);
                push_all(&mut v, &part);
                proof {
                    assert(kids[k as int] == children@[k as int]@);
                    if k == 0 {
                        assert(v@ =~= head + rendering_all(kids, 1));
                    } else {
                        assert(v@ =~= head + (rendering_all(kids, k as nat) + seq![',', ' ']
                            + rendering(kids[k as int])));
                    }
                }
                k += 1;
            }
            v.push(')');
            proof {
                assert(v@ =~= sym@ + seq!['('] + rendering_all(kids, kids.len()) + seq![')']);
            }
            v
        },
    }
}

impl<'a> PrettyPrint<'a> {
    /// The tree on one line.
    pub fn render(&self) -> (s: String)
        ensures
            s@ == rendering(self.0@),
    {
        let v = render_chars(self.0);
        string_of(&v)
    }
}

} // verus!
