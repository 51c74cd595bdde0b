//! The mathematical model of a nondeterministic finite automaton, the
//! constructions on it, and what it means for it to accept a word.

use vstd::prelude::*;
use crate::graph::connects;

verus! {

/// States are integers below `size`, the next identifier to hand out.
/// `eps` holds the epsilon edges and `arcs` the edges labelled with a
/// character.
#[verifier::ext_equal]
pub struct Automaton {
    pub size: nat,
    pub states: Set<int>,
    pub start: int,
    pub accepts: Set<int>,
    pub eps: Set<(int, int)>,
    pub arcs: Set<(int, char, int)>,
}

/// The characters that a class letter stands for.
pub open spec fn in_class(letter: char, c: char) -> bool {
    if letter == '.' {
        c == '\t' || ' ' <= c <= '~'
    } else if letter == 's' {
        'A' <= c <= 'Z' || 'a' <= c <= 'z'
    } else if letter == 'S' {
        c == '\t' || ' ' <= c <= '@' || '[' <= c <= '`' || '{' <= c <= '~'
    } else if letter == 'd' {
        '0' <= c <= '9'
    } else if letter == 'D' {
        c == '\t' || ' ' <= c <= '.' || ':' <= c <= '~'
    } else if letter == 'w' {
        c == '\t' || c == ' '
    } else if letter == 'W' {
        '!' <= c <= '~'
    } else {
        false
    }
}

/// The number of integers below `n` that `set` holds.
pub open spec fn count_below(set: Set<int>, n: nat) -> nat
    decreases n,
{
    if n == 0 {
        0
    } else {
        count_below(set, (n - 1) as nat) + if set.contains(n - 1) { 1nat } else { 0nat }
    }
}

impl Automaton {
    /// Every identifier in use is below `size`.
    pub open spec fn bounded(self) -> bool {
        &&& 0 <= self.start < self.size
        &&& forall|q: int| #[trigger] self.states.contains(q) ==> 0 <= q < self.size
        &&& forall|q: int| #[trigger] self.accepts.contains(q) ==> 0 <= q < self.size
        &&& forall|p: int, q: int| #[trigger]
            self.eps.contains((p, q)) ==> 0 <= p < self.size && 0 <= q < self.size
        &&& forall|p: int, c: char, q: int| #[trigger]
            self.arcs.contains((p, c, q)) ==> 0 <= p < self.size && 0 <= q < self.size
    }

    /// The start state, the accepting states and both ends of every edge
    /// are states.
    pub open spec fn proper(self) -> bool {
        &&& self.states.contains(self.start)
        &&& forall|q: int| #[trigger] self.accepts.contains(q) ==> self.states.contains(q)
        &&& forall|p: int, q: int| #[trigger]
            self.eps.contains((p, q)) ==> self.states.contains(p) && self.states.contains(q)
        &&& forall|p: int, c: char, q: int| #[trigger]
            self.arcs.contains((p, c, q)) ==> self.states.contains(p) && self.states.contains(q)
    }

    /// No epsilon edge is left.
    pub open spec fn eps_free(self) -> bool {
        forall|p: int, q: int| !(#[trigger] self.eps.contains((p, q)))
    }

    /// Some edge, of either kind, leads from `p` to `q`.
    pub open spec fn edge(self, p: int, q: int) -> bool {
        self.eps.contains((p, q)) || exists|c: char| self.arcs.contains((p, c, q))
    }

    /// The relation "some edge leads from `p` to `q`".
    pub open spec fn edge_rel(self) -> spec_fn(int, int) -> bool {
        |p: int, q: int| self.edge(p, q)
    }

    /// The relation "an epsilon edge leads from `p` to `q`".
    pub open spec fn eps_rel(self) -> spec_fn(int, int) -> bool {
        |p: int, q: int| self.eps.contains((p, q))
    }

    /// `q` can be reached from the start state along edges.
    pub open spec fn reachable(self, q: int) -> bool {
        connects(self.edge_rel(), self.start, q)
    }

    /// `q` can be reached from `p` along zero or more epsilon edges.
    pub open spec fn eps_reaches(self, p: int, q: int) -> bool {
        connects(self.eps_rel(), p, q)
    }

    /// Every state can be reached from the start state.
    pub open spec fn trim(self) -> bool {
        forall|q: int| #[trigger] self.states.contains(q) ==> self.reachable(q)
    }

    /// What holds of an automaton once it has been closed under epsilon
    /// edges and pruned: no epsilon edge, every state reachable, every edge
    /// between states.
    pub open spec fn compiled(self) -> bool {
        &&& self.bounded()
        &&& self.proper()
        &&& self.eps_free()
        &&& self.trim()
    }

    // ----- constructions -----

    /// One state, which is the start state and does not accept.
    pub open spec fn blank() -> Automaton {
        Automaton {
            size: 1,
            states: set![0int],
            start: 0,
            accepts: Set::empty(),
            eps: Set::empty(),
            arcs: Set::empty(),
        }
    }

    /// A fresh state is added; its identifier is the old `size`.
    pub open spec fn with_state(self) -> Automaton {
        Automaton { size: self.size + 1, states: self.states.insert(self.size as int), ..self }
    }

    pub open spec fn with_accept(self, q: int) -> Automaton {
        Automaton { accepts: self.accepts.insert(q), ..self }
    }

    pub open spec fn with_eps(self, p: int, q: int) -> Automaton {
        Automaton { eps: self.eps.insert((p, q)), ..self }
    }

    pub open spec fn with_arc(self, p: int, c: char, q: int) -> Automaton {
        Automaton { arcs: self.arcs.insert((p, c, q)), ..self }
    }

    /// An edge from `p` to `q` for every character from `lo` to `hi`.
    pub open spec fn with_arc_range(self, p: int, lo: u8, hi: u8, q: int) -> Automaton {
        Automaton {
            arcs: Set::new(
                |e: (int, char, int)|
                    self.arcs.contains(e) || (e.0 == p && e.2 == q && lo as char <= e.1 <= hi as char),
            ),
            ..self
        }
    }

    pub open spec fn with_start(self, q: int) -> Automaton {
        Automaton { start: q, ..self }
    }

    /// Epsilon edges from `p` to every state of `targets`.
    pub open spec fn with_eps_to(self, p: int, targets: Set<int>) -> Automaton {
        Automaton {
            eps: Set::new(|e: (int, int)| self.eps.contains(e) || (e.0 == p && targets.contains(e.1))),
            ..self
        }
    }

    /// Epsilon edges from every state of `sources` to `q`.
    pub open spec fn with_eps_from(self, sources: Set<int>, q: int) -> Automaton {
        Automaton {
            eps: Set::new(|e: (int, int)| self.eps.contains(e) || (sources.contains(e.0) && e.1 == q)),
            ..self
        }
    }

    /// Two states and one edge labelled `c` from the first to the second,
    /// which accepts.
    pub open spec fn single(c: char) -> Automaton {
        Automaton {
            size: 2,
            states: set![0int, 1int],
            start: 0,
            accepts: set![1int],
            eps: Set::empty(),
            arcs: set![(0int, c, 1int)],
        }
    }

    /// Two states and one edge for every character of the class.
    pub open spec fn class(letter: char) -> Automaton {
        Automaton {
            size: 2,
            states: set![0int, 1int],
            start: 0,
            accepts: set![1int],
            eps: Set::empty(),
            arcs: Set::new(|e: (int, char, int)| e.0 == 0 && e.2 == 1 && in_class(letter, e.1)),
        }
    }

    /// Every identifier is raised by `k`.
    pub open spec fn shifted(self, k: nat) -> Automaton {
        Automaton {
            size: self.size + k,
            states: Set::new(|q: int| self.states.contains(q - k)),
            start: self.start + k,
            accepts: Set::new(|q: int| self.accepts.contains(q - k)),
            eps: Set::new(|e: (int, int)| self.eps.contains((e.0 - k, e.1 - k))),
            arcs: Set::new(|e: (int, char, int)| self.arcs.contains((e.0 - k, e.1, e.2 - k))),
        }
    }

    /// The states and edges of `other`, raised by `self.size`, are added.
    /// Start and accepting states stay those of `self`.
    pub open spec fn absorbing(self, other: Automaton) -> Automaton {
        let o = other.shifted(self.size);
        Automaton {
            size: o.size,
            states: self.states.union(o.states),
            start: self.start,
            accepts: self.accepts,
            eps: self.eps.union(o.eps),
            arcs: self.arcs.union(o.arcs),
        }
    }

    /// `self`, then `next`: every accepting state of `self` gets an epsilon
    /// edge to the start of `next`, and only the accepting states of `next`
    /// accept.
    pub open spec fn followed_by(self, next: Automaton) -> Automaton {
        let o = next.shifted(self.size);
        Automaton { accepts: o.accepts, ..self.absorbing(next).with_eps_from(self.accepts, o.start) }
    }

    /// `self` or `other`: the start state gets an epsilon edge to the start
    /// of `other`, whose accepting states accept too.
    pub open spec fn or_else(self, other: Automaton) -> Automaton {
        let o = other.shifted(self.size);
        Automaton {
            accepts: self.accepts.union(o.accepts),
            ..self.absorbing(other).with_eps(self.start, o.start)
        }
    }

    /// The automaton that accepts only the empty word.
    pub open spec fn unit() -> Automaton {
        Automaton::blank().with_accept(0)
    }

    /// The parts one after the other, behind a fresh start state.
    pub open spec fn concat_all(parts: Seq<Automaton>) -> Automaton
        decreases parts.len(),
    {
        if parts.len() == 0 {
            Automaton::unit()
        } else {
            Automaton::concat_all(parts.drop_last()).followed_by(parts.last())
        }
    }

    /// The parts side by side, behind a fresh start state.
    pub open spec fn union_all(parts: Seq<Automaton>) -> Automaton
        decreases parts.len(),
    {
        if parts.len() == 0 {
            Automaton::blank()
        } else {
            Automaton::union_all(parts.drop_last()).or_else(parts.last())
        }
    }

    /// One or more repetitions: every accepting state gets an epsilon edge
    /// back to the start.
    pub open spec fn plus(self) -> Automaton {
        self.with_eps_from(self.accepts, self.start)
    }

    /// Zero or one occurrence: the start state accepts too.
    pub open spec fn question(self) -> Automaton {
        self.with_accept(self.start)
    }

    /// Zero or more repetitions.
    pub open spec fn star(self) -> Automaton {
        self.plus().question()
    }

    /// `t` is `s` or can be reached from `s` along epsilon edges.
    /// After the closure every state has the labelled edges of all such
    /// `t`, accepts if one of them does, and no epsilon edge is left.
    pub open spec fn eps_closed(self) -> Automaton {
        Automaton {
            accepts: Set::new(
                |s: int|
                    exists|t: int| self.eps_reaches(s, t) && self.accepts.contains(t),
            ),
            eps: Set::empty(),
            arcs: Set::new(
                |e: (int, char, int)|
                    exists|t: int| self.eps_reaches(e.0, t) && self.arcs.contains((t, e.1, e.2)),
            ),
            ..self
        }
    }

    /// The states that cannot be reached from the start state are removed,
    /// with their edges.
    pub open spec fn pruned(self) -> Automaton {
        Automaton {
            states: Set::new(|q: int| self.states.contains(q) && self.reachable(q)),
            accepts: Set::new(
                |q: int| self.accepts.contains(q) && !(self.states.contains(q) && !self.reachable(q)),
            ),
            eps: Set::new(
                |e: (int, int)|
                    self.eps.contains(e) && !(self.states.contains(e.0) && !self.reachable(e.0)),
            ),
            arcs: Set::new(
                |e: (int, char, int)|
                    self.arcs.contains(e) && !(self.states.contains(e.0) && !self.reachable(e.0)),
            ),
            ..self
        }
    }

    /// Every edge is turned round, and the old start state is the one
    /// accepting state.
    pub open spec fn reversed(self) -> Automaton {
        Automaton {
            accepts: set![self.start],
            eps: Set::new(|e: (int, int)| self.eps.contains((e.1, e.0))),
            arcs: Set::new(|e: (int, char, int)| self.arcs.contains((e.2, e.1, e.0))),
            ..self
        }
    }

    /// A fresh start state stands for the states of `frontier`: it gets an
    /// epsilon edge to each, then the automaton is closed and pruned.
    pub open spec fn rewired(self, frontier: Set<int>) -> Automaton {
        self.with_state().with_start(self.size as int).with_eps_to(
            self.size as int,
            frontier,
        ).eps_closed().pruned()
    }

    // ----- reading words -----

    /// The states that an edge labelled `c` leads to from a state of `from`.
    pub open spec fn step(self, from: Set<int>, c: char) -> Set<int> {
        Set::new(|r: int| exists|q: int| from.contains(q) && self.arcs.contains((q, c, r)))
    }

    /// The states that reading `w` leads to from a state of `from`, along
    /// labelled edges.
    pub open spec fn run(self, from: Set<int>, w: Seq<char>) -> Set<int>
        decreases w.len(),
    {
        if w.len() == 0 {
            from
        } else {
            self.step(self.run(from, w.drop_last()), w.last())
        }
    }

    /// The states of `from` and those that epsilon edges lead to from them.
    pub open spec fn eclose(self, from: Set<int>) -> Set<int> {
        Set::new(|t: int| exists|s: int| from.contains(s) && self.eps_reaches(s, t))
    }

    /// The states that reading `w` leads to from a state of `from`, along
    /// labelled edges and any number of epsilon edges before, between and
    /// behind them.
    pub open spec fn erun(self, from: Set<int>, w: Seq<char>) -> Set<int>
        decreases w.len(),
    {
        if w.len() == 0 {
            self.eclose(from)
        } else {
            self.eclose(self.step(self.erun(from, w.drop_last()), w.last()))
        }
    }

    /// The automaton accepts `w`, epsilon edges counted.
    pub open spec fn recognizes(self, w: Seq<char>) -> bool {
        self.hits_accept(self.erun(set![self.start], w))
    }

    /// One of `set` accepts.
    pub open spec fn hits_accept(self, set: Set<int>) -> bool {
        exists|q: int| set.contains(q) && self.accepts.contains(q)
    }

    /// Reading `w` from a state of `from` can end in an accepting state.
    pub open spec fn accepts_from(self, from: Set<int>, w: Seq<char>) -> bool {
        self.hits_accept(self.run(from, w))
    }

    /// The automaton accepts `w`.
    pub open spec fn accepts_word(self, w: Seq<char>) -> bool {
        self.accepts_from(set![self.start], w)
    }

    // ----- the literal walk -----

    /// State `q` does not accept, has no epsilon edge, and all its edges
    /// carry the label `c`, of which it has at least one and none to
    /// itself.
    pub open spec fn reads_only(self, q: int, c: char) -> bool {
        &&& !self.accepts.contains(q)
        &&& forall|r: int| !self.eps.contains((q, r))
        &&& !self.arcs.contains((q, c, q))
        &&& exists|r: int| self.arcs.contains((q, c, r))
        &&& forall|c2: char, r: int| self.arcs.contains((q, c2, r)) ==> c2 == c
    }

    /// The walk can go on from the frontier `f` by the character `c`: the
    /// frontier is not empty and every state of it reads only `c`.
    pub open spec fn extends_by(self, f: Set<int>, c: char) -> bool {
        &&& exists|q: int| f.contains(q)
        &&& forall|q: int| f.contains(q) ==> self.reads_only(q, c)
    }

    /// The walk can go on from `f`.
    pub open spec fn can_extend(self, f: Set<int>) -> bool {
        exists|c: char| self.extends_by(f, c)
    }

    /// The character by which the walk goes on from `f`.
    pub open spec fn next_char(self, f: Set<int>) -> char {
        choose|c: char| self.extends_by(f, c)
    }

    /// The characters that the walk collects from the frontier `f` in at
    /// most `fuel` steps.
    pub open spec fn walk_word(self, f: Set<int>, fuel: nat) -> Seq<char>
        decreases fuel,
    {
        if fuel == 0 || !self.can_extend(f) {
            Seq::empty()
        } else {
            seq![self.next_char(f)] + self.walk_word(
                self.step(f, self.next_char(f)),
                (fuel - 1) as nat,
            )
        }
    }

    /// The frontier at which the walk from `f` stops.
    pub open spec fn walk_end(self, f: Set<int>, fuel: nat) -> Set<int>
        decreases fuel,
    {
        if fuel == 0 || !self.can_extend(f) {
            f
        } else {
            self.walk_end(self.step(f, self.next_char(f)), (fuel - 1) as nat)
        }
    }

    /// The literal with which every accepted word begins, as the walk from
    /// the start state finds it. The walk takes at most `size` steps.
    pub open spec fn literal_prefix(self) -> Seq<char> {
        self.walk_word(set![self.start], self.size)
    }

    /// The states in which the automaton can be once it has read the
    /// literal prefix.
    pub open spec fn prefix_frontier(self) -> Set<int> {
        self.walk_end(set![self.start], self.size)
    }

    /// The literal with which every accepted word ends: the walk goes
    /// backwards from the accepting states, so its characters are turned
    /// round.
    pub open spec fn literal_suffix(self) -> Seq<char> {
        self.reversed().walk_word(self.accepts, self.size).reverse()
    }

    /// The states from which the literal suffix leads to acceptance.
    pub open spec fn suffix_frontier(self) -> Set<int> {
        self.reversed().walk_end(self.accepts, self.size)
    }

    /// The walk goes on by one character only.
    pub proof fn lemma_next_char(self, f: Set<int>, c: char)
        requires
            self.extends_by(f, c),
        ensures
            self.can_extend(f),
            self.next_char(f) == c,
    {
        let d = self.next_char(f);
        assert(self.extends_by(f, d));
        let q = choose|q: int| f.contains(q);
        assert(self.reads_only(q, c));
        assert(self.reads_only(q, d));
        let r = choose|r: int| self.arcs.contains((q, c, r));
        assert(self.arcs.contains((q, c, r)));
    }

    // ----- matching in a line -----

    /// The states in which the automaton can be when it has read `line`
    /// from position `o` to position `e`.
    pub open spec fn reach(self, line: Seq<char>, o: int, e: int) -> Set<int> {
        self.run(set![self.start], line.subrange(o, e))
    }

    /// The end of the longest match that begins at `from` and ends at or
    /// before `e`. The empty match counts, and ends at `from`.
    pub open spec fn longest_upto(self, line: Seq<char>, from: int, e: int) -> Option<int>
        decreases e - from,
    {
        if e <= from {
            if self.accepts.contains(self.start) {
                Some(from)
            } else {
                None
            }
        } else if e <= line.len() && self.hits_accept(self.reach(line, from, e)) {
            Some(e)
        } else {
            self.longest_upto(line, from, e - 1)
        }
    }

    /// The end of the longest match in `line` that begins at `from`.
    pub open spec fn longest_match(self, line: Seq<char>, from: int) -> Option<int> {
        self.longest_upto(line, from, line.len() as int)
    }

    /// What the search from the anchors `starts[k..]` reports, one entry
    /// for each: the end of the longest match from the anchor, or 0 where
    /// there is none or where the match would begin before `mark`, the end
    /// of the last match reported. A match begins `plen` before its
    /// anchor.
    pub open spec fn anchored(
        self,
        line: Seq<char>,
        starts: Seq<int>,
        plen: int,
        k: int,
        mark: int,
    ) -> Seq<int>
        decreases starts.len() - k,
    {
        if k < 0 || k >= starts.len() {
            Seq::empty()
        } else if starts[k] - plen < mark {
            seq![0int] + self.anchored(line, starts, plen, k + 1, mark)
        } else {
            match self.longest_match(line, starts[k]) {
                Some(e) => seq![e] + self.anchored(line, starts, plen, k + 1, e),
                None => seq![0int] + self.anchored(line, starts, plen, k + 1, mark),
            }
        }
    }

    /// `o` is the first position from which reading up to `e` can end in
    /// state `q`.
    pub open spec fn first_reach(self, line: Seq<char>, o: int, e: int, q: int) -> bool {
        &&& 0 <= o < e <= line.len()
        &&& self.reach(line, o, e).contains(q)
        &&& forall|p: int| 0 <= p < o ==> !self.reach(line, p, e).contains(q)
    }

    /// A match that ends at `e` is credited to position `o`: some accepting
    /// state is reached at `e`, and `o` is the first position from which it
    /// is. Where the start state accepts, the position before `e` is
    /// credited too.
    pub open spec fn ends_at(self, line: Seq<char>, o: int, e: int) -> bool {
        ||| (o == e - 1 && 0 <= o && e <= line.len() && self.accepts.contains(self.start))
        ||| exists|q: int| self.accepts.contains(q) && self.first_reach(line, o, e, q)
    }

    /// The last end up to `e` that is credited to `o`, or 0.
    pub open spec fn match_end_upto(self, line: Seq<char>, o: int, e: int) -> int
        decreases e,
    {
        if e <= 0 {
            0
        } else if self.ends_at(line, o, e) {
            e
        } else {
            self.match_end_upto(line, o, e - 1)
        }
    }

    /// The end of the match that the search over the whole line reports
    /// for position `o`, or 0.
    pub open spec fn match_end(self, line: Seq<char>, o: int) -> int {
        self.match_end_upto(line, o, line.len() as int)
    }

    /// Reading no character leaves the automaton in its start state.
    pub proof fn lemma_reach_none(self, line: Seq<char>, o: int)
        requires
            0 <= o <= line.len(),
        ensures
            self.reach(line, o, o) == set![self.start],
    {
        assert(line.subrange(o, o).len() == 0);
    }

    /// Reading one character more is one step.
    pub proof fn lemma_reach_step(self, line: Seq<char>, o: int, e: int)
        requires
            0 <= o <= e < line.len(),
        ensures
            self.reach(line, o, e + 1) == self.step(self.reach(line, o, e), line[e]),
    {
        let w = line.subrange(o, e + 1);
        assert(w.drop_last() =~= line.subrange(o, e));
        assert(w.last() == line[e]);
    }

    /// From no state a step leads nowhere.
    pub proof fn lemma_step_none(self, c: char)
        ensures
            self.step(Set::empty(), c) == Set::<int>::empty(),
    {
        assert(self.step(Set::empty(), c) =~= Set::<int>::empty());
    }

    /// Once no state is left, no longer match is found.
    pub proof fn lemma_dead(self, line: Seq<char>, from: int, j: int, e: int)
        requires
            0 <= from <= j <= e <= line.len(),
            self.reach(line, from, j) == Set::<int>::empty(),
        ensures
            self.reach(line, from, e) == Set::<int>::empty(),
            self.longest_upto(line, from, e) == self.longest_upto(line, from, j),
        decreases e - j,
    {
        if e > j {
            self.lemma_dead(line, from, j, e - 1);
            self.lemma_reach_step(line, from, e - 1);
            self.lemma_step_none(line[e - 1]);
        }
    }
}

} // verus!
