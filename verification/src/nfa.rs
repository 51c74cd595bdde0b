//! Automata as data: construction from a pattern's syntax tree, closure
//! under epsilon edges and pruning.

use vstd::prelude::*;
use crate::automaton::{count_below, Automaton};
use crate::graph::{connects, edges_of, has_edge, reach_from, reached, lemma_connects_same, lemma_connects_first_step};

verus! {

/// The identifier of a state.
#[derive(Clone, Copy, Debug, PartialEq, Eq, Hash, PartialOrd, Ord)]
pub struct State {
    pub id: usize,
}

/// The label of an edge.
#[derive(Clone, Copy, Debug, PartialEq, Eq, Hash)]
pub enum Transition {
    Epsilon,
    Char(char),
}

/// A labelled edge, as stored with its source state.
#[derive(Clone, Copy, Debug)]
pub struct Edge {
    pub label: char,
    pub to: usize,
}

/// A nondeterministic finite automaton. State `q` is described by the
/// entries at index `q`: whether it exists, whether it accepts, and its
/// outgoing edges.
#[derive(Debug, Clone)]
pub struct NFA {
    pub(crate) live: Vec<bool>,
    pub(crate) accepting: Vec<bool>,
    pub(crate) eps: Vec<Vec<usize>>,
    pub(crate) arcs: Vec<Vec<Edge>>,
    pub(crate) start: usize,
}

/// `q` occurs in `row`.
pub open spec fn row_has(row: Seq<usize>, q: int) -> bool {
    exists|k: int| 0 <= k < row.len() && #[trigger] row[k] == q
}

/// An edge labelled `c` to `q` occurs in `row`.
pub open spec fn row_has_arc(row: Seq<Edge>, c: char, q: int) -> bool {
    exists|k: int| 0 <= k < row.len() && (#[trigger] row[k]).label == c && row[k].to == q
}

/// The automaton that the five fields describe.
pub open spec fn model(
    live: Seq<bool>,
    accepting: Seq<bool>,
    eps: Seq<Vec<usize>>,
    arcs: Seq<Vec<Edge>>,
    start: int,
) -> Automaton {
    Automaton {
        size: live.len(),
        states: Set::new(|q: int| 0 <= q < live.len() && live[q]),
        start: start,
        accepts: Set::new(|q: int| 0 <= q < accepting.len() && accepting[q]),
        eps: Set::new(|e: (int, int)| 0 <= e.0 < eps.len() && row_has(eps[e.0]@, e.1)),
        arcs: Set::new(
            |e: (int, char, int)| 0 <= e.0 < arcs.len() && row_has_arc(arcs[e.0]@, e.1, e.2),
        ),
    }
}

/// The rows have one entry per state and name only states below `n`.
pub open spec fn rows_ok(
    n: nat,
    accepting: Seq<bool>,
    eps: Seq<Vec<usize>>,
    arcs: Seq<Vec<Edge>>,
) -> bool {
    &&& accepting.len() == n
    &&& eps.len() == n
    &&& arcs.len() == n
    &&& forall|p: int, k: int|
        0 <= p < n && 0 <= k < eps[p]@.len() ==> (#[trigger] eps[p]@[k]) < n
    &&& forall|p: int, k: int|
        0 <= p < n && 0 <= k < arcs[p]@.len() ==> (#[trigger] arcs[p]@[k]).to < n
}

impl View for NFA {
    type V = Automaton;

    closed spec fn view(&self) -> Automaton {
        model(self.live@, self.accepting@, self.eps@, self.arcs@, self.start as int)
    }
}

impl NFA {
    /// The representation is consistent.
    pub closed spec fn wf(&self) -> bool {
        &&& rows_ok(self.live@.len(), self.accepting@, self.eps@, self.arcs@)
        &&& self.start < self.live@.len()
    }

    /// In a consistent automaton every identifier in use is below `size`.
    pub proof fn lemma_bounded(&self)
        requires
            self.wf(),
        ensures
            self@.bounded(),
            self@.size <= usize::MAX,
    {
        let a = self@;
        assert(self.live@.len() == self.live.len());
        assert forall|p: int, q: int| #[trigger] a.eps.contains((p, q)) implies 0 <= p < a.size
            && 0 <= q < a.size by {
            let k = choose|k: int| 0 <= k < self.eps@[p]@.len() && #[trigger] self.eps@[p]@[k] == q;
            assert(self.eps@[p]@[k] < a.size);
        }
        assert forall|p: int, c: char, q: int| #[trigger] a.arcs.contains((p, c, q)) implies 0 <= p
            < a.size && 0 <= q < a.size by {
            let k = choose|k: int|
                0 <= k < self.arcs@[p]@.len() && (#[trigger] self.arcs@[p]@[k]).label == c
                    && self.arcs@[p]@[k].to == q;
            assert(self.arcs@[p]@[k].to < a.size);
        }
    }

    /// An automaton with one state, the start state.
    pub fn new() -> (nfa: NFA)
        ensures
            nfa.wf(),
            nfa@ == Automaton::blank(),
    {
        let mut live: Vec<bool> = Vec::new();
        live.push(true);
        let mut accepting: Vec<bool> = Vec::new();
        accepting.push(false);
        let mut eps: Vec<Vec<usize>> = Vec::new();
        eps.push(Vec::new());
        let mut arcs: Vec<Vec<Edge>> = Vec::new();
        arcs.push(Vec::new());
        let nfa = NFA { live, accepting, eps, arcs, start: 0 };
        assert(nfa@ =~= Automaton::blank());
        nfa
    }

    /// The number of identifiers handed out so far.
    pub fn size(&self) -> (n: usize)
        requires
            self.wf(),
        ensures
            n == self@.size,
    {
        self.live.len()
    }

    /// The number of states.
    pub fn get_len(&self) -> (n: usize)
        requires
            self.wf(),
        ensures
            n == count_below(self@.states, self@.size),
    {
        let mut n: usize = 0;
        let mut q: usize = 0;
        while q < self.live.len()
            invariant
                q <= self.live@.len(),
                n <= q,
                n == count_below(self@.states, q as nat),
            decreases self.live@.len() - q,
        {
            if self.live[q] {
                n += 1;
            }
            q += 1;
        }
        n
    }

    /// The number of accepting states.
    pub fn accept_len(&self) -> (n: usize)
        requires
            self.wf(),
        ensures
            n == count_below(self@.accepts, self@.size),
    {
        let mut n: usize = 0;
        let mut q: usize = 0;
        while q < self.accepting.len()
            invariant
                q <= self.accepting@.len(),
                self.accepting@.len() == self.live@.len(),
                n <= q,
                n == count_below(self@.accepts, q as nat),
            decreases self.accepting@.len() - q,
        {
            if self.accepting[q] {
                n += 1;
            }
            q += 1;
        }
        n
    }

    /// The labelled edges that leave `s`.
    pub fn arcs_from(&self, s: State) -> (row: &Vec<Edge>)
        requires
            self.wf(),
            s.id < self@.size,
        ensures
            forall|c: char, r: int| #[trigger]
                row_has_arc(row@, c, r) <==> self@.arcs.contains((s.id as int, c, r)),
            forall|k: int| 0 <= k < row@.len() ==> (#[trigger] row@[k]).to < self@.size,
    {
        &self.arcs[s.id]
    }

    /// The targets of the epsilon edges that leave `s`.
    pub fn eps_from(&self, s: State) -> (row: &Vec<usize>)
        requires
            self.wf(),
            s.id < self@.size,
        ensures
            forall|r: int| #[trigger] row_has(row@, r) <==> self@.eps.contains((s.id as int, r)),
            forall|k: int| 0 <= k < row@.len() ==> (#[trigger] row@[k]) < self@.size,
    {
        &self.eps[s.id]
    }

    /// Makes `s` the start state.
    pub fn set_start(&mut self, s: State)
        requires
            old(self).wf(),
            s.id < old(self)@.size,
        ensures
            final(self).wf(),
            final(self)@ == old(self)@.with_start(s.id as int),
    {
        self.start = s.id;
        assert(self@ =~= old(self)@.with_start(s.id as int));
    }

    /// The identifier of the start state.
    pub fn start_state(&self) -> (s: State)
        ensures
            s.id == self@.start,
    {
        State { id: self.start }
    }

    /// Whether `s` is a state of the automaton.
    pub fn has_state(&self, s: State) -> (b: bool)
        requires
            self.wf(),
        ensures
            b == self@.states.contains(s.id as int),
    {
        s.id < self.live.len() && self.live[s.id]
    }

    /// Whether `s` is an accepting state.
    pub fn is_accepting(&self, s: State) -> (b: bool)
        requires
            self.wf(),
        ensures
            b == self@.accepts.contains(s.id as int),
    {
        s.id < self.accepting.len() && self.accepting[s.id]
    }

    /// Adds a fresh state and returns it.
    pub fn add_state(&mut self) -> (s: State)
        requires
            old(self).wf(),
        ensures
            final(self).wf(),
            final(self)@ == old(self)@.with_state(),
            s.id == old(self)@.size,
    {
        let id = self.live.len();
        self.live.push(true);
        self.accepting.push(false);
        self.eps.push(Vec::new());
        self.arcs.push(Vec::new());
        assert(self@ =~= old(self)@.with_state());
        State { id }
    }

    /// Makes `s` an accepting state.
    pub fn add_accept(&mut self, s: State)
        requires
            old(self).wf(),
            s.id < old(self)@.size,
        ensures
            final(self).wf(),
            final(self)@ == old(self)@.with_accept(s.id as int),
    {
        self.accepting.set(s.id, true);
        assert(self@ =~= old(self)@.with_accept(s.id as int));
    }

    /// Adds an edge from `from` to `to`, unless it is there already.
    pub fn add_transition(&mut self, from: State, transition: Transition, to: State)
        requires
            old(self).wf(),
            from.id < old(self)@.size,
            to.id < old(self)@.size,
        ensures
            final(self).wf(),
            final(self)@ == (match transition {
                Transition::Epsilon => old(self)@.with_eps(from.id as int, to.id as int),
                Transition::Char(c) => old(self)@.with_arc(from.id as int, c, to.id as int),
            }),
    {
        match transition {
            Transition::Epsilon => {
                if !id_in_row(&self.eps[from.id], to.id) {
                    self.eps[from.id].push(to.id);
                    proof {
                        let before = old(self).eps@[from.id as int]@;
                        let after = self.eps@[from.id as int]@;
                        assert(after[before.len() as int] == to.id);
                        assert forall|e: (int, int)|
                            self@.eps.contains(e) <==> old(self)@.with_eps(
                                from.id as int,
                                to.id as int,
                            ).eps.contains(e) by {
                            if old(self)@.eps.contains(e) {
                                let k = choose|k: int|
                                    0 <= k < old(self).eps@[e.0]@.len() && #[trigger] old(
                                        self,
                                    ).eps@[e.0]@[k] == e.1;
                                assert(self.eps@[e.0]@[k] == e.1);
                            }
                        }
                    }
                }
                assert(self@ =~= old(self)@.with_eps(from.id as int, to.id as int));
            },
            Transition::Char(c) => {
                if !arc_in_row(&self.arcs[from.id], c, to.id) {
                    self.arcs[from.id].push(Edge { label: c, to: to.id });
                    proof {
                        let before = old(self).arcs@[from.id as int]@;
                        let after = self.arcs@[from.id as int]@;
                        assert(after[before.len() as int].label == c);
                        assert forall|e: (int, char, int)|
                            self@.arcs.contains(e) <==> old(self)@.with_arc(
                                from.id as int,
                                c,
                                to.id as int,
                            ).arcs.contains(e) by {
                            if old(self)@.arcs.contains(e) {
                                let k = choose|k: int|
                                    0 <= k < old(self).arcs@[e.0]@.len() && (#[trigger] old(
                                        self,
                                    ).arcs@[e.0]@[k]).label == e.1 && old(self).arcs@[e.0]@[k].to
                                        == e.2;
                                assert(self.arcs@[e.0]@[k].label == e.1);
                            }
                        }
                    }
                }
                assert(self@ =~= old(self)@.with_arc(from.id as int, c, to.id as int));
            },
        }
    }

    /// Adds an edge with the label `transition` from `from` to every
    /// state of `to`.
    pub fn add_transitions(&mut self, from: State, transition: Transition, to: &Vec<State>)
        requires
            old(self).wf(),
            from.id < old(self)@.size,
            forall|k: int| 0 <= k < to@.len() ==> (#[trigger] to@[k]).id < old(self)@.size,
        ensures
            final(self).wf(),
            final(self)@.size == old(self)@.size,
            final(self)@.states == old(self)@.states,
            final(self)@.start == old(self)@.start,
            final(self)@.accepts == old(self)@.accepts,
            forall|e: (int, int)| #[trigger]
                final(self)@.eps.contains(e) <==> old(self)@.eps.contains(e) || (transition
                    == Transition::Epsilon && e.0 == from.id && exists|k: int|
                    0 <= k < to@.len() && (#[trigger] to@[k]).id == e.1),
            forall|e: (int, char, int)| #[trigger]
                final(self)@.arcs.contains(e) <==> old(self)@.arcs.contains(e) || (transition
                    == Transition::Char(e.1) && e.0 == from.id && exists|k: int|
                    0 <= k < to@.len() && (#[trigger] to@[k]).id == e.2),
    {
        let mut i: usize = 0;
        while i < to.len()
            invariant
                i <= to@.len(),
                self.wf(),
                from.id < self@.size,
                forall|k: int| 0 <= k < to@.len() ==> (#[trigger] to@[k]).id < self@.size,
                self@.size == old(self)@.size,
                self@.states == old(self)@.states,
                self@.start == old(self)@.start,
                self@.accepts == old(self)@.accepts,
                forall|e: (int, int)| #[trigger]
                    self@.eps.contains(e) <==> old(self)@.eps.contains(e) || (transition
                        == Transition::Epsilon && e.0 == from.id && exists|k: int|
                        0 <= k < i && (#[trigger] to@[k]).id == e.1),
                forall|e: (int, char, int)| #[trigger]
                    self@.arcs.contains(e) <==> old(self)@.arcs.contains(e) || (transition
                        == Transition::Char(e.1) && e.0 == from.id && exists|k: int|
                        0 <= k < i && (#[trigger] to@[k]).id == e.2),
            decreases to@.len() - i,
        {
            let ghost before = self@;
            self.add_transition(from, transition, to[i]);
            proof {
                assert forall|e: (int, int)| #[trigger]
                    self@.eps.contains(e) <==> old(self)@.eps.contains(e) || (transition
                        == Transition::Epsilon && e.0 == from.id && exists|k: int|
                        0 <= k < i + 1 && (#[trigger] to@[k]).id == e.1) by {
                    if before.eps.contains(e) && !old(self)@.eps.contains(e) {
                        let k = choose|k: int| 0 <= k < i && (#[trigger] to@[k]).id == e.1;
                        assert(to@[k].id == e.1);
                    }
                    if transition == Transition::Epsilon && e.0 == from.id && e.1
                        == to@[i as int].id {
                        assert(to@[i as int].id == e.1);
                    }
                }
                assert forall|e: (int, char, int)| #[trigger]
                    self@.arcs.contains(e) <==> old(self)@.arcs.contains(e) || (transition
                        == Transition::Char(e.1) && e.0 == from.id && exists|k: int|
                        0 <= k < i + 1 && (#[trigger] to@[k]).id == e.2) by {
                    if before.arcs.contains(e) && !old(self)@.arcs.contains(e) {
                        let k = choose|k: int| 0 <= k < i && (#[trigger] to@[k]).id == e.2;
                        assert(to@[k].id == e.2);
                    }
                    if transition == Transition::Char(e.1) && e.0 == from.id && e.2
                        == to@[i as int].id {
                        assert(to@[i as int].id == e.2);
                    }
                }
            }
            i += 1;
        }
    }

    /// Adds an edge from the start state to `to` for every character from
    /// `lo` to `hi`.
    pub fn add_transition_ch_list(&mut self, lo: u8, hi: u8, to: State)
        requires
            old(self).wf(),
            to.id < old(self)@.size,
        ensures
            final(self).wf(),
            final(self)@ == old(self)@.with_arc_range(old(self)@.start, lo, hi, to.id as int),
    {
        let from = State { id: self.start };
        let mut c: u16 = lo as u16;
        if lo > hi {
            assert(self@ =~= old(self)@.with_arc_range(old(self)@.start, lo, hi, to.id as int));
            return ;
        }
        assert(self.wf());
        while c <= hi as u16
            invariant
                lo <= c <= hi + 1,
                lo <= hi,
                self.wf(),
                from.id == old(self)@.start,
                from.id < self@.size,
                to.id < self@.size,
                self@.size == old(self)@.size,
                self@.states == old(self)@.states,
                self@.start == old(self)@.start,
                self@.accepts == old(self)@.accepts,
                self@.eps == old(self)@.eps,
                forall|e: (int, char, int)|
                    self@.arcs.contains(e) <==> (old(self)@.arcs.contains(e) || (e.0 == from.id
                        && e.2 == to.id && lo as int <= e.1 as int && (e.1 as int) < c)),
            decreases hi + 1 - c,
        {
            let ch = c as u8 as char;
            self.add_transition(from, Transition::Char(ch), to);
            c += 1;
        }
        assert(self@ =~= old(self)@.with_arc_range(old(self)@.start, lo, hi, to.id as int));
    }

    /// The automaton of a single character.
    pub fn from_char(c: char) -> (nfa: NFA)
        ensures
            nfa.wf(),
            nfa@ == Automaton::single(c),
    {
        let mut nfa = NFA::new();
        let accept_state = nfa.add_state();
        nfa.add_accept(accept_state);
        let start = nfa.start_state();
        proof {
            nfa.lemma_start();
        }
        nfa.add_transition(start, Transition::Char(c), accept_state);
        assert(nfa@ =~= Automaton::single(c));
        nfa
    }

    /// The automaton of a character class, named by its letter.
    pub fn from_char_class(c: char) -> (nfa: NFA)
        ensures
            nfa.wf(),
            nfa@ == Automaton::class(c),
    {
        let mut nfa = NFA::new();
        let accept_state = nfa.add_state();
        nfa.add_accept(accept_state);
        let start = nfa.start_state();
        proof {
            nfa.lemma_start();
        }
        let tab: char = '\t';
        if c == '.' {
            nfa.add_transition_ch_list(0x20u8, 0x7Eu8, accept_state);
            nfa.add_transition(start, Transition::Char(tab), accept_state);
        } else if c == 's' {
            nfa.add_transition_ch_list(0x41u8, 0x5Au8, accept_state);
            nfa.add_transition_ch_list(0x61u8, 0x7Au8, accept_state);
        } else if c == 'S' {
            nfa.add_transition_ch_list(0x20u8, 0x40u8, accept_state);
            nfa.add_transition_ch_list(0x5Bu8, 0x60u8, accept_state);
            nfa.add_transition_ch_list(0x7Bu8, 0x7Eu8, accept_state);
            nfa.add_transition(start, Transition::Char(tab), accept_state);
        } else if c == 'd' {
            nfa.add_transition_ch_list(0x30u8, 0x39u8, accept_state);
        } else if c == 'D' {
            nfa.add_transition_ch_list(0x20u8, 0x2Eu8, accept_state);
            nfa.add_transition_ch_list(0x3Au8, 0x7Eu8, accept_state);
            nfa.add_transition(start, Transition::Char(tab), accept_state);
        } else if c == 'w' {
            nfa.add_transition(start, Transition::Char(tab), accept_state);
            nfa.add_transition(start, Transition::Char(' '), accept_state);
        } else if c == 'W' {
            nfa.add_transition_ch_list(0x21u8, 0x7Eu8, accept_state);
        }
        assert(nfa@ =~= Automaton::class(c));
        nfa
    }

    /// Every identifier is raised by `shift_num`.
    pub fn modify_state_id(self, shift_num: usize) -> (nfa: NFA)
        requires
            self.wf(),
            self@.size + shift_num <= usize::MAX,
        ensures
            nfa.wf(),
            nfa@ == self@.shifted(shift_num as nat),
    {
        let mut live: Vec<bool> = Vec::new();
        let mut accepting: Vec<bool> = Vec::new();
        let mut eps: Vec<Vec<usize>> = Vec::new();
        let mut arcs: Vec<Vec<Edge>> = Vec::new();
        let mut i: usize = 0;
        while i < shift_num
            invariant
                i <= shift_num,
                live@.len() == i,
                accepting@.len() == i,
                eps@.len() == i,
                arcs@.len() == i,
                forall|q: int| 0 <= q < i ==> !(#[trigger] live@[q]),
                forall|q: int| 0 <= q < i ==> !(#[trigger] accepting@[q]),
                forall|q: int| 0 <= q < i ==> (#[trigger] eps@[q])@.len() == 0,
                forall|q: int| 0 <= q < i ==> (#[trigger] arcs@[q])@.len() == 0,
            decreases shift_num - i,
        {
            live.push(false);
            accepting.push(false);
            eps.push(Vec::new());
            arcs.push(Vec::new());
            i += 1;
        }
        let ghost base = model(live@, accepting@, eps@, arcs@, 0);
        append_rows(&mut live, &mut accepting, &mut eps, &mut arcs, &self, true);
        let nfa = NFA { live, accepting, eps, arcs, start: self.start + shift_num };
        proof {
            let k = shift_num as nat;
            assert(base.absorbing(self@).size == nfa@.size);
            assert(nfa@.states =~= self@.shifted(k).states);
            assert(nfa@.accepts =~= self@.shifted(k).accepts);
            assert(nfa@.eps =~= self@.shifted(k).eps);
            assert(nfa@.arcs =~= self@.shifted(k).arcs);
            assert(nfa@ =~= self@.shifted(k));
        }
        nfa
    }

    /// Adds the states and edges of `other`, raised by the present size.
    /// Returns the amount by which they were raised.
    pub fn absorb(&mut self, other: &NFA) -> (k: usize)
        requires
            old(self).wf(),
            other.wf(),
        ensures
            final(self).wf(),
            final(self)@ == old(self)@.absorbing(other@),
            k == old(self)@.size,
            k + other@.size <= usize::MAX,
    {
        let k = self.live.len();
        append_rows(&mut self.live, &mut self.accepting, &mut self.eps, &mut self.arcs, other, false);
        assert(self.live@.len() == self.live.len());
        k
    }

    /// The automata of `nfas` one after the other, behind a fresh start
    /// state.
    pub fn from_concatenation(nfas: Vec<NFA>) -> (nfa: NFA)
        requires
            forall|i: int| 0 <= i < nfas@.len() ==> (#[trigger] nfas@[i]).wf(),
        ensures
            nfa.wf(),
            nfa@ == Automaton::concat_all(nfas@.map_values(|n: NFA| n@)),
    {
        let mut nfa = NFA::new();
        let start = nfa.start_state();
        nfa.add_accept(start);
        let ghost parts = nfas@.map_values(|n: NFA| n@);
        let mut i: usize = 0;
        assert(parts.take(0) =~= Seq::<Automaton>::empty());
        while i < nfas.len()
            invariant
                i <= nfas@.len(),
                parts == nfas@.map_values(|n: NFA| n@),
                forall|j: int| 0 <= j < nfas@.len() ==> (#[trigger] nfas@[j]).wf(),
                nfa.wf(),
                nfa@ == Automaton::concat_all(parts.take(i as int)),
            decreases nfas@.len() - i,
        {
            let ghost before = nfa@;
            let n = &nfas[i];
            let k = nfa.absorb(n);
            let target = State { id: n.start + k };
            proof {
                n.lemma_bounded();
                nfa.lemma_bounded();
            }
            // Every accepting state so far leads on to the start of `n`.
            let mut q: usize = 0;
            while q < k
                invariant
                    q <= k,
                    k == before.size,
                    target.id == n@.start + k,
                    n.wf(),
                    nfa.wf(),
                    nfa@.size == k + n@.size,
                    nfa@.states == before.absorbing(n@).states,
                    nfa@.start == before.start,
                    nfa@.arcs == before.absorbing(n@).arcs,
                    before.bounded(),
                    forall|x: int| #[trigger] nfa@.accepts.contains(x) <==> before.accepts.contains(x) && x >= q,
                    forall|e: (int, int)| #[trigger]
                        nfa@.eps.contains(e) <==> before.absorbing(n@).eps.contains(e) || (
                        before.accepts.contains(e.0) && e.0 < q && e.1 == target.id),
                decreases k - q,
            {
                let s = State { id: q };
                if nfa.is_accepting(s) {
                    nfa.add_transition(s, Transition::Epsilon, target);
                    nfa.remove_accept(s);
                }
                q += 1;
            }
            // The accepting states of `n` are now the accepting ones.
            let mut r: usize = 0;
            while r < n.accepting.len()
                invariant
                    r <= n@.size,
                    k == before.size,
                    n.wf(),
                    nfa.wf(),
                    n.accepting@.len() == n@.size,
                    k + n@.size <= usize::MAX,
                    nfa@.size == k + n@.size,
                    nfa@.states == before.absorbing(n@).states,
                    nfa@.start == before.start,
                    nfa@.arcs == before.absorbing(n@).arcs,
                    nfa@.eps == before.absorbing(n@).with_eps_from(before.accepts, n@.start + k).eps,
                    forall|x: int| #[trigger] nfa@.accepts.contains(x) <==> n@.accepts.contains(x - k) && x - k < r,
                decreases n@.size - r,
            {
                if n.accepting[r] {
                    nfa.add_accept(State { id: r + k });
                }
                r += 1;
            }
            proof {
                assert(parts.take(i + 1).drop_last() =~= parts.take(i as int));
                assert(parts.take(i + 1).last() == n@);
                assert(nfa@ =~= before.followed_by(n@));
            }
            i += 1;
        }
        assert(parts.take(nfas@.len() as int) =~= parts);
        nfa
    }

    /// The automata of `nfas` side by side, behind a fresh start state.
    pub fn from_union(nfas: Vec<NFA>) -> (nfa: NFA)
        requires
            forall|i: int| 0 <= i < nfas@.len() ==> (#[trigger] nfas@[i]).wf(),
        ensures
            nfa.wf(),
            nfa@ == Automaton::union_all(nfas@.map_values(|n: NFA| n@)),
    {
        let mut nfa = NFA::new();
        let ghost parts = nfas@.map_values(|n: NFA| n@);
        let mut i: usize = 0;
        assert(parts.take(0) =~= Seq::<Automaton>::empty());
        while i < nfas.len()
            invariant
                i <= nfas@.len(),
                parts == nfas@.map_values(|n: NFA| n@),
                forall|j: int| 0 <= j < nfas@.len() ==> (#[trigger] nfas@[j]).wf(),
                nfa.wf(),
                nfa@ == Automaton::union_all(parts.take(i as int)),
            decreases nfas@.len() - i,
        {
            let ghost before = nfa@;
            let n = &nfas[i];
            let k = nfa.absorb(n);
            let target = State { id: n.start + k };
            proof {
                n.lemma_bounded();
                nfa.lemma_bounded();
            }
            let mut r: usize = 0;
            while r < n.accepting.len()
                invariant
                    r <= n@.size,
                    k == before.size,
                    n.wf(),
                    nfa.wf(),
                    n.accepting@.len() == n@.size,
                    k + n@.size <= usize::MAX,
                    nfa@.size == k + n@.size,
                    nfa@.states == before.absorbing(n@).states,
                    nfa@.start == before.start,
                    nfa@.arcs == before.absorbing(n@).arcs,
                    nfa@.eps == before.absorbing(n@).eps,
                    forall|x: int| #[trigger] nfa@.accepts.contains(x) <==> before.accepts.contains(x) || (n@.accepts.contains(x - k) && x - k < r),
                decreases n@.size - r,
            {
                if n.accepting[r] {
                    nfa.add_accept(State { id: r + k });
                }
                r += 1;
            }
            let start = nfa.start_state();
            nfa.add_transition(start, Transition::Epsilon, target);
            proof {
                assert(parts.take(i + 1).drop_last() =~= parts.take(i as int));
                assert(parts.take(i + 1).last() == n@);
                assert(nfa@ =~= before.or_else(n@));
            }
            i += 1;
        }
        assert(parts.take(nfas@.len() as int) =~= parts);
        nfa
    }

    /// Zero or more repetitions of `nfa`.
    pub fn from_kleene_star(nfa: NFA) -> (res: NFA)
        requires
            nfa.wf(),
        ensures
            res.wf(),
            res@ == nfa@.star(),
    {
        let mut res = NFA::from_plus(nfa);
        let start = res.start_state();
        proof {
            res.lemma_start();
        }
        res.add_accept(start);
        res
    }

    /// One or more repetitions of `nfa`.
    pub fn from_plus(nfa: NFA) -> (res: NFA)
        requires
            nfa.wf(),
        ensures
            res.wf(),
            res@ == nfa@.plus(),
    {
        let mut res = nfa;
        let start = res.start_state();
        let n = res.accepting.len();
        proof {
            res.lemma_start();
            res.lemma_bounded();
        }
        let mut q: usize = 0;
        while q < n
            invariant
                q <= n,
                n == nfa@.size,
                start.id == nfa@.start,
                res.wf(),
                res@.size == nfa@.size,
                res@.states == nfa@.states,
                res@.start == nfa@.start,
                res@.accepts == nfa@.accepts,
                res@.arcs == nfa@.arcs,
                nfa@.bounded(),
                forall|e: (int, int)| #[trigger]
                    res@.eps.contains(e) <==> nfa@.eps.contains(e) || (nfa@.accepts.contains(e.0)
                        && e.0 < q && e.1 == nfa@.start),
            decreases n - q,
        {
            let s = State { id: q };
            if res.is_accepting(s) {
                res.add_transition(s, Transition::Epsilon, start);
            }
            q += 1;
        }
        assert(res@ =~= nfa@.plus());
        res
    }

    /// Zero or one occurrence of `nfa`.
    pub fn from_question_mark(nfa: NFA) -> (res: NFA)
        requires
            nfa.wf(),
        ensures
            res.wf(),
            res@ == nfa@.question(),
    {
        let mut res = nfa;
        let start = res.start_state();
        proof {
            res.lemma_start();
        }
        res.add_accept(start);
        res
    }

    /// Removes the epsilon edges: every state gets the labelled edges of
    /// the states that it reaches along epsilon edges, and accepts if one
    /// of them does.
    pub fn epsilon_close(&mut self)
        requires
            old(self).wf(),
        ensures
            final(self).wf(),
            final(self)@ == old(self)@.eps_closed(),
            old(self)@.sound() ==> final(self)@.sound() && final(self)@.eps_free(),
    {
        proof {
            if old(self)@.sound() {
                old(self)@.lemma_eps_closed_sound();
            }
        }
        let n = self.live.len();
        let mut new_arcs: Vec<Vec<Edge>> = Vec::new();
        let mut new_acc: Vec<bool> = Vec::new();
        let mut new_eps: Vec<Vec<usize>> = Vec::new();
        let ghost a = self@;
        proof {
            self.lemma_bounded();
            crate::graph::lemma_in_bounds(self.eps@);
        }
        let mut s: usize = 0;
        while s < n
            invariant
                s <= n,
                n == self.live@.len(),
                self.wf(),
                self@ == a,
                a.bounded(),
                crate::graph::in_bounds(self.eps@),
                new_arcs@.len() == s,
                new_acc@.len() == s,
                new_eps@.len() == s,
                forall|p: int| 0 <= p < s ==> (#[trigger] new_eps@[p])@.len() == 0,
                forall|p: int, k: int|
                    0 <= p < s && 0 <= k < new_arcs@[p]@.len() ==> (#[trigger] new_arcs@[p]@[k]).to
                        < n,
                forall|p: int|
                    0 <= p < s ==> (#[trigger] new_acc@[p] <==> exists|t: int|
                        a.eps_reaches(p, t) && a.accepts.contains(t)),
                forall|p: int, c: char, q: int|
                    0 <= p < s ==> (#[trigger] row_has_arc(new_arcs@[p]@, c, q) <==> exists|t: int|
                        a.eps_reaches(p, t) && a.arcs.contains((t, c, q))),
            decreases n - s,
        {
            let mut seeds: Vec<usize> = Vec::new();
            seeds.push(s);
            let mark = reach_from(&self.eps, &seeds);
            proof {
                assert forall|t: int| 0 <= t < n implies (#[trigger] mark@[t] <==> a.eps_reaches(
                    s as int,
                    t,
                )) by {
                    if mark@[t] {
                        let sd = choose|sd: int|
                            0 <= sd < seeds@.len() && connects(
                                edges_of(self.eps@),
                                #[trigger] seeds@[sd] as int,
                                t,
                            );
                        lemma_connects_same(edges_of(self.eps@), a.eps_rel(), s as int, t);
                    }
                    if a.eps_reaches(s as int, t) {
                        lemma_connects_same(a.eps_rel(), edges_of(self.eps@), s as int, t);
                        assert(seeds@[0] == s);
                        assert(reached(self.eps@, seeds@, t));
                    }
                }
            }
            let mut row: Vec<Edge> = Vec::new();
            let mut acc = false;
            let mut t: usize = 0;
            while t < n
                invariant
                    t <= n,
                    s < n,
                    n == self.live@.len(),
                    self.wf(),
                    self@ == a,
                    mark@.len() == n,
                    forall|x: int| 0 <= x < n ==> (#[trigger] mark@[x] <==> a.eps_reaches(s as int, x)),
                    forall|k: int| 0 <= k < row@.len() ==> (#[trigger] row@[k]).to < n,
                    acc <==> exists|x: int| 0 <= x < t && mark@[x] && a.accepts.contains(x),
                    forall|c: char, q: int| #[trigger]
                        row_has_arc(row@, c, q) <==> exists|x: int|
                            0 <= x < t && mark@[x] && a.arcs.contains((x, c, q)),
                decreases n - t,
            {
                if mark[t] {
                    if self.accepting[t] {
                        acc = true;
                    }
                    let src = &self.arcs[t];
                    let mut j: usize = 0;
                    while j < src.len()
                        invariant
                            j <= src@.len(),
                            t < n,
                            n == self.live@.len(),
                            self.wf(),
                            self@ == a,
                            mark@.len() == n,
                            mark@[t as int],
                            src@ == self.arcs@[t as int]@,
                            forall|k: int| 0 <= k < row@.len() ==> (#[trigger] row@[k]).to < n,
                            forall|c: char, q: int| #[trigger]
                                row_has_arc(row@, c, q) <==> (exists|x: int|
                                    0 <= x < t && mark@[x] && a.arcs.contains((x, c, q))) || (
                                exists|i: int|
                                    0 <= i < j && (#[trigger] src@[i]).label == c && src@[i].to
                                        == q),
                        decreases src@.len() - j,
                    {
                        let e = src[j];
                        assert(self.arcs@[t as int]@[j as int].to < n);
                        if !arc_in_row(&row, e.label, e.to) {
                            let ghost before = row@;
                            row.push(e);
                            proof {
                                assert(row@[before.len() as int] == e);
                                assert forall|c: char, q: int| #[trigger]
                                    row_has_arc(row@, c, q) <==> (row_has_arc(before, c, q) || (c
                                        == e.label && q == e.to)) by {
                                    if row_has_arc(before, c, q) {
                                        let k = choose|k: int|
                                            0 <= k < before.len() && (#[trigger] before[k]).label
                                                == c && before[k].to == q;
                                        assert(row@[k] == before[k]);
                                    }
                                }
                            }
                        }
                        j += 1;
                    }
                    proof {
                        assert forall|c: char, q: int| #[trigger]
                            row_has_arc(row@, c, q) <==> exists|x: int|
                                0 <= x < t + 1 && mark@[x] && a.arcs.contains((x, c, q)) by {
                            if a.arcs.contains((t as int, c, q)) {
                                let i = choose|i: int|
                                    0 <= i < src@.len() && (#[trigger] src@[i]).label == c
                                        && src@[i].to == q;
                                assert(src@[i].label == c);
                            }
                        }
                    }
                }
                t += 1;
            }
            proof {
                let p = s as int;
                assert(new_acc@.push(acc)[p] == acc);
                assert(acc <==> exists|x: int| a.eps_reaches(p, x) && a.accepts.contains(x)) by {
                    if exists|x: int| a.eps_reaches(p, x) && a.accepts.contains(x) {
                        let x = choose|x: int| a.eps_reaches(p, x) && a.accepts.contains(x);
                        assert(0 <= x < n && mark@[x]);
                    }
                }
                assert forall|c: char, q: int| #[trigger]
                    row_has_arc(row@, c, q) <==> exists|x: int|
                        a.eps_reaches(p, x) && a.arcs.contains((x, c, q)) by {
                    if exists|x: int| a.eps_reaches(p, x) && a.arcs.contains((x, c, q)) {
                        let x = choose|x: int| a.eps_reaches(p, x) && a.arcs.contains((x, c, q));
                        assert(0 <= x < n && mark@[x]);
                    }
                }
            }
            new_arcs.push(row);
            new_acc.push(acc);
            new_eps.push(Vec::new());
            s += 1;
        }
        self.arcs = new_arcs;
        self.accepting = new_acc;
        self.eps = new_eps;
        proof {
            let b = self@;
            let goal = a.eps_closed();
            assert forall|q: int| b.accepts.contains(q) <==> goal.accepts.contains(q) by {
                if goal.accepts.contains(q) {
                    let t = choose|t: int| a.eps_reaches(q, t) && a.accepts.contains(t);
                    if q != t {
                        let x = lemma_connects_first_step(a.eps_rel(), q, t);
                        assert(a.eps.contains((q, x)));
                    }
                }
            }
            assert forall|e: (int, char, int)| b.arcs.contains(e) <==> goal.arcs.contains(e) by {
                if goal.arcs.contains(e) {
                    let t = choose|t: int| a.eps_reaches(e.0, t) && a.arcs.contains((t, e.1, e.2));
                    if e.0 != t {
                        let x = lemma_connects_first_step(a.eps_rel(), e.0, t);
                        assert(a.eps.contains((e.0, x)));
                    }
                }
            }
            assert forall|e: (int, int)| !b.eps.contains(e) by {
                if b.eps.contains(e) {
                    let k = choose|k: int|
                        0 <= k < self.eps@[e.0]@.len() && #[trigger] self.eps@[e.0]@[k] == e.1;
                }
            }
            assert(b.eps =~= goal.eps);
            assert(b.states =~= goal.states);
            assert(b =~= goal);
        }
    }

    /// Removes the states that cannot be reached from the start state,
    /// with their edges.
    pub fn remove_unreachable_states(&mut self)
        requires
            old(self).wf(),
        ensures
            final(self).wf(),
            final(self)@ == old(self)@.pruned(),
            old(self)@.sound() ==> final(self)@.sound() && final(self)@.trim(),
            old(self)@.sound() && old(self)@.eps_free() ==> final(self)@.compiled(),
    {
        proof {
            if old(self)@.sound() {
                old(self)@.lemma_pruned_sound();
            }
        }
        let n = self.live.len();
        let ghost a = self@;
        let succ = self.successors();
        let mut seeds: Vec<usize> = Vec::new();
        seeds.push(self.start);
        let mark = reach_from(&succ, &seeds);
        proof {
            assert forall|q: int| 0 <= q < n implies (#[trigger] mark@[q] <==> a.reachable(q)) by {
                if mark@[q] {
                    let sd = choose|sd: int|
                        0 <= sd < seeds@.len() && connects(
                            edges_of(succ@),
                            #[trigger] seeds@[sd] as int,
                            q,
                        );
                    lemma_connects_same(edges_of(succ@), a.edge_rel(), a.start, q);
                }
                if a.reachable(q) {
                    lemma_connects_same(a.edge_rel(), edges_of(succ@), a.start, q);
                    assert(seeds@[0] == self.start);
                    assert(reached(succ@, seeds@, q));
                }
            }
        }
        let mut q: usize = 0;
        while q < n
            invariant
                q <= n,
                n == self.live@.len(),
                n == old(self).live@.len(),
                self.wf(),
                old(self).wf(),
                a == old(self)@,
                mark@.len() == n,
                self.start == old(self).start,
                forall|x: int| 0 <= x < n ==> (#[trigger] mark@[x] <==> a.reachable(x)),
                forall|x: int| q <= x < n ==> #[trigger] self.live@[x] == old(self).live@[x],
                forall|x: int|
                    q <= x < n ==> #[trigger] self.accepting@[x] == old(self).accepting@[x],
                forall|x: int| q <= x < n ==> #[trigger] self.eps@[x] == old(self).eps@[x],
                forall|x: int| q <= x < n ==> #[trigger] self.arcs@[x] == old(self).arcs@[x],
                forall|x: int|
                    0 <= x < q ==> #[trigger] self.live@[x] == (old(self).live@[x] && mark@[x]),
                forall|x: int|
                    0 <= x < q ==> #[trigger] self.accepting@[x] == (old(self).accepting@[x] && !(
                    old(self).live@[x] && !mark@[x])),
                forall|x: int|
                    0 <= x < q && !(old(self).live@[x] && !mark@[x]) ==> #[trigger] self.eps@[x]
                        == old(self).eps@[x],
                forall|x: int|
                    0 <= x < q && !(old(self).live@[x] && !mark@[x]) ==> #[trigger] self.arcs@[x]
                        == old(self).arcs@[x],
                forall|x: int|
                    0 <= x < q && (old(self).live@[x] && !mark@[x]) ==> (#[trigger] self.eps@[x])@.len()
                        == 0,
                forall|x: int|
                    0 <= x < q && (old(self).live@[x] && !mark@[x]) ==> (#[trigger] self.arcs@[x])@.len()
                        == 0,
            decreases n - q,
        {
            if self.live[q] && !mark[q] {
                self.live.set(q, false);
                self.accepting.set(q, false);
                self.eps.set(q, Vec::new());
                self.arcs.set(q, Vec::new());
            }
            q += 1;
        }
        proof {
            let b = self@;
            let goal = a.pruned();
            assert forall|x: int| b.states.contains(x) <==> goal.states.contains(x) by {
                if 0 <= x < n {
                    assert(self.live@[x] == (old(self).live@[x] && mark@[x]));
                }
            }
            assert forall|x: int| b.accepts.contains(x) <==> goal.accepts.contains(x) by {
                if 0 <= x < n {
                    assert(self.accepting@[x] == (old(self).accepting@[x] && !(old(self).live@[x]
                        && !mark@[x])));
                }
            }
            assert(b.states =~= goal.states);
            assert(b.accepts =~= goal.accepts);
            assert forall|e: (int, int)| b.eps.contains(e) <==> goal.eps.contains(e) by {
                let x = e.0;
                if 0 <= x < n {
                    if old(self).live@[x] && !mark@[x] {
                        if b.eps.contains(e) {
                            let k = choose|k: int|
                                0 <= k < self.eps@[x]@.len() && #[trigger] self.eps@[x]@[k] == e.1;
                        }
                    } else {
                        assert(self.eps@[x] == old(self).eps@[x]);
                    }
                }
            }
            assert forall|e: (int, char, int)| b.arcs.contains(e) <==> goal.arcs.contains(e) by {
                let x = e.0;
                if 0 <= x < n {
                    if old(self).live@[x] && !mark@[x] {
                        if b.arcs.contains(e) {
                            let k = choose|k: int|
                                0 <= k < self.arcs@[x]@.len() && (#[trigger] self.arcs@[x]@[k]).label
                                    == e.1 && self.arcs@[x]@[k].to == e.2;
                        }
                    } else {
                        assert(self.arcs@[x] == old(self).arcs@[x]);
                    }
                }
            }
            assert(b =~= goal);
        }
    }

    /// For every state the targets of its edges, of either kind.
    pub fn successors(&self) -> (succ: Vec<Vec<usize>>)
        requires
            self.wf(),
        ensures
            succ@.len() == self@.size,
            crate::graph::in_bounds(succ@),
            forall|p: int, q: int| has_edge(succ@, p, q) <==> self@.edge(p, q),
    {
        let n = self.live.len();
        let mut succ: Vec<Vec<usize>> = Vec::new();
        let mut p: usize = 0;
        while p < n
            invariant
                p <= n,
                n == self.live@.len(),
                self.wf(),
                succ@.len() == p,
                forall|x: int, k: int|
                    0 <= x < p && 0 <= k < succ@[x]@.len() ==> (#[trigger] succ@[x]@[k]) < n,
                forall|x: int, q: int|
                    0 <= x < p ==> (#[trigger] row_has(succ@[x]@, q) <==> (row_has(
                        self.eps@[x]@,
                        q,
                    ) || exists|c: char| row_has_arc(self.arcs@[x]@, c, q))),
            decreases n - p,
        {
            let mut row: Vec<usize> = Vec::new();
            let e = &self.eps[p];
            let mut j: usize = 0;
            while j < e.len()
                invariant
                    j <= e@.len(),
                    p < n,
                    n == self.live@.len(),
                    self.wf(),
                    e@ == self.eps@[p as int]@,
                    row@.len() == j,
                    forall|k: int| 0 <= k < j ==> row@[k] == e@[k],
                decreases e@.len() - j,
            {
                row.push(e[j]);
                j += 1;
            }
            let r = &self.arcs[p];
            let m = row.len();
            let mut j: usize = 0;
            while j < r.len()
                invariant
                    j <= r@.len(),
                    p < n,
                    n == self.live@.len(),
                    self.wf(),
                    e@ == self.eps@[p as int]@,
                    r@ == self.arcs@[p as int]@,
                    m == e@.len(),
                    row@.len() == m + j,
                    forall|k: int| 0 <= k < m ==> row@[k] == e@[k],
                    forall|k: int| m <= k < m + j ==> #[trigger] row@[k] == r@[k - m].to,
                decreases r@.len() - j,
            {
                row.push(r[j].to);
                j += 1;
            }
            proof {
                assert forall|k: int| 0 <= k < row@.len() implies (#[trigger] row@[k]) < n by {
                    if k < m {
                        assert(self.eps@[p as int]@[k] < n);
                    } else {
                        assert(self.arcs@[p as int]@[k - m].to < n);
                    }
                }
                assert forall|q: int| #[trigger]
                    row_has(row@, q) <==> (row_has(e@, q) || exists|c: char|
                        row_has_arc(r@, c, q)) by {
                    if row_has(row@, q) {
                        let k = choose|k: int| 0 <= k < row@.len() && #[trigger] row@[k] == q;
                        if k < m {
                            assert(e@[k] == q);
                        } else {
                            assert(r@[k - m].to == q);
                            assert(row_has_arc(r@, r@[k - m].label, q));
                        }
                    }
                    if row_has(e@, q) {
                        let k = choose|k: int| 0 <= k < e@.len() && #[trigger] e@[k] == q;
                        assert(row@[k] == q);
                    }
                    if exists|c: char| row_has_arc(r@, c, q) {
                        let c = choose|c: char| row_has_arc(r@, c, q);
                        let k = choose|k: int|
                            0 <= k < r@.len() && (#[trigger] r@[k]).label == c && r@[k].to == q;
                        assert(row@[m + k] == r@[m + k - m].to);
                    }
                }
            }
            succ.push(row);
            p += 1;
        }
        proof {
            assert forall|x: int, q: int| has_edge(succ@, x, q) <==> self@.edge(x, q) by {
                if 0 <= x < n {
                    assert(row_has(succ@[x]@, q) <==> (row_has(self.eps@[x]@, q) || exists|c: char|
                        row_has_arc(self.arcs@[x]@, c, q)));
                    if has_edge(succ@, x, q) {
                        let k = choose|k: int| 0 <= k < succ@[x]@.len() && #[trigger] succ@[x]@[k] == q;
                        assert(row_has(succ@[x]@, q));
                        if !row_has(self.eps@[x]@, q) {
                            let c = choose|c: char| row_has_arc(self.arcs@[x]@, c, q);
                            assert(self@.arcs.contains((x, c, q)));
                        }
                    }
                    if self@.edge(x, q) {
                        if !self@.eps.contains((x, q)) {
                            let c = choose|c: char| self@.arcs.contains((x, c, q));
                            assert(row_has_arc(self.arcs@[x]@, c, q));
                        }
                        assert(row_has(succ@[x]@, q));
                        let k = choose|k: int| 0 <= k < succ@[x]@.len() && #[trigger] succ@[x]@[k] == q;
                        assert(has_edge(succ@, x, q));
                    }
                }
            }
        }
        succ
    }

    /// The automaton with every edge turned round, whose one accepting
    /// state is the start state of this one.
    pub fn get_transitions_reverse(&self) -> (rev: NFA)
        requires
            self.wf(),
        ensures
            rev.wf(),
            rev@ == self@.reversed(),
    {
        let n = self.live.len();
        let mut live: Vec<bool> = Vec::new();
        let mut accepting: Vec<bool> = Vec::new();
        let mut eps: Vec<Vec<usize>> = Vec::new();
        let mut arcs: Vec<Vec<Edge>> = Vec::new();
        let mut i: usize = 0;
        while i < n
            invariant
                i <= n,
                n == self.live@.len(),
                self.wf(),
                live@.len() == i,
                accepting@.len() == i,
                eps@.len() == i,
                arcs@.len() == i,
                forall|q: int| 0 <= q < i ==> #[trigger] live@[q] == self.live@[q],
                forall|q: int| 0 <= q < i ==> #[trigger] accepting@[q] == (q == self.start),
                forall|q: int| 0 <= q < i ==> (#[trigger] eps@[q])@.len() == 0,
                forall|q: int| 0 <= q < i ==> (#[trigger] arcs@[q])@.len() == 0,
            decreases n - i,
        {
            live.push(self.live[i]);
            accepting.push(i == self.start);
            eps.push(Vec::new());
            arcs.push(Vec::new());
            i += 1;
        }
        let mut p: usize = 0;
        while p < n
            invariant
                p <= n,
                n == self.live@.len(),
                self.wf(),
                eps@.len() == n,
                arcs@.len() == n,
                forall|q: int, k: int|
                    0 <= q < n && 0 <= k < eps@[q]@.len() ==> (#[trigger] eps@[q]@[k]) < n,
                forall|q: int, k: int|
                    0 <= q < n && 0 <= k < arcs@[q]@.len() ==> (#[trigger] arcs@[q]@[k]).to < n,
                forall|q: int, x: int|
                    0 <= q < n ==> (#[trigger] row_has(eps@[q]@, x) <==> 0 <= x < p && row_has(
                        self.eps@[x]@,
                        q,
                    )),
                forall|q: int, c: char, x: int|
                    0 <= q < n ==> (#[trigger] row_has_arc(arcs@[q]@, c, x) <==> 0 <= x < p
                        && row_has_arc(self.arcs@[x]@, c, q)),
            decreases n - p,
        {
            let src = &self.eps[p];
            let mut k: usize = 0;
            while k < src.len()
                invariant
                    k <= src@.len(),
                    p < n,
                    n == self.live@.len(),
                    self.wf(),
                    src@ == self.eps@[p as int]@,
                    eps@.len() == n,
                    forall|q: int, j: int|
                        0 <= q < n && 0 <= j < eps@[q]@.len() ==> (#[trigger] eps@[q]@[j]) < n,
                    forall|q: int, x: int|
                        0 <= q < n ==> (#[trigger] row_has(eps@[q]@, x) <==> (0 <= x < p
                            && row_has(self.eps@[x]@, q)) || (x == p && exists|j: int|
                            0 <= j < k && #[trigger] src@[j] == q)),
                decreases src@.len() - k,
            {
                let q = src[k];
                assert(self.eps@[p as int]@[k as int] < n);
                let ghost before = eps@;
                eps[q].push(p);
                proof {
                    assert(eps@[q as int]@[before[q as int]@.len() as int] == p);
                    assert forall|y: int, x: int| 0 <= y < n implies (#[trigger] row_has(
                        eps@[y]@,
                        x,
                    ) <==> (0 <= x < p && row_has(self.eps@[x]@, y)) || (x == p && exists|j: int|
                        0 <= j < k + 1 && #[trigger] src@[j] == y)) by {
                        if row_has(before[y]@, x) {
                            let w = choose|w: int|
                                0 <= w < before[y]@.len() && #[trigger] before[y]@[w] == x;
                            assert(eps@[y]@[w] == x);
                        }
                        if y == q {
                            assert(src@[k as int] == y);
                        }
                        if row_has(eps@[y]@, x) && !row_has(before[y]@, x) {
                            let w = choose|w: int|
                                0 <= w < eps@[y]@.len() && #[trigger] eps@[y]@[w] == x;
                            if y != q {
                                assert(before[y]@[w] == x);
                            } else if w < before[y]@.len() {
                                assert(before[y]@[w] == x);
                            }
                        }
                    }
                }
                k += 1;
            }
            proof {
                assert forall|q: int, x: int| 0 <= q < n implies (#[trigger] row_has(
                    eps@[q]@,
                    x,
                ) <==> 0 <= x < p + 1 && row_has(self.eps@[x]@, q)) by {
                    if row_has(self.eps@[p as int]@, q) {
                        let j = choose|j: int|
                            0 <= j < src@.len() && #[trigger] self.eps@[p as int]@[j] == q;
                        assert(src@[j] == q);
                    }
                }
            }
            let asrc = &self.arcs[p];
            let mut k: usize = 0;
            while k < asrc.len()
                invariant
                    k <= asrc@.len(),
                    p < n,
                    n == self.live@.len(),
                    self.wf(),
                    asrc@ == self.arcs@[p as int]@,
                    arcs@.len() == n,
                    forall|q: int, j: int|
                        0 <= q < n && 0 <= j < arcs@[q]@.len() ==> (#[trigger] arcs@[q]@[j]).to
                            < n,
                    forall|q: int, c: char, x: int|
                        0 <= q < n ==> (#[trigger] row_has_arc(arcs@[q]@, c, x) <==> (0 <= x < p
                            && row_has_arc(self.arcs@[x]@, c, q)) || (x == p && exists|j: int|
                            0 <= j < k && (#[trigger] asrc@[j]).label == c && asrc@[j].to == q)),
                decreases asrc@.len() - k,
            {
                let e = asrc[k];
                assert(self.arcs@[p as int]@[k as int].to < n);
                let ghost before = arcs@;
                arcs[e.to].push(Edge { label: e.label, to: p });
                proof {
                    let q = e.to as int;
                    assert(arcs@[q]@[before[q]@.len() as int].to == p);
                    assert forall|y: int, c: char, x: int| 0 <= y < n implies (
                    #[trigger] row_has_arc(arcs@[y]@, c, x) <==> (0 <= x < p && row_has_arc(
                        self.arcs@[x]@,
                        c,
                        y,
                    )) || (x == p && exists|j: int|
                        0 <= j < k + 1 && (#[trigger] asrc@[j]).label == c && asrc@[j].to == y)) by {
                        if row_has_arc(before[y]@, c, x) {
                            let w = choose|w: int|
                                0 <= w < before[y]@.len() && (#[trigger] before[y]@[w]).label == c
                                    && before[y]@[w].to == x;
                            assert(arcs@[y]@[w].label == c);
                        }
                        if y == q && c == e.label {
                            assert(asrc@[k as int].label == c);
                        }
                        if row_has_arc(arcs@[y]@, c, x) && !row_has_arc(before[y]@, c, x) {
                            let w = choose|w: int|
                                0 <= w < arcs@[y]@.len() && (#[trigger] arcs@[y]@[w]).label == c
                                    && arcs@[y]@[w].to == x;
                            if y != q {
                                assert(before[y]@[w].label == c);
                            } else if w < before[y]@.len() {
                                assert(before[y]@[w].label == c);
                            } else {
                                assert(asrc@[k as int].label == c);
                            }
                        }
                    }
                }
                k += 1;
            }
            proof {
                assert forall|q: int, c: char, x: int| 0 <= q < n implies (#[trigger] row_has_arc(
                    arcs@[q]@,
                    c,
                    x,
                ) <==> 0 <= x < p + 1 && row_has_arc(self.arcs@[x]@, c, q)) by {
                    if row_has_arc(self.arcs@[p as int]@, c, q) {
                        let j = choose|j: int|
                            0 <= j < asrc@.len() && (#[trigger] self.arcs@[p as int]@[j]).label == c
                                && self.arcs@[p as int]@[j].to == q;
                        assert(asrc@[j].label == c);
                    }
                }
            }
            p += 1;
        }
        let rev = NFA { live, accepting, eps, arcs, start: self.start };
        proof {
            self.lemma_bounded();
            let goal = self@.reversed();
            assert(rev@.states =~= goal.states);
            assert(rev@.accepts =~= goal.accepts);
            assert forall|e: (int, int)| rev@.eps.contains(e) <==> goal.eps.contains(e) by {
                if 0 <= e.0 < n {
                    assert(row_has(rev.eps@[e.0]@, e.1) <==> 0 <= e.1 < n && row_has(
                        self.eps@[e.1]@,
                        e.0,
                    ));
                }
                if goal.eps.contains(e) {
                    assert(self@.eps.contains((e.1, e.0)));
                }
            }
            assert forall|e: (int, char, int)| rev@.arcs.contains(e) <==> goal.arcs.contains(e) by {
                if 0 <= e.0 < n {
                    assert(row_has_arc(rev.arcs@[e.0]@, e.1, e.2) <==> 0 <= e.2 < n && row_has_arc(
                        self.arcs@[e.2]@,
                        e.1,
                        e.0,
                    ));
                }
                if goal.arcs.contains(e) {
                    assert(self@.arcs.contains((e.2, e.1, e.0)));
                }
            }
            assert(rev@ =~= goal);
        }
        rev
    }

    /// Makes `s` a state that does not accept.
    pub fn remove_accept(&mut self, s: State)
        requires
            old(self).wf(),
            s.id < old(self)@.size,
        ensures
            final(self).wf(),
            final(self)@ == (Automaton {
                accepts: old(self)@.accepts.remove(s.id as int),
                ..old(self)@
            }),
    {
        self.accepting.set(s.id, false);
        assert(self@ =~= (Automaton {
            accepts: old(self)@.accepts.remove(s.id as int),
            ..old(self)@
        }));
    }

    /// The start state is below `size`.
    pub proof fn lemma_start(&self)
        requires
            self.wf(),
        ensures
            0 <= self@.start < self@.size,
    {
    }
}

/// Appends the rows of `other` with every identifier raised by the number
/// of rows that were there. With `keep_accepts` the added states accept as
/// they do in `other`; without, none of them accepts.
fn append_rows(
    live: &mut Vec<bool>,
    accepting: &mut Vec<bool>,
    eps: &mut Vec<Vec<usize>>,
    arcs: &mut Vec<Vec<Edge>>,
    other: &NFA,
    keep_accepts: bool,
)
    requires
        rows_ok(old(live)@.len(), old(accepting)@, old(eps)@, old(arcs)@),
        other.wf(),
    ensures
        rows_ok(final(live)@.len(), final(accepting)@, final(eps)@, final(arcs)@),
        final(live)@.len() == old(live)@.len() + other@.size,
        forall|s: int|
            model(final(live)@, final(accepting)@, final(eps)@, final(arcs)@, s) == (Automaton {
                accepts: if keep_accepts {
                    model(old(live)@, old(accepting)@, old(eps)@, old(arcs)@, s).accepts.union(
                        other@.shifted(old(live)@.len()).accepts,
                    )
                } else {
                    model(old(live)@, old(accepting)@, old(eps)@, old(arcs)@, s).accepts
                },
                ..#[trigger] model(old(live)@, old(accepting)@, old(eps)@, old(arcs)@, s).absorbing(
                    other@,
                )
            }),
{
    let k = live.len();
    let m = other.live.len();
    let mut i: usize = 0;
    while i < m
        invariant
            i <= m,
            m == other.live@.len(),
            other.wf(),
            k == old(live)@.len(),
            live@.len() == k + i,
            forall|q: int| 0 <= q < k ==> live@[q] == old(live)@[q],
            forall|p: int| k <= p < k + i ==> #[trigger] live@[p] == other.live@[p - k],
        decreases m - i,
    {
        live.push(other.live[i]);
        i += 1;
    }
    let total = live.len();
    assert(k + m == total);
    i = 0;
    while i < m
        invariant
            i <= m,
            m == other.live@.len(),
            k + m <= usize::MAX,
            k == old(live)@.len(),
            other.wf(),
            rows_ok(k as nat, old(accepting)@, old(eps)@, old(arcs)@),
            accepting@.len() == k + i,
            eps@.len() == k + i,
            arcs@.len() == k + i,
            forall|q: int| 0 <= q < k ==> accepting@[q] == old(accepting)@[q],
            forall|q: int| 0 <= q < k ==> eps@[q] == old(eps)@[q],
            forall|q: int| 0 <= q < k ==> arcs@[q] == old(arcs)@[q],
            forall|p: int|
                k <= p < k + i ==> #[trigger] accepting@[p] == (keep_accepts && other.accepting@[p
                    - k]),
            forall|p: int|
                k <= p < k + i ==> (#[trigger] eps@[p])@.len() == other.eps@[p - k]@.len(),
            forall|p: int, j: int|
                k <= p < k + i && 0 <= j < other.eps@[p - k]@.len() ==> (#[trigger] eps@[p]@[j])
                    == other.eps@[p - k]@[j] + k,
            forall|p: int|
                k <= p < k + i ==> (#[trigger] arcs@[p])@.len() == other.arcs@[p - k]@.len(),
            forall|p: int, j: int|
                k <= p < k + i && 0 <= j < other.arcs@[p - k]@.len() ==> (#[trigger] arcs@[p]@[j]).to
                    == other.arcs@[p - k]@[j].to + k && arcs@[p]@[j].label == other.arcs@[p
                    - k]@[j].label,
        decreases m - i,
    {
        accepting.push(keep_accepts && other.accepting[i]);
        let mut row: Vec<usize> = Vec::new();
        let src = &other.eps[i];
        let mut j: usize = 0;
        while j < src.len()
            invariant
                j <= src@.len(),
                i < m,
                m == other.live@.len(),
                k + m <= usize::MAX,
                other.wf(),
                src@ == other.eps@[i as int]@,
                row@.len() == j,
                forall|x: int| 0 <= x < j ==> row@[x] == src@[x] + k,
            decreases src@.len() - j,
        {
            assert(other.eps@[i as int]@[j as int] < m);
            row.push(src[j] + k);
            j += 1;
        }
        eps.push(row);
        let mut arow: Vec<Edge> = Vec::new();
        let asrc = &other.arcs[i];
        let mut j: usize = 0;
        while j < asrc.len()
            invariant
                j <= asrc@.len(),
                i < m,
                m == other.live@.len(),
                k + m <= usize::MAX,
                other.wf(),
                asrc@ == other.arcs@[i as int]@,
                arow@.len() == j,
                forall|x: int|
                    0 <= x < j ==> arow@[x].to == asrc@[x].to + k && arow@[x].label
                        == asrc@[x].label,
            decreases asrc@.len() - j,
        {
            assert(other.arcs@[i as int]@[j as int].to < m);
            arow.push(Edge { label: asrc[j].label, to: asrc[j].to + k });
            j += 1;
        }
        arcs.push(arow);
        i += 1;
    }
    proof {
        assert forall|p: int, j: int| 0 <= p < total && 0 <= j < eps@[p]@.len() implies (
        #[trigger] eps@[p]@[j]) < total by {
            if p >= k {
                assert(eps@[p]@[j] == other.eps@[p - k]@[j] + k);
                assert(other.eps@[p - k]@[j] < m);
            }
        }
        assert forall|p: int, j: int| 0 <= p < total && 0 <= j < arcs@[p]@.len() implies (
        #[trigger] arcs@[p]@[j]).to < total by {
            if p >= k {
                assert(arcs@[p]@[j].to == other.arcs@[p - k]@[j].to + k);
                assert(other.arcs@[p - k]@[j].to < m);
            }
        }
        assert forall|s: int|
            model(live@, accepting@, eps@, arcs@, s) == (Automaton {
                accepts: if keep_accepts {
                    model(old(live)@, old(accepting)@, old(eps)@, old(arcs)@, s).accepts.union(
                        other@.shifted(old(live)@.len()).accepts,
                    )
                } else {
                    model(old(live)@, old(accepting)@, old(eps)@, old(arcs)@, s).accepts
                },
                ..#[trigger] model(old(live)@, old(accepting)@, old(eps)@, old(arcs)@, s).absorbing(
                    other@,
                )
            }) by {
            let now = model(live@, accepting@, eps@, arcs@, s);
            let was = model(old(live)@, old(accepting)@, old(eps)@, old(arcs)@, s);
            let sh = other@.shifted(k as nat);
            let goal = Automaton {
                accepts: if keep_accepts {
                    was.accepts.union(sh.accepts)
                } else {
                    was.accepts
                },
                ..was.absorbing(other@)
            };
            assert forall|q: int| now.states.contains(q) <==> goal.states.contains(q) by {
                if 0 <= q < k {
                    assert(live@[q] == old(live)@[q]);
                } else if k <= q < total {
                    assert(live@[q] == other.live@[q - k]);
                }
            }
            assert forall|q: int| now.accepts.contains(q) <==> goal.accepts.contains(q) by {
                if 0 <= q < k {
                    assert(accepting@[q] == old(accepting)@[q]);
                } else if k <= q < total {
                    assert(accepting@[q] == (keep_accepts && other.accepting@[q - k]));
                }
            }
            assert forall|e: (int, int)| now.eps.contains(e) <==> goal.eps.contains(e) by {
                let p = e.0;
                if 0 <= p < k {
                    assert(eps@[p] == old(eps)@[p]);
                    if sh.eps.contains(e) {
                        assert(other@.eps.contains((e.0 - k, e.1 - k)));
                    }
                } else if k <= p < total {
                    let q = p - k;
                    assert(eps@[p]@.len() == other.eps@[q]@.len());
                    if now.eps.contains(e) {
                        let j = choose|j: int| 0 <= j < eps@[p]@.len() && #[trigger] eps@[p]@[j] == e.1;
                        assert(eps@[p]@[j] == other.eps@[q]@[j] + k);
                        assert(other.eps@[q]@[j] == e.1 - k);
                        assert(row_has(other.eps@[q]@, e.1 - k));
                    }
                    if goal.eps.contains(e) {
                        assert(!was.eps.contains(e));
                        assert(other@.eps.contains((q, e.1 - k)));
                        let j = choose|j: int|
                            0 <= j < other.eps@[q]@.len() && #[trigger] other.eps@[q]@[j] == e.1 - k;
                        assert(eps@[p]@[j] == other.eps@[q]@[j] + k);
                        assert(row_has(eps@[p]@, e.1));
                    }
                } else {
                    if sh.eps.contains(e) {
                        assert(other@.eps.contains((e.0 - k, e.1 - k)));
                    }
                }
            }
            assert forall|e: (int, char, int)| now.arcs.contains(e) <==> goal.arcs.contains(e) by {
                let p = e.0;
                if 0 <= p < k {
                    assert(arcs@[p] == old(arcs)@[p]);
                    if sh.arcs.contains(e) {
                        assert(other@.arcs.contains((e.0 - k, e.1, e.2 - k)));
                    }
                } else if k <= p < total {
                    let q = p - k;
                    assert(arcs@[p]@.len() == other.arcs@[q]@.len());
                    if now.arcs.contains(e) {
                        let j = choose|j: int|
                            0 <= j < arcs@[p]@.len() && (#[trigger] arcs@[p]@[j]).label == e.1
                                && arcs@[p]@[j].to == e.2;
                        assert(arcs@[p]@[j].to == other.arcs@[q]@[j].to + k);
                        assert(other.arcs@[q]@[j].to == e.2 - k);
                        assert(row_has_arc(other.arcs@[q]@, e.1, e.2 - k));
                    }
                    if goal.arcs.contains(e) {
                        assert(!was.arcs.contains(e));
                        assert(other@.arcs.contains((q, e.1, e.2 - k)));
                        let j = choose|j: int|
                            0 <= j < other.arcs@[q]@.len() && (#[trigger] other.arcs@[q]@[j]).label
                                == e.1 && other.arcs@[q]@[j].to == e.2 - k;
                        assert(arcs@[p]@[j].to == other.arcs@[q]@[j].to + k);
                        assert(row_has_arc(arcs@[p]@, e.1, e.2));
                    }
                } else {
                    if sh.arcs.contains(e) {
                        assert(other@.arcs.contains((e.0 - k, e.1, e.2 - k)));
                    }
                }
            }
            assert(now =~= goal);
        }
    }
}

/// Whether `q` occurs in `row`.
pub fn id_in_row(row: &Vec<usize>, q: usize) -> (b: bool)
    ensures
        b == row_has(row@, q as int),
{
    let mut k: usize = 0;
    while k < row.len()
        invariant
            k <= row.len(),
            forall|j: int| 0 <= j < k ==> row@[j] != q,
        decreases row.len() - k,
    {
        if row[k] == q {
            return true;
        }
        k += 1;
    }
    false
}

/// Whether an edge labelled `c` to `q` occurs in `row`.
pub fn arc_in_row(row: &Vec<Edge>, c: char, q: usize) -> (b: bool)
    ensures
        b == row_has_arc(row@, c, q as int),
{
    let mut k: usize = 0;
    while k < row.len()
        invariant
            k <= row.len(),
            forall|j: int| 0 <= j < k ==> !(row@[j].label == c && row@[j].to == q),
        decreases row.len() - k,
    {
        if row[k].label == c && row[k].to == q {
            return true;
        }
        k += 1;
    }
    false
}

} // verus!
