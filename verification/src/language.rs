//! What the literal of an automaton has to do with the words that the
//! automaton accepts. A word is read along labelled edges; in an
//! automaton without epsilon edges these are all the ways to read it.

use vstd::prelude::*;
use crate::automaton::Automaton;
use crate::graph::{lemma_connects_first_step, lemma_connects_self, lemma_connects_step};

verus! {

impl Automaton {
    /// The closed automaton reaches, up to epsilon edges, what the
    /// automaton reaches.
    pub proof fn lemma_closed_run(self, from: Set<int>, w: Seq<char>)
        ensures
            self.eclose(self.eps_closed().run(from, w)) == self.erun(from, w),
        decreases w.len(),
    {
        let k = self.eps_closed();
        if w.len() > 0 {
            let u = w.drop_last();
            let c = w.last();
            self.lemma_closed_run(from, u);
            let before = k.run(from, u);
            let wide = self.eclose(before);
            assert forall|r: int| k.step(before, c).contains(r) <==> self.step(wide, c).contains(
                r,
            ) by {
                if k.step(before, c).contains(r) {
                    let q = choose|q: int| before.contains(q) && k.arcs.contains((q, c, r));
                    let t = choose|t: int| self.eps_reaches(q, t) && self.arcs.contains((t, c, r));
                    assert(wide.contains(t));
                }
                if self.step(wide, c).contains(r) {
                    let t = choose|t: int| wide.contains(t) && self.arcs.contains((t, c, r));
                    let q = choose|q: int| before.contains(q) && self.eps_reaches(q, t);
                    let e = (q, c, r);
                    assert(self.eps_reaches(e.0, t));
                    assert(self.arcs.contains((t, e.1, e.2)));
                    assert(exists|x: int| self.eps_reaches(e.0, x) && self.arcs.contains((x, e.1, e.2)));
                    assert(k.arcs.contains(e));
                }
            }
            assert(k.step(before, c) =~= self.step(wide, c));
        }
    }

    /// Closing under epsilon edges keeps the words that are accepted: the
    /// closed automaton, read along labelled edges, accepts what the
    /// automaton accepts with its epsilon edges.
    pub proof fn lemma_closed_accepts(self, w: Seq<char>)
        ensures
            self.eps_closed().accepts_word(w) <==> self.recognizes(w),
    {
        let k = self.eps_closed();
        let from = set![self.start];
        self.lemma_closed_run(from, w);
        let narrow = k.run(from, w);
        let wide = self.erun(from, w);
        if k.accepts_word(w) {
            let q = choose|q: int| narrow.contains(q) && k.accepts.contains(q);
            let t = choose|t: int| self.eps_reaches(q, t) && self.accepts.contains(t);
            assert(self.eclose(narrow).contains(t));
        }
        if self.recognizes(w) {
            let t = choose|t: int| wide.contains(t) && self.accepts.contains(t);
            assert(self.eclose(narrow).contains(t));
            let q = choose|q: int| narrow.contains(q) && self.eps_reaches(q, t);
            assert(self.eps_reaches(q, t) && self.accepts.contains(t));
            assert(k.accepts.contains(q));
        }
    }

    /// Without epsilon edges, reading with them is reading without.
    pub proof fn lemma_erun_plain(self, from: Set<int>, w: Seq<char>)
        requires
            self.eps_free(),
        ensures
            self.erun(from, w) == self.run(from, w),
        decreases w.len(),
    {
        if w.len() > 0 {
            self.lemma_erun_plain(from, w.drop_last());
            self.lemma_eclose_plain(self.step(self.run(from, w.drop_last()), w.last()));
        } else {
            self.lemma_eclose_plain(from);
        }
    }

    /// Without epsilon edges, nothing is added to a set of states.
    pub proof fn lemma_eclose_plain(self, from: Set<int>)
        requires
            self.eps_free(),
        ensures
            self.eclose(from) == from,
    {
        assert forall|t: int| self.eclose(from).contains(t) <==> from.contains(t) by {
            if self.eclose(from).contains(t) {
                let s = choose|s: int| from.contains(s) && self.eps_reaches(s, t);
                if s != t {
                    let x = lemma_connects_first_step(self.eps_rel(), s, t);
                    assert(self.eps.contains((s, x)));
                }
            }
            if from.contains(t) {
                lemma_connects_self(self.eps_rel(), t);
            }
        }
        assert(self.eclose(from) =~= from);
    }

    /// Reading two words one after the other is reading the first, then
    /// the second.
    pub proof fn lemma_run_concat(self, from: Set<int>, u: Seq<char>, v: Seq<char>)
        ensures
            self.run(from, u + v) == self.run(self.run(from, u), v),
        decreases v.len(),
    {
        if v.len() == 0 {
            assert(u + v =~= u);
        } else {
            self.lemma_run_concat(from, u, v.drop_last());
            assert((u + v).drop_last() =~= u + v.drop_last());
            assert((u + v).last() == v.last());
        }
    }

    /// Reading one character is one step.
    pub proof fn lemma_run_one(self, from: Set<int>, c: char)
        ensures
            self.run(from, seq![c]) == self.step(from, c),
    {
        assert(seq![c].drop_last() =~= Seq::<char>::empty());
        assert(self.run(from, seq![c].drop_last()) == from);
        assert(seq![c].last() == c);
    }

    /// Reading a word is a step on its first character, then reading the
    /// rest.
    pub proof fn lemma_run_first(self, from: Set<int>, w: Seq<char>)
        requires
            w.len() > 0,
        ensures
            self.run(from, w) == self.run(self.step(from, w[0]), w.drop_first()),
    {
        assert(w =~= seq![w[0]] + w.drop_first());
        self.lemma_run_concat(from, seq![w[0]], w.drop_first());
        self.lemma_run_one(from, w[0]);
    }

    /// From no state no state is reached.
    pub proof fn lemma_run_none(self, w: Seq<char>)
        ensures
            self.run(Set::empty(), w) == Set::<int>::empty(),
        decreases w.len(),
    {
        if w.len() > 0 {
            self.lemma_run_none(w.drop_last());
            assert(self.step(Set::empty(), w.last()) =~= Set::<int>::empty());
        }
    }

    /// What is reached from a set is reached from one of its states.
    pub proof fn lemma_run_from_one(self, from: Set<int>, w: Seq<char>, x: int)
        ensures
            self.run(from, w).contains(x) <==> exists|s: int|
                from.contains(s) && self.run(set![s], w).contains(x),
        decreases w.len(),
    {
        if w.len() == 0 {
            if from.contains(x) {
                assert(self.run(set![x], w).contains(x));
            }
        } else {
            let u = w.drop_last();
            let c = w.last();
            if self.run(from, w).contains(x) {
                let q = choose|q: int| self.run(from, u).contains(q) && self.arcs.contains((q, c, x));
                self.lemma_run_from_one(from, u, q);
                let s = choose|s: int| from.contains(s) && self.run(set![s], u).contains(q);
                assert(self.run(set![s], w).contains(x));
            }
            if exists|s: int| from.contains(s) && self.run(set![s], w).contains(x) {
                let s = choose|s: int| from.contains(s) && self.run(set![s], w).contains(x);
                let q = choose|q: int|
                    self.run(set![s], u).contains(q) && self.arcs.contains((q, c, x));
                self.lemma_run_from_one(from, u, q);
                assert(self.run(from, u).contains(q));
            }
        }
    }

    /// The walk reads its word from its first frontier to its last.
    pub proof fn lemma_walk_run(self, f: Set<int>, fuel: nat)
        ensures
            self.run(f, self.walk_word(f, fuel)) == self.walk_end(f, fuel),
        decreases fuel,
    {
        if fuel == 0 || !self.can_extend(f) {
            assert(self.walk_word(f, fuel) =~= Seq::<char>::empty());
        } else {
            let c = self.next_char(f);
            let rest = self.walk_word(self.step(f, c), (fuel - 1) as nat);
            self.lemma_walk_run(self.step(f, c), (fuel - 1) as nat);
            let w = self.walk_word(f, fuel);
            assert(w =~= seq![c] + rest);
            assert(w.drop_first() =~= rest);
            self.lemma_run_first(f, w);
        }
    }

    /// Every word that is accepted from the frontier `f` begins with the
    /// word of the walk from `f`.
    pub proof fn lemma_walk_is_prefix(self, f: Set<int>, fuel: nat, w: Seq<char>)
        requires
            self.accepts_from(f, w),
        ensures
            self.walk_word(f, fuel).is_prefix_of(w),
        decreases fuel,
    {
        if fuel == 0 || !self.can_extend(f) {
            assert(self.walk_word(f, fuel) =~= Seq::<char>::empty());
            assert(w.subrange(0, 0) =~= Seq::<char>::empty());
        } else {
            let c = self.next_char(f);
            assert(self.extends_by(f, c));
            let hit = choose|q: int| self.run(f, w).contains(q) && self.accepts.contains(q);
            if w.len() == 0 {
                assert(f.contains(hit));
                assert(self.reads_only(hit, c));
            } else {
                self.lemma_run_first(f, w);
                let next = self.step(f, w[0]);
                if w[0] != c {
                    assert(next =~= Set::<int>::empty()) by {
                        assert forall|r: int| !next.contains(r) by {
                            if next.contains(r) {
                                let q = choose|q: int|
                                    f.contains(q) && self.arcs.contains((q, w[0], r));
                                assert(self.reads_only(q, c));
                            }
                        }
                    }
                    self.lemma_run_none(w.drop_first());
                }
                assert(self.run(self.step(f, c), w.drop_first()).contains(hit));
                assert(self.accepts_from(self.step(f, c), w.drop_first()));
                self.lemma_walk_is_prefix(self.step(f, c), (fuel - 1) as nat, w.drop_first());
                let rest = self.walk_word(self.step(f, c), (fuel - 1) as nat);
                let word = self.walk_word(f, fuel);
                assert(word =~= seq![c] + rest);
                assert(rest =~= w.drop_first().subrange(0, rest.len() as int));
                assert(word =~= w.subrange(0, word.len() as int));
            }
        }
    }

    /// Every accepted word begins with the literal prefix.
    pub proof fn lemma_literal_prefix(self, w: Seq<char>)
        requires
            self.accepts_word(w),
        ensures
            self.literal_prefix().is_prefix_of(w),
    {
        self.lemma_walk_is_prefix(set![self.start], self.size, w);
    }

    /// Reading a word from `p` can end in `q` if and only if reading it
    /// backwards in the automaton turned round can lead from `q` to `p`.
    pub proof fn lemma_reversed_run(self, p: int, q: int, w: Seq<char>)
        ensures
            self.run(set![p], w).contains(q) <==> self.reversed().run(set![q], w.reverse()).contains(
                p,
            ),
        decreases w.len(),
    {
        let r = self.reversed();
        if w.len() == 0 {
            assert(w.reverse() =~= w);
        } else {
            let u = w.drop_last();
            let c = w.last();
            let back = w.reverse();
            assert(back[0] == c);
            assert(back.drop_first() =~= u.reverse());
            r.lemma_run_first(set![q], back);
            let s = r.step(set![q], c);
            r.lemma_run_from_one(s, u.reverse(), p);
            assert(self.run(set![p], w) == self.step(self.run(set![p], u), c));
            if self.run(set![p], w).contains(q) {
                let x = choose|x: int| self.run(set![p], u).contains(x) && self.arcs.contains((x, c, q));
                self.lemma_reversed_run(p, x, u);
                assert(r.arcs.contains((q, c, x)));
                assert(set![q].contains(q));
                assert(s.contains(x));
            }
            if r.run(set![q], back).contains(p) {
                let x = choose|x: int| s.contains(x) && r.run(set![x], u.reverse()).contains(p);
                self.lemma_reversed_run(p, x, u);
                let y = choose|y: int| set![q].contains(y) && r.arcs.contains((y, c, x));
                assert(self.arcs.contains((x, c, q)));
            }
        }
    }

    /// Every accepted word ends with the literal suffix.
    pub proof fn lemma_literal_suffix(self, w: Seq<char>)
        requires
            self.accepts_word(w),
        ensures
            self.literal_suffix().is_suffix_of(w),
    {
        let r = self.reversed();
        let hit = choose|q: int|
            self.run(set![self.start], w).contains(q) && self.accepts.contains(q);
        self.lemma_reversed_run(self.start, hit, w);
        r.lemma_run_from_one(self.accepts, w.reverse(), self.start);
        assert(r.run(self.accepts, w.reverse()).contains(self.start));
        assert(r.accepts.contains(self.start));
        assert(r.accepts_from(self.accepts, w.reverse()));
        r.lemma_walk_is_prefix(self.accepts, self.size, w.reverse());
        let word = r.walk_word(self.accepts, self.size);
        let n = word.len() as int;
        assert(word =~= w.reverse().subrange(0, n));
        assert(word.reverse() =~= w.subrange(w.len() - n, w.len() as int));
    }

    /// A word is accepted if and only if the automaton turned round leads
    /// back from an accepting state to the start state on the word read
    /// backwards.
    pub proof fn lemma_reversed_accepts(self, w: Seq<char>)
        ensures
            self.accepts_word(w) <==> self.reversed().accepts_from(self.accepts, w.reverse()),
    {
        let r = self.reversed();
        r.lemma_run_from_one(self.accepts, w.reverse(), self.start);
        if self.accepts_word(w) {
            let hit = choose|q: int|
                self.run(set![self.start], w).contains(q) && self.accepts.contains(q);
            self.lemma_reversed_run(self.start, hit, w);
            assert(r.run(self.accepts, w.reverse()).contains(self.start));
            assert(r.accepts.contains(self.start));
        }
        if r.accepts_from(self.accepts, w.reverse()) {
            let x = choose|x: int|
                r.run(self.accepts, w.reverse()).contains(x) && r.accepts.contains(x);
            assert(x == self.start);
            let q = choose|q: int|
                self.accepts.contains(q) && r.run(set![q], w.reverse()).contains(self.start);
            self.lemma_reversed_run(self.start, q, w);
        }
    }

    /// Pruning changes nothing for the words read from the start state.
    pub proof fn lemma_pruned_run(self, w: Seq<char>)
        ensures
            self.pruned().run(set![self.start], w) == self.run(set![self.start], w),
            forall|q: int| #[trigger] self.run(set![self.start], w).contains(q) ==> self.reachable(q),
            self.pruned().accepts_word(w) <==> self.accepts_word(w),
        decreases w.len(),
    {
        let p = self.pruned();
        let here = self.run(set![self.start], w);
        if w.len() == 0 {
            lemma_connects_self(self.edge_rel(), self.start);
        } else {
            let u = w.drop_last();
            let c = w.last();
            self.lemma_pruned_run(u);
            let before = self.run(set![self.start], u);
            assert forall|r: int| #[trigger] here.contains(r) implies self.reachable(r) by {
                let q = choose|q: int| before.contains(q) && self.arcs.contains((q, c, r));
                assert(self.edge(q, r));
                assert(self.edge_rel()(q, r));
                lemma_connects_step(self.edge_rel(), self.start, q, r);
            }
            assert forall|r: int| p.step(before, c).contains(r) <==> self.step(before, c).contains(
                r,
            ) by {
                if self.step(before, c).contains(r) {
                    let q = choose|q: int| before.contains(q) && self.arcs.contains((q, c, r));
                    assert(p.arcs.contains((q, c, r)));
                }
                if p.step(before, c).contains(r) {
                    let q = choose|q: int| before.contains(q) && p.arcs.contains((q, c, r));
                    assert(self.arcs.contains((q, c, r)));
                }
            }
            assert(p.step(before, c) =~= self.step(before, c));
        }
        if self.accepts_word(w) {
            let q = choose|q: int| here.contains(q) && self.accepts.contains(q);
            assert(p.accepts.contains(q));
        }
        if p.accepts_word(w) {
            let q = choose|q: int| here.contains(q) && p.accepts.contains(q);
            assert(self.accepts.contains(q));
        }
    }

    /// The automaton with a fresh start state in front of the frontier
    /// `f`, before it is closed.
    pub open spec fn fronted(self, f: Set<int>) -> Automaton {
        self.with_state().with_start(self.size as int).with_eps_to(self.size as int, f)
    }

    /// In the automaton with a fresh start state in front, epsilon edges
    /// lead only from the fresh state to the frontier.
    pub proof fn lemma_fronted_eps(self, f: Set<int>, s: int, t: int)
        requires
            self.sound(),
            self.eps_free(),
            forall|q: int| #[trigger] f.contains(q) ==> self.states.contains(q),
        ensures
            self.fronted(f).eps_reaches(s, t) <==> s == t || (s == self.size && f.contains(t)),
    {
        let w = self.fronted(f);
        let n = self.size as int;
        if w.eps_reaches(s, t) && s != t {
            let x = lemma_connects_first_step(w.eps_rel(), s, t);
            assert(w.eps.contains((s, x)));
            assert(s == n && f.contains(x));
            if x != t {
                let y = lemma_connects_first_step(w.eps_rel(), x, t);
                assert(w.eps.contains((x, y)));
            }
        }
        if s == t {
            lemma_connects_self(w.eps_rel(), s);
        }
        if s == n && f.contains(t) {
            lemma_connects_self(w.eps_rel(), s);
            assert(w.eps.contains((s, t)));
            assert(w.eps_rel()(s, t));
            lemma_connects_step(w.eps_rel(), s, s, t);
        }
    }

    /// What the closed automaton with a fresh start state in front looks
    /// like: the fresh state has the labelled edges of the frontier and
    /// accepts if a state of the frontier does; the rest is as it was.
    pub proof fn lemma_fronted_closed(self, f: Set<int>)
        requires
            self.sound(),
            self.eps_free(),
            forall|q: int| #[trigger] f.contains(q) ==> self.states.contains(q),
        ensures
            self.fronted(f).eps_closed().start == self.size,
            forall|s: int, c: char, u: int| #[trigger]
                self.fronted(f).eps_closed().arcs.contains((s, c, u)) <==> if s == self.size {
                    exists|q: int| f.contains(q) && self.arcs.contains((q, c, u))
                } else {
                    self.arcs.contains((s, c, u))
                },
            forall|s: int| #[trigger]
                self.fronted(f).eps_closed().accepts.contains(s) <==> if s == self.size {
                    self.hits_accept(f)
                } else {
                    self.accepts.contains(s)
                },
    {
        let w = self.fronted(f);
        let k = w.eps_closed();
        let n = self.size as int;
        assert forall|s: int, c: char, u: int| #[trigger]
            k.arcs.contains((s, c, u)) <==> if s == n {
                exists|q: int| f.contains(q) && self.arcs.contains((q, c, u))
            } else {
                self.arcs.contains((s, c, u))
            } by {
            let rhs = if s == n {
                exists|q: int| f.contains(q) && self.arcs.contains((q, c, u))
            } else {
                self.arcs.contains((s, c, u))
            };
            if k.arcs.contains((s, c, u)) {
                let t = choose|t: int| w.eps_reaches(s, t) && w.arcs.contains((t, c, u));
                self.lemma_fronted_eps(f, s, t);
                assert(self.arcs.contains((t, c, u)));
                assert(t != n);
                if s == n {
                    assert(f.contains(t) && self.arcs.contains((t, c, u)));
                }
                assert(rhs);
            }
            if rhs {
                let e = (s, c, u);
                if s == n {
                    let q = choose|q: int| f.contains(q) && self.arcs.contains((q, c, u));
                    self.lemma_fronted_eps(f, s, q);
                    assert(w.eps_reaches(e.0, q));
                    assert(w.arcs.contains((q, e.1, e.2)));
                    assert(exists|t: int| w.eps_reaches(e.0, t) && w.arcs.contains((t, e.1, e.2)));
                } else {
                    self.lemma_fronted_eps(f, s, s);
                    assert(w.eps_reaches(e.0, s));
                    assert(w.arcs.contains((s, e.1, e.2)));
                    assert(exists|t: int| w.eps_reaches(e.0, t) && w.arcs.contains((t, e.1, e.2)));
                }
                assert(k.arcs.contains(e));
            }
        }
        assert forall|s: int| #[trigger]
            k.accepts.contains(s) <==> if s == n {
                self.hits_accept(f)
            } else {
                self.accepts.contains(s)
            } by {
            if k.accepts.contains(s) {
                let t = choose|t: int| w.eps_reaches(s, t) && w.accepts.contains(t);
                self.lemma_fronted_eps(f, s, t);
                assert(self.accepts.contains(t));
                assert(t != n);
            }
            if s == n {
                if self.hits_accept(f) {
                    let q = choose|q: int| f.contains(q) && self.accepts.contains(q);
                    self.lemma_fronted_eps(f, s, q);
                    assert(w.eps_reaches(s, q) && w.accepts.contains(q));
                }
            } else if self.accepts.contains(s) {
                self.lemma_fronted_eps(f, s, s);
                assert(w.eps_reaches(s, s) && w.accepts.contains(s));
            }
        }
    }

    /// From states of the old automaton the closed automaton with a fresh
    /// start state in front reads as the old one does.
    pub proof fn lemma_fronted_run(self, f: Set<int>, from: Set<int>, w: Seq<char>)
        requires
            self.sound(),
            self.eps_free(),
            forall|q: int| #[trigger] f.contains(q) ==> self.states.contains(q),
            forall|q: int| #[trigger] from.contains(q) ==> self.states.contains(q),
        ensures
            self.fronted(f).eps_closed().run(from, w) == self.run(from, w),
            forall|q: int| #[trigger] self.run(from, w).contains(q) ==> self.states.contains(q),
        decreases w.len(),
    {
        let k = self.fronted(f).eps_closed();
        if w.len() > 0 {
            let u = w.drop_last();
            let c = w.last();
            self.lemma_fronted_run(f, from, u);
            self.lemma_fronted_closed(f);
            let before = self.run(from, u);
            assert forall|r: int| k.step(before, c).contains(r) <==> self.step(before, c).contains(
                r,
            ) by {
                if self.step(before, c).contains(r) {
                    let q = choose|q: int| before.contains(q) && self.arcs.contains((q, c, r));
                    assert(k.arcs.contains((q, c, r)));
                }
                if k.step(before, c).contains(r) {
                    let q = choose|q: int| before.contains(q) && k.arcs.contains((q, c, r));
                    assert(self.arcs.contains((q, c, r)));
                }
            }
            assert(k.step(before, c) =~= self.step(before, c));
        }
    }

    /// The automaton rewired for the frontier `f` accepts a word if and
    /// only if the old automaton accepts it from a state of `f`.
    pub proof fn lemma_rewired_accepts(self, f: Set<int>, w: Seq<char>)
        requires
            self.sound(),
            self.eps_free(),
            forall|q: int| #[trigger] f.contains(q) ==> self.states.contains(q),
        ensures
            self.rewired(f).accepts_word(w) <==> self.accepts_from(f, w),
    {
        let k = self.fronted(f).eps_closed();
        let n = self.size as int;
        k.lemma_pruned_run(w);
        self.lemma_fronted_closed(f);
        if w.len() == 0 {
            if k.accepts_word(w) {
                let q = choose|q: int| k.run(set![n], w).contains(q) && k.accepts.contains(q);
                assert(q == n);
            }
            if self.accepts_from(f, w) {
                assert(k.accepts.contains(n));
                assert(k.run(set![n], w).contains(n));
            }
        } else {
            let c = w[0];
            let rest = w.drop_first();
            k.lemma_run_first(set![n], w);
            self.lemma_run_first(f, w);
            let next = self.step(f, c);
            assert forall|r: int| k.step(set![n], c).contains(r) <==> next.contains(r) by {
                if next.contains(r) {
                    let q = choose|q: int| f.contains(q) && self.arcs.contains((q, c, r));
                    assert(k.arcs.contains((n, c, r)));
                    assert(set![n].contains(n));
                }
                if k.step(set![n], c).contains(r) {
                    let q = choose|q: int| set![n].contains(q) && k.arcs.contains((q, c, r));
                    assert(k.arcs.contains((n, c, r)));
                }
            }
            assert(k.step(set![n], c) =~= next);
            self.lemma_fronted_run(f, next, rest);
            let end = self.run(next, rest);
            if k.hits_accept(end) {
                let q = choose|q: int| end.contains(q) && k.accepts.contains(q);
                assert(self.accepts.contains(q));
            }
            if self.hits_accept(end) {
                let q = choose|q: int| end.contains(q) && self.accepts.contains(q);
                assert(k.accepts.contains(q));
            }
        }
    }

    /// After the rewiring for the literal prefix, the automaton accepts a
    /// word if and only if the old automaton accepts the literal followed
    /// by the word.
    pub proof fn lemma_prefix_rewired(self, tail: Seq<char>)
        requires
            self.sound(),
            self.eps_free(),
        ensures
            self.rewired(self.prefix_frontier()).accepts_word(tail) <==> self.accepts_word(
                self.literal_prefix() + tail,
            ),
    {
        let f = self.prefix_frontier();
        self.lemma_walk_end_states(set![self.start], self.size);
        self.lemma_rewired_accepts(f, tail);
        self.lemma_walk_run(set![self.start], self.size);
        self.lemma_run_concat(set![self.start], self.literal_prefix(), tail);
    }

    /// After the rewiring for the literal suffix, the automaton, which is
    /// turned round, accepts a word if and only if the old automaton
    /// accepts the word read backwards, followed by the literal.
    pub proof fn lemma_suffix_rewired(self, tail: Seq<char>)
        requires
            self.sound(),
            self.eps_free(),
        ensures
            self.reversed().rewired(self.suffix_frontier()).accepts_word(tail)
                <==> self.accepts_word(tail.reverse() + self.literal_suffix()),
    {
        let r = self.reversed();
        let f = self.suffix_frontier();
        let word = r.walk_word(self.accepts, self.size);
        self.lemma_reversed_sound();
        r.lemma_walk_end_states(self.accepts, self.size);
        r.lemma_rewired_accepts(f, tail);
        r.lemma_walk_run(self.accepts, self.size);
        r.lemma_run_concat(self.accepts, word, tail);
        let whole = tail.reverse() + self.literal_suffix();
        self.lemma_reversed_accepts(whole);
        assert(whole.reverse() =~= word + tail);
    }

    /// The edges that leave the frontier `f` all carry one and the same
    /// character, and there is such an edge.
    pub open spec fn one_char_leaves(self, f: Set<int>) -> bool {
        exists|c: char| #[trigger] self.only_char_leaves(f, c)
    }

    /// An edge labelled `c` leaves the frontier `f`, and no edge with
    /// another label does.
    pub open spec fn only_char_leaves(self, f: Set<int>, c: char) -> bool {
        &&& exists|q: int, r: int| f.contains(q) && self.arcs.contains((q, c, r))
        &&& forall|q: int, c2: char, r: int|
            f.contains(q) && self.arcs.contains((q, c2, r)) ==> c2 == c
    }

    /// After the rewiring for the literal prefix, the automaton has no
    /// literal prefix if and only if the walk stopped at a frontier of
    /// which a state accepts, or which not exactly one character leaves.
    /// (It has one where the walk stopped for another reason: a state
    /// with an edge to itself, a state without edges, or the limit of
    /// steps.)
    pub proof fn lemma_second_prefix(self)
        requires
            self.sound(),
            self.eps_free(),
        ensures
            self.rewired(self.prefix_frontier()).literal_prefix().len() == 0 <==> (
            self.hits_accept(self.prefix_frontier()) || !self.one_char_leaves(
                self.prefix_frontier(),
            )),
    {
        let f = self.prefix_frontier();
        let n = self.size as int;
        let k = self.fronted(f).eps_closed();
        let p = self.rewired(f);
        self.lemma_walk_end_states(set![self.start], self.size);
        self.lemma_fronted_closed(f);
        lemma_connects_self(k.edge_rel(), n);
        assert(k.reachable(n));
        assert forall|c: char, r: int| p.arcs.contains((n, c, r)) <==> exists|q: int|
            f.contains(q) && self.arcs.contains((q, c, r)) by {
            assert(p.arcs.contains((n, c, r)) <==> k.arcs.contains((n, c, r)));
        }
        assert(p.accepts.contains(n) <==> self.hits_accept(f)) by {
            assert(p.accepts.contains(n) <==> k.accepts.contains(n));
        }
        let front = set![n];
        assert(front.contains(n));
        if p.can_extend(front) {
            let c = choose|c: char| p.extends_by(front, c);
            assert(p.reads_only(n, c));
            let r = choose|r: int| p.arcs.contains((n, c, r));
            let q = choose|q: int| f.contains(q) && self.arcs.contains((q, c, r));
            assert forall|q2: int, c2: char, r2: int|
                f.contains(q2) && self.arcs.contains((q2, c2, r2)) implies c2 == c by {
                assert(p.arcs.contains((n, c2, r2)));
            }
            assert(self.only_char_leaves(f, c));
            assert(self.one_char_leaves(f));
            assert(!self.hits_accept(f));
            let word = p.walk_word(front, p.size);
            assert(word.len() > 0);
        } else {
            assert(p.walk_word(front, p.size) =~= Seq::<char>::empty());
            if !self.hits_accept(f) && self.one_char_leaves(f) {
                let c = choose|c: char| #[trigger] self.only_char_leaves(f, c);
                let (q, r) = choose|q: int, r: int| f.contains(q) && self.arcs.contains((q, c, r));
                assert(p.arcs.contains((n, c, r)));
                assert forall|x: int| !p.eps.contains((n, x)) by {}
                if p.arcs.contains((n, c, n)) {
                    let q2 = choose|q2: int| f.contains(q2) && self.arcs.contains((q2, c, n));
                    assert(self.arcs.contains((q2, c, n)));
                }
                assert forall|c2: char, r2: int| p.arcs.contains((n, c2, r2)) implies c2 == c by {
                    let q2 = choose|q2: int| f.contains(q2) && self.arcs.contains((q2, c2, r2));
                }
                assert(p.reads_only(n, c));
                assert forall|x: int| front.contains(x) implies p.reads_only(x, c) by {}
                assert(p.extends_by(front, c));
            }
        }
    }
}

} // verus!
