//! What the constructions keep true of an automaton: every edge between
//! states, and after compilation no epsilon edge and no state out of
//! reach.

use vstd::prelude::*;
use crate::automaton::Automaton;
use crate::compile::thompson;
use crate::earley_parse::Tree;
use crate::graph::{
    connects, is_path, lemma_connects_first_step, lemma_connects_self, lemma_connects_step,
};

verus! {

impl Automaton {
    /// Every identifier is below `size`, and the start state, the
    /// accepting states and the ends of every edge are states.
    pub open spec fn sound(self) -> bool {
        self.bounded() && self.proper()
    }

    /// Raising the identifiers keeps an automaton sound.
    pub proof fn lemma_shifted_sound(self, k: nat)
        requires
            self.sound(),
        ensures
            self.shifted(k).sound(),
            forall|q: int| #[trigger] self.shifted(k).states.contains(q) ==> k <= q,
    {
        let s = self.shifted(k);
        assert forall|p: int, q: int| #[trigger] s.eps.contains((p, q)) implies 0 <= p < s.size
            && 0 <= q < s.size && s.states.contains(p) && s.states.contains(q) by {
            assert(self.eps.contains((p - k, q - k)));
        }
        assert forall|p: int, c: char, q: int| #[trigger] s.arcs.contains((p, c, q)) implies 0
            <= p < s.size && 0 <= q < s.size && s.states.contains(p) && s.states.contains(q) by {
            assert(self.arcs.contains((p - k, c, q - k)));
        }
    }

    /// One automaton followed by another is sound.
    pub proof fn lemma_followed_by_sound(self, next: Automaton)
        requires
            self.sound(),
            next.sound(),
        ensures
            self.followed_by(next).sound(),
    {
        next.lemma_shifted_sound(self.size);
        let o = next.shifted(self.size);
        let r = self.followed_by(next);
        assert forall|p: int, q: int| #[trigger] r.eps.contains((p, q)) implies 0 <= p < r.size
            && 0 <= q < r.size && r.states.contains(p) && r.states.contains(q) by {
            if self.eps.contains((p, q)) {
            } else if o.eps.contains((p, q)) {
            } else {
                assert(self.accepts.contains(p) && q == o.start);
            }
        }
        assert forall|p: int, c: char, q: int| #[trigger] r.arcs.contains((p, c, q)) implies 0
            <= p < r.size && 0 <= q < r.size && r.states.contains(p) && r.states.contains(q) by {
            if self.arcs.contains((p, c, q)) {
            } else {
                assert(o.arcs.contains((p, c, q)));
            }
        }
    }

    /// One automaton beside another is sound.
    pub proof fn lemma_or_else_sound(self, other: Automaton)
        requires
            self.sound(),
            other.sound(),
        ensures
            self.or_else(other).sound(),
    {
        other.lemma_shifted_sound(self.size);
        let o = other.shifted(self.size);
        let r = self.or_else(other);
        assert forall|p: int, q: int| #[trigger] r.eps.contains((p, q)) implies 0 <= p < r.size
            && 0 <= q < r.size && r.states.contains(p) && r.states.contains(q) by {
            if self.eps.contains((p, q)) {
            } else if o.eps.contains((p, q)) {
            } else {
                assert(p == self.start && q == o.start);
            }
        }
        assert forall|p: int, c: char, q: int| #[trigger] r.arcs.contains((p, c, q)) implies 0
            <= p < r.size && 0 <= q < r.size && r.states.contains(p) && r.states.contains(q) by {
            if self.arcs.contains((p, c, q)) {
            } else {
                assert(o.arcs.contains((p, c, q)));
            }
        }
    }

    /// Sound automata one after the other are sound.
    pub proof fn lemma_concat_all_sound(parts: Seq<Automaton>)
        requires
            forall|i: int| 0 <= i < parts.len() ==> (#[trigger] parts[i]).sound(),
        ensures
            Automaton::concat_all(parts).sound(),
        decreases parts.len(),
    {
        if parts.len() > 0 {
            Automaton::lemma_concat_all_sound(parts.drop_last());
            Automaton::concat_all(parts.drop_last()).lemma_followed_by_sound(parts.last());
        }
    }

    /// Sound automata side by side are sound.
    pub proof fn lemma_union_all_sound(parts: Seq<Automaton>)
        requires
            forall|i: int| 0 <= i < parts.len() ==> (#[trigger] parts[i]).sound(),
        ensures
            Automaton::union_all(parts).sound(),
        decreases parts.len(),
    {
        if parts.len() > 0 {
            Automaton::lemma_union_all_sound(parts.drop_last());
            Automaton::union_all(parts.drop_last()).lemma_or_else_sound(parts.last());
        }
    }

    /// Repetition keeps an automaton sound.
    pub proof fn lemma_repeat_sound(self)
        requires
            self.sound(),
        ensures
            self.plus().sound(),
            self.question().sound(),
            self.star().sound(),
    {
        let p = self.plus();
        assert forall|x: int, y: int| #[trigger] p.eps.contains((x, y)) implies 0 <= x < p.size
            && 0 <= y < p.size && p.states.contains(x) && p.states.contains(y) by {
            if !self.eps.contains((x, y)) {
                assert(self.accepts.contains(x) && y == self.start);
            }
        }
    }

    /// Where epsilon edges lead from `s` to another state, `s` has an
    /// epsilon edge.
    pub proof fn lemma_eps_reaches_source(self, s: int, t: int)
        requires
            self.sound(),
            self.eps_reaches(s, t),
            s != t,
        ensures
            self.states.contains(s),
            0 <= s < self.size,
    {
        let x = lemma_connects_first_step(self.eps_rel(), s, t);
        assert(self.eps.contains((s, x)));
    }

    /// Closing keeps an automaton sound and leaves no epsilon edge.
    pub proof fn lemma_eps_closed_sound(self)
        requires
            self.sound(),
        ensures
            self.eps_closed().sound(),
            self.eps_closed().eps_free(),
    {
        let c = self.eps_closed();
        assert forall|q: int| #[trigger] c.accepts.contains(q) implies c.states.contains(q) && 0
            <= q < c.size by {
            let t = choose|t: int| self.eps_reaches(q, t) && self.accepts.contains(t);
            if q != t {
                self.lemma_eps_reaches_source(q, t);
            }
        }
        assert forall|p: int, x: char, q: int| #[trigger] c.arcs.contains((p, x, q)) implies 0
            <= p < c.size && 0 <= q < c.size && c.states.contains(p) && c.states.contains(q) by {
            let t = choose|t: int| self.eps_reaches(p, t) && self.arcs.contains((t, x, q));
            if p != t {
                self.lemma_eps_reaches_source(p, t);
            }
        }
    }

    /// A path from the start state is a path of the pruned automaton too.
    proof fn lemma_path_lift(self, path: Seq<int>, i: int)
        requires
            is_path(self.edge_rel(), path),
            path.len() > 0,
            path[0] == self.start,
            0 <= i < path.len(),
        ensures
            self.reachable(path[i]),
            self.pruned().reachable(path[i]),
        decreases i,
    {
        let p = self.pruned();
        if i == 0 {
            lemma_connects_self(self.edge_rel(), self.start);
            lemma_connects_self(p.edge_rel(), p.start);
        } else {
            self.lemma_path_lift(path, i - 1);
            let a = path[i - 1];
            let b = path[i];
            assert(self.edge_rel()(path[i - 1], path[i - 1 + 1]));
            assert(self.edge(a, b));
            if self.eps.contains((a, b)) {
                assert(p.eps.contains((a, b)));
            } else {
                let c = choose|c: char| self.arcs.contains((a, c, b));
                assert(p.arcs.contains((a, c, b)));
            }
            assert(p.edge(a, b));
            assert(p.edge_rel()(a, b));
            lemma_connects_step(self.edge_rel(), self.start, a, b);
            lemma_connects_step(p.edge_rel(), p.start, a, b);
        }
    }

    /// What can be reached can be reached in the pruned automaton.
    pub proof fn lemma_pruned_reachable(self, q: int)
        requires
            self.reachable(q),
        ensures
            self.pruned().reachable(q),
    {
        let path = choose|path: Seq<int>|
            path.len() > 0 && path[0] == self.start && path.last() == q && #[trigger] is_path(
                self.edge_rel(),
                path,
            );
        self.lemma_path_lift(path, path.len() - 1);
    }

    /// Pruning keeps an automaton sound and leaves no state out of reach.
    pub proof fn lemma_pruned_sound(self)
        requires
            self.sound(),
        ensures
            self.pruned().sound(),
            self.pruned().trim(),
            self.eps_free() ==> self.pruned().eps_free(),
    {
        let p = self.pruned();
        lemma_connects_self(self.edge_rel(), self.start);
        assert forall|q: int| #[trigger] p.states.contains(q) implies p.reachable(q) by {
            self.lemma_pruned_reachable(q);
        }
        assert forall|x: int, y: int| #[trigger] p.eps.contains((x, y)) implies 0 <= x < p.size
            && 0 <= y < p.size && p.states.contains(x) && p.states.contains(y) by {
            assert(self.eps.contains((x, y)));
            assert(self.edge(x, y));
            assert(self.edge_rel()(x, y));
            lemma_connects_step(self.edge_rel(), self.start, x, y);
        }
        assert forall|x: int, c: char, y: int| #[trigger] p.arcs.contains((x, c, y)) implies 0
            <= x < p.size && 0 <= y < p.size && p.states.contains(x) && p.states.contains(y) by {
            assert(self.arcs.contains((x, c, y)));
            assert(self.edge(x, y));
            assert(self.edge_rel()(x, y));
            lemma_connects_step(self.edge_rel(), self.start, x, y);
        }
    }

    /// A sound automaton, closed and pruned, is compiled: it has no
    /// epsilon edge, every state of it can be reached from its start
    /// state, and every edge of it leads from a state to a state.
    pub proof fn lemma_compiled(self)
        requires
            self.sound(),
        ensures
            self.eps_closed().pruned().compiled(),
    {
        self.lemma_eps_closed_sound();
        self.eps_closed().lemma_pruned_sound();
    }

    /// Rewiring a sound automaton for a frontier of its states gives a
    /// compiled automaton.
    pub proof fn lemma_rewired_compiled(self, frontier: Set<int>)
        requires
            self.sound(),
            forall|q: int| #[trigger] frontier.contains(q) ==> self.states.contains(q),
        ensures
            self.rewired(frontier).compiled(),
    {
        let w = self.with_state().with_start(self.size as int).with_eps_to(
            self.size as int,
            frontier,
        );
        assert(w.sound());
        w.lemma_compiled();
    }

    /// Turning the edges round keeps an automaton sound.
    pub proof fn lemma_reversed_sound(self)
        requires
            self.sound(),
        ensures
            self.reversed().sound(),
    {
        let r = self.reversed();
        assert forall|x: int, y: int| #[trigger] r.eps.contains((x, y)) implies 0 <= x < r.size
            && 0 <= y < r.size && r.states.contains(x) && r.states.contains(y) by {
            assert(self.eps.contains((y, x)));
        }
        assert forall|x: int, c: char, y: int| #[trigger] r.arcs.contains((x, c, y)) implies 0
            <= x < r.size && 0 <= y < r.size && r.states.contains(x) && r.states.contains(y) by {
            assert(self.arcs.contains((y, c, x)));
        }
    }

    /// A step from states leads to states.
    pub proof fn lemma_step_states(self, f: Set<int>, c: char)
        requires
            self.sound(),
        ensures
            forall|q: int| #[trigger] self.step(f, c).contains(q) ==> self.states.contains(q),
    {
    }

    /// The walk from states ends in states.
    pub proof fn lemma_walk_end_states(self, f: Set<int>, fuel: nat)
        requires
            self.sound(),
            forall|q: int| #[trigger] f.contains(q) ==> self.states.contains(q),
        ensures
            forall|q: int| #[trigger] self.walk_end(f, fuel).contains(q) ==> self.states.contains(q),
        decreases fuel,
    {
        if fuel > 0 && self.can_extend(f) {
            let c = self.next_char(f);
            self.lemma_step_states(f, c);
            self.lemma_walk_end_states(self.step(f, c), (fuel - 1) as nat);
            assert(self.walk_end(f, fuel) == self.walk_end(self.step(f, c), (fuel - 1) as nat));
        } else {
            assert(self.walk_end(f, fuel) == f);
        }
    }
}

/// The automaton that Thompson's construction builds is sound.
pub proof fn lemma_thompson_sound(t: Tree)
    ensures
        thompson(t).sound(),
    decreases t,
{
    match t {
        Tree::Leaf(c) => {
            assert(Automaton::single(c).sound());
            assert(Automaton::class('.').sound());
        },
        Tree::Node(name, kids) => {
            assert(Automaton::blank().sound());
            if kids.len() >= 1 {
                lemma_thompson_sound(kids[0]);
                thompson(kids[0]).lemma_repeat_sound();
            }
            if kids.len() >= 2 {
                lemma_thompson_sound(kids[1]);
                let parts = seq![thompson(kids[0]), thompson(kids[1])];
                Automaton::lemma_concat_all_sound(parts);
                if kids[1] is Leaf {
                    let c = kids[1]->Leaf_0;
                    assert(Automaton::single(c).sound());
                    assert(Automaton::class(c).sound());
                }
            }
            if kids.len() == 3 {
                lemma_thompson_sound(kids[2]);
                let parts = seq![thompson(kids[0]), thompson(kids[2])];
                Automaton::lemma_union_all_sound(parts);
            }
        },
    }
}

} // verus!
