//! What the constructions do to the words that an automaton accepts,
//! epsilon edges counted, and that the automaton of a pattern accepts
//! the words that the pattern denotes.

use vstd::prelude::*;
use crate::automaton::{in_class, Automaton};
use crate::compile::{compilable, denotes, denotes_some, is_class_letter, thompson};
use crate::earley_parse::Tree;
use crate::invariants::lemma_thompson_sound;
use crate::graph::{
    connects, is_path, lemma_closed_holds_connected, lemma_connects_first_step,
    lemma_connects_same, lemma_connects_self, lemma_connects_step,
};

verus! {

/// A path between different nodes ends with a step.
pub proof fn lemma_connects_last_step(rel: spec_fn(int, int) -> bool, p: int, q: int) -> (x: int)
    requires
        connects(rel, p, q),
        p != q,
    ensures
        connects(rel, p, x),
        rel(x, q),
{
    let path = choose|path: Seq<int>|
        path.len() > 0 && path[0] == p && path.last() == q && #[trigger] is_path(rel, path);
    assert(path.len() > 1);
    let n = path.len() as int;
    assert(rel(path[n - 2], path[n - 2 + 1]));
    let front = path.drop_last();
    assert forall|i: int| 0 <= i < front.len() - 1 implies #[trigger] rel(front[i], front[i + 1]) by {
        assert(rel(path[i], path[i + 1]));
    }
    assert(is_path(rel, front));
    assert(front.len() > 0 && front[0] == p && front.last() == path[n - 2]);
    path[n - 2]
}

/// Two paths that meet can be joined.
pub proof fn lemma_connects_join(rel: spec_fn(int, int) -> bool, p: int, q: int, r: int)
    requires
        connects(rel, p, q),
        connects(rel, q, r),
    ensures
        connects(rel, p, r),
{
    let inside = |x: int| connects(rel, p, x);
    assert forall|x: int, y: int| inside(x) && #[trigger] rel(x, y) implies inside(y) by {
        lemma_connects_step(rel, p, x, y);
    }
    lemma_closed_holds_connected(rel, inside, q, r);
}

impl Automaton {
    /// The language of the automaton, epsilon edges counted.
    pub open spec fn language(self) -> spec_fn(Seq<char>) -> bool {
        |w: Seq<char>| self.recognizes(w)
    }

    /// A set of states is part of its closure.
    pub proof fn lemma_eclose_holds(self, from: Set<int>, s: int)
        requires
            from.contains(s),
        ensures
            self.eclose(from).contains(s),
    {
        lemma_connects_self(self.eps_rel(), s);
    }

    /// What epsilon edges lead to from a closure is in the closure.
    pub proof fn lemma_eclose_closed(self, from: Set<int>, s: int, t: int)
        requires
            self.eclose(from).contains(s),
            self.eps_reaches(s, t),
        ensures
            self.eclose(from).contains(t),
    {
        let r = choose|r: int| from.contains(r) && self.eps_reaches(r, s);
        lemma_connects_join(self.eps_rel(), r, s, t);
    }

    /// Closing twice is closing.
    pub proof fn lemma_eclose_twice(self, from: Set<int>)
        ensures
            self.eclose(self.eclose(from)) == self.eclose(from),
    {
        let once = self.eclose(from);
        assert forall|t: int| self.eclose(once).contains(t) <==> once.contains(t) by {
            if self.eclose(once).contains(t) {
                let s = choose|s: int| once.contains(s) && self.eps_reaches(s, t);
                self.lemma_eclose_closed(from, s, t);
            }
            if once.contains(t) {
                self.lemma_eclose_holds(once, t);
            }
        }
        assert(self.eclose(once) =~= once);
    }

    /// What is read is closed.
    pub proof fn lemma_erun_closed(self, from: Set<int>, w: Seq<char>)
        ensures
            self.eclose(self.erun(from, w)) == self.erun(from, w),
    {
        if w.len() == 0 {
            self.lemma_eclose_twice(from);
        } else {
            self.lemma_eclose_twice(self.step(self.erun(from, w.drop_last()), w.last()));
        }
    }

    /// Reading one character more: a step and a closure.
    pub proof fn lemma_erun_push(self, from: Set<int>, w: Seq<char>, c: char)
        ensures
            self.erun(from, w.push(c)) == self.eclose(self.step(self.erun(from, w), c)),
    {
        assert(w.push(c).drop_last() =~= w);
    }
}

/// `w` is a word of the first language followed by a word of the second.
pub open spec fn cat(
    first: spec_fn(Seq<char>) -> bool,
    second: spec_fn(Seq<char>) -> bool,
    w: Seq<char>,
) -> bool {
    exists|k: int| 0 <= k <= w.len() && first(#[trigger] w.take(k)) && second(w.skip(k))
}

impl Automaton {
    /// In an automaton followed by another, epsilon edges lead from a
    /// state of the first where they lead in the first, and from there
    /// over an accepting state into the second; from a state of the
    /// second they lead where they lead in the second.
    pub proof fn lemma_followed_eps(self, next: Automaton, s: int, t: int)
        requires
            self.sound(),
            next.sound(),
        ensures
            self.followed_by(next).eps_reaches(s, t) <==> if s < self.size {
                self.eps_reaches(s, t) || exists|f: int|
                    self.eps_reaches(s, f) && self.accepts.contains(f) && next.eps_reaches(
                        next.start,
                        t - self.size,
                    )
            } else {
                next.eps_reaches(s - self.size, t - self.size)
            },
    {
        let z = self.followed_by(next);
        let n = self.size as int;
        let o = next.shifted(self.size);
        let zr = z.eps_rel();
        let goal = |p: int, q: int|
            if p < n {
                self.eps_reaches(p, q) || exists|f: int|
                    self.eps_reaches(p, f) && self.accepts.contains(f) && next.eps_reaches(
                        next.start,
                        q - n,
                    )
            } else {
                next.eps_reaches(p - n, q - n)
            };
        // What the combined automaton reaches is of that form.
        if z.eps_reaches(s, t) {
            let inside = |q: int| goal(s, q);
            lemma_connects_self(self.eps_rel(), s);
            lemma_connects_self(next.eps_rel(), s - n);
            assert(inside(s));
            assert forall|x: int, y: int| inside(x) && #[trigger] zr(x, y) implies inside(y) by {
                assert(z.eps.contains((x, y)));
                if s < n {
                    if self.eps_reaches(s, x) {
                        if x != s {
                            let b = lemma_connects_last_step(self.eps_rel(), s, x);
                            assert(self.eps.contains((b, x)));
                        }
                        assert(x < n);
                        if self.eps.contains((x, y)) {
                            assert(self.eps_rel()(x, y));
                            lemma_connects_step(self.eps_rel(), s, x, y);
                        } else if o.eps.contains((x, y)) {
                            assert(next.eps.contains((x - n, y - n)));
                        } else {
                            assert(self.accepts.contains(x) && y == o.start);
                            lemma_connects_self(next.eps_rel(), next.start);
                            assert(self.eps_reaches(s, x) && self.accepts.contains(x)
                                && next.eps_reaches(next.start, y - n));
                        }
                    } else {
                        let f = choose|f: int|
                            self.eps_reaches(s, f) && self.accepts.contains(f)
                                && next.eps_reaches(next.start, x - n);
                        if x - n != next.start {
                            let b = lemma_connects_last_step(next.eps_rel(), next.start, x - n);
                            assert(next.eps.contains((b, x - n)));
                        }
                        assert(x >= n);
                        if self.eps.contains((x, y)) {
                        } else if o.eps.contains((x, y)) {
                            assert(next.eps.contains((x - n, y - n)));
                            assert(next.eps_rel()(x - n, y - n));
                            lemma_connects_step(next.eps_rel(), next.start, x - n, y - n);
                            assert(self.eps_reaches(s, f) && self.accepts.contains(f)
                                && next.eps_reaches(next.start, y - n));
                        } else {
                        }
                    }
                } else {
                    if x - n != s - n {
                        let b = lemma_connects_last_step(next.eps_rel(), s - n, x - n);
                        assert(next.eps.contains((b, x - n)));
                    }
                    assert(x >= n);
                    if self.eps.contains((x, y)) {
                    } else if o.eps.contains((x, y)) {
                        assert(next.eps.contains((x - n, y - n)));
                        assert(next.eps_rel()(x - n, y - n));
                        lemma_connects_step(next.eps_rel(), s - n, x - n, y - n);
                    } else {
                    }
                }
            }
            lemma_closed_holds_connected(zr, inside, s, t);
        }
        // And what is of that form, the combined automaton reaches.
        if goal(s, t) {
            if s < n && self.eps_reaches(s, t) {
                assert forall|x: int, y: int| #[trigger] self.eps_rel()(x, y) implies zr(x, y) by {
                    assert(self.eps.contains((x, y)));
                    assert(z.eps.contains((x, y)));
                }
                lemma_connects_same(self.eps_rel(), zr, s, t);
            } else if s < n {
                let f = choose|f: int|
                    self.eps_reaches(s, f) && self.accepts.contains(f) && next.eps_reaches(
                        next.start,
                        t - n,
                    );
                assert forall|x: int, y: int| #[trigger] self.eps_rel()(x, y) implies zr(x, y) by {
                    assert(self.eps.contains((x, y)));
                    assert(z.eps.contains((x, y)));
                }
                lemma_connects_same(self.eps_rel(), zr, s, f);
                assert(z.eps.contains((f, o.start)));
                assert(zr(f, o.start));
                lemma_connects_step(zr, s, f, o.start);
                self.lemma_shifted_reach(next, next.start, t - n);
                lemma_connects_join(zr, s, o.start, t);
            } else {
                self.lemma_shifted_reach(next, s - n, t - n);
            }
        }
    }

    /// Where epsilon edges lead in the second automaton, they lead in the
    /// combined one, with the identifiers raised.
    pub proof fn lemma_shifted_reach(self, next: Automaton, a: int, b: int)
        requires
            next.eps_reaches(a, b),
        ensures
            self.followed_by(next).eps_reaches(a + self.size, b + self.size),
    {
        let z = self.followed_by(next);
        let n = self.size as int;
        let o = next.shifted(self.size);
        let zr = z.eps_rel();
        let inside = |q: int| connects(zr, a + n, q + n);
        lemma_connects_self(zr, a + n);
        assert forall|x: int, y: int| inside(x) && #[trigger] next.eps_rel()(x, y) implies inside(
            y,
        ) by {
            assert(next.eps.contains((x, y)));
            assert(o.eps.contains((x + n, y + n)));
            assert(z.eps.contains((x + n, y + n)));
            assert(zr(x + n, y + n));
            lemma_connects_step(zr, a + n, x + n, y + n);
        }
        lemma_closed_holds_connected(next.eps_rel(), inside, a, b);
    }
}

impl Automaton {
    /// What an automaton followed by another reaches on `w`: what the
    /// first reaches, and, wherever the first accepts a beginning of `w`,
    /// what the second reaches on the rest.
    pub open spec fn relay(self, next: Automaton, w: Seq<char>) -> Set<int> {
        Set::new(
            |q: int|
                self.erun(set![self.start], w).contains(q) || exists|k: int|
                    0 <= k <= w.len() && self.recognizes(#[trigger] w.take(k)) && next.erun(
                        set![next.start],
                        w.skip(k),
                    ).contains(q - self.size),
        )
    }

    /// What is read from states stays among the states.
    pub proof fn lemma_erun_states(self, from: Set<int>, w: Seq<char>, q: int)
        requires
            self.sound(),
            forall|s: int| #[trigger] from.contains(s) ==> self.states.contains(s),
            self.erun(from, w).contains(q),
        ensures
            self.states.contains(q),
    {
        let base = if w.len() == 0 {
            from
        } else {
            self.step(self.erun(from, w.drop_last()), w.last())
        };
        let s = choose|s: int| base.contains(s) && self.eps_reaches(s, q);
        assert(self.states.contains(s));
        if s != q {
            let b = lemma_connects_last_step(self.eps_rel(), s, q);
            assert(self.eps.contains((b, q)));
        }
    }

    /// An automaton followed by another reaches what `relay` says.
    pub proof fn lemma_followed_run(self, next: Automaton, w: Seq<char>)
        requires
            self.sound(),
            next.sound(),
        ensures
            self.followed_by(next).erun(set![self.start], w) == self.relay(next, w),
        decreases w.len(),
    {
        let z = self.followed_by(next);
        let n = self.size as int;
        let o = next.shifted(self.size);
        let xs = set![self.start];
        let ys = set![next.start];
        let got = z.erun(xs, w);
        let want = self.relay(next, w);
        if w.len() == 0 {
            assert(w.take(0) =~= w);
            assert(w.skip(0) =~= w);
            assert forall|t: int| got.contains(t) <==> want.contains(t) by {
                self.lemma_followed_eps(next, self.start, t);
                if got.contains(t) {
                    let s = choose|s: int| xs.contains(s) && z.eps_reaches(s, t);
                    if !self.eps_reaches(self.start, t) {
                        let f = choose|f: int|
                            self.eps_reaches(self.start, f) && self.accepts.contains(f)
                                && next.eps_reaches(next.start, t - n);
                        assert(self.erun(xs, w).contains(f));
                        assert(self.recognizes(w.take(0)));
                        assert(ys.contains(next.start));
                        assert(next.erun(ys, w.skip(0)).contains(t - n));
                    } else {
                        assert(self.erun(xs, w).contains(t));
                    }
                }
                if want.contains(t) {
                    assert(xs.contains(self.start));
                    if self.erun(xs, w).contains(t) {
                        let s = choose|s: int| xs.contains(s) && self.eps_reaches(s, t);
                    } else {
                        let k = choose|k: int|
                            0 <= k <= w.len() && self.recognizes(#[trigger] w.take(k))
                                && next.erun(ys, w.skip(k)).contains(t - n);
                        assert(k == 0);
                        let f = choose|f: int|
                            self.erun(xs, w).contains(f) && self.accepts.contains(f);
                        let s = choose|s: int| xs.contains(s) && self.eps_reaches(s, f);
                        let y = choose|y: int| ys.contains(y) && next.eps_reaches(y, t - n);
                        assert(self.eps_reaches(self.start, f) && self.accepts.contains(f)
                            && next.eps_reaches(next.start, t - n));
                    }
                }
            }
            assert(got =~= want);
        } else {
            let u = w.drop_last();
            let c = w.last();
            self.lemma_followed_run(next, u);
            let before = z.erun(xs, u);
            assert(before == self.relay(next, u));
            let stepped = z.step(before, c);
            let xu = self.erun(xs, u);
            let xw = self.erun(xs, w);
            assert forall|t: int| got.contains(t) implies want.contains(t) by {
                let r = choose|r: int| stepped.contains(r) && z.eps_reaches(r, t);
                let q = choose|q: int| before.contains(q) && z.arcs.contains((q, c, r));
                self.lemma_followed_eps(next, r, t);
                if xu.contains(q) {
                    self.lemma_erun_states(xs, u, q);
                    if o.arcs.contains((q, c, r)) {
                        assert(next.arcs.contains((q - n, c, r - n)));
                    }
                    assert(self.arcs.contains((q, c, r)));
                    assert(self.step(xu, c).contains(r));
                    if self.eps_reaches(r, t) {
                        assert(xw.contains(t));
                    } else {
                        let f = choose|f: int|
                            self.eps_reaches(r, f) && self.accepts.contains(f)
                                && next.eps_reaches(next.start, t - n);
                        assert(xw.contains(f));
                        assert(w.take(w.len() as int) =~= w);
                        assert(self.recognizes(w.take(w.len() as int)));
                        assert(w.skip(w.len() as int) =~= Seq::<char>::empty());
                        assert(ys.contains(next.start));
                        assert(next.erun(ys, w.skip(w.len() as int)).contains(t - n));
                    }
                } else {
                    let k = choose|k: int|
                        0 <= k <= u.len() && self.recognizes(#[trigger] u.take(k)) && next.erun(
                            ys,
                            u.skip(k),
                        ).contains(q - n);
                    next.lemma_erun_states(ys, u.skip(k), q - n);
                    assert(q >= n);
                    if self.arcs.contains((q, c, r)) {
                    }
                    assert(o.arcs.contains((q, c, r)));
                    assert(next.arcs.contains((q - n, c, r - n)));
                    assert(next.step(next.erun(ys, u.skip(k)), c).contains(r - n));
                    assert(w.take(k) =~= u.take(k));
                    assert(w.skip(k) =~= u.skip(k).push(c));
                    next.lemma_erun_push(ys, u.skip(k), c);
                    assert(next.erun(ys, w.skip(k)).contains(t - n));
                }
            }
            assert forall|t: int| want.contains(t) implies got.contains(t) by {
                if xw.contains(t) {
                    self.lemma_relay_first(next, w, t);
                } else {
                    let k = choose|k: int|
                        0 <= k <= w.len() && self.recognizes(#[trigger] w.take(k)) && next.erun(
                            ys,
                            w.skip(k),
                        ).contains(t - n);
                    if k == w.len() {
                        assert(w.take(k) =~= w);
                        assert(w.skip(k) =~= Seq::<char>::empty());
                        let f = choose|f: int| xw.contains(f) && self.accepts.contains(f);
                        self.lemma_relay_first(next, w, f);
                        let y = choose|y: int| ys.contains(y) && next.eps_reaches(y, t - n);
                        self.lemma_erun_states(xs, w, f);
                        self.lemma_followed_eps(next, f, t);
                        lemma_connects_self(self.eps_rel(), f);
                        assert(self.eps_reaches(f, f) && self.accepts.contains(f)
                            && next.eps_reaches(next.start, t - n));
                        z.lemma_erun_closed(xs, w);
                        z.lemma_eclose_closed(got, f, t);
                        z.lemma_erun_closed(xs, w);
                        assert(z.eclose(got).contains(t)) by {
                            assert(got.contains(f) && z.eps_reaches(f, t));
                        }
                    } else {
                        assert(w.take(k) =~= u.take(k));
                        assert(w.skip(k) =~= u.skip(k).push(c));
                        next.lemma_erun_push(ys, u.skip(k), c);
                        let yu = next.erun(ys, u.skip(k));
                        let r = choose|r: int| next.step(yu, c).contains(r) && next.eps_reaches(r, t - n);
                        let q = choose|q: int| yu.contains(q) && next.arcs.contains((q, c, r));
                        assert(before.contains(q + n)) by {
                            assert(next.erun(ys, u.skip(k)).contains((q + n) - n));
                        }
                        assert(o.arcs.contains((q + n, c, r + n)));
                        assert(z.arcs.contains((q + n, c, r + n)));
                        assert(stepped.contains(r + n));
                        self.lemma_followed_eps(next, r + n, t);
                        assert(z.eps_reaches(r + n, t));
                    }
                }
            }
            assert(got =~= want);
        }
    }

    /// What the first automaton reaches on `w`, the combined one reaches.
    pub proof fn lemma_relay_first(self, next: Automaton, w: Seq<char>, t: int)
        requires
            self.sound(),
            next.sound(),
            self.erun(set![self.start], w).contains(t),
        ensures
            self.followed_by(next).erun(set![self.start], w).contains(t),
        decreases w.len(),
    {
        let z = self.followed_by(next);
        let xs = set![self.start];
        if w.len() == 0 {
            let s = choose|s: int| xs.contains(s) && self.eps_reaches(s, t);
            self.lemma_followed_eps(next, self.start, t);
        } else {
            let u = w.drop_last();
            let c = w.last();
            let xu = self.erun(xs, u);
            let r = choose|r: int| self.step(xu, c).contains(r) && self.eps_reaches(r, t);
            let q = choose|q: int| xu.contains(q) && self.arcs.contains((q, c, r));
            self.lemma_relay_first(next, u, q);
            assert(z.arcs.contains((q, c, r)));
            assert(z.step(z.erun(xs, u), c).contains(r));
            self.lemma_erun_states(xs, u, q);
            self.lemma_followed_eps(next, r, t);
        }
    }

    /// An automaton followed by another accepts the words of the first
    /// followed by the words of the second.
    pub proof fn lemma_followed_language(self, next: Automaton, w: Seq<char>)
        requires
            self.sound(),
            next.sound(),
        ensures
            self.followed_by(next).recognizes(w) <==> cat(self.language(), next.language(), w),
    {
        let z = self.followed_by(next);
        let n = self.size as int;
        let xs = set![self.start];
        let ys = set![next.start];
        self.lemma_followed_run(next, w);
        let all = z.erun(xs, w);
        if z.recognizes(w) {
            let q = choose|q: int| all.contains(q) && z.accepts.contains(q);
            assert(next.accepts.contains(q - n));
            if self.erun(xs, w).contains(q) {
                self.lemma_erun_states(xs, w, q);
            }
            let k = choose|k: int|
                0 <= k <= w.len() && self.recognizes(#[trigger] w.take(k)) && next.erun(
                    ys,
                    w.skip(k),
                ).contains(q - n);
            assert(next.recognizes(w.skip(k)));
            assert(self.language()(w.take(k)) && next.language()(w.skip(k)));
        }
        if cat(self.language(), next.language(), w) {
            let k = choose|k: int|
                0 <= k <= w.len() && self.language()(#[trigger] w.take(k)) && next.language()(
                    w.skip(k),
                );
            let q = choose|q: int|
                next.erun(ys, w.skip(k)).contains(q) && next.accepts.contains(q);
            assert(self.relay(next, w).contains(q + n)) by {
                assert(next.erun(ys, w.skip(k)).contains((q + n) - n));
            }
            assert(z.accepts.contains(q + n));
        }
    }
}

impl Automaton {
    /// No edge leads to the start state.
    pub open spec fn start_free(self) -> bool {
        &&& forall|p: int| !(#[trigger] self.eps.contains((p, self.start)))
        &&& forall|p: int, c: char| !(#[trigger] self.arcs.contains((p, c, self.start)))
    }

    /// Only epsilon edges lead to the start state, and only from
    /// accepting states.
    pub open spec fn returns_by_accept(self) -> bool {
        &&& forall|p: int| #[trigger] self.eps.contains((p, self.start)) ==> self.accepts.contains(p)
        &&& forall|p: int, c: char| !(#[trigger] self.arcs.contains((p, c, self.start)))
    }

    /// In an automaton beside another, epsilon edges lead from a state of
    /// the first where they lead in the first, and from its start state
    /// into the second; from a state of the second they lead where they
    /// lead in the second.
    pub proof fn lemma_or_else_eps(self, other: Automaton, s: int, t: int)
        requires
            self.sound(),
            other.sound(),
        ensures
            self.or_else(other).eps_reaches(s, t) <==> if s < self.size {
                self.eps_reaches(s, t) || (self.eps_reaches(s, self.start) && other.eps_reaches(
                    other.start,
                    t - self.size,
                ))
            } else {
                other.eps_reaches(s - self.size, t - self.size)
            },
    {
        let z = self.or_else(other);
        let n = self.size as int;
        let o = other.shifted(self.size);
        let zr = z.eps_rel();
        let goal = |p: int, q: int|
            if p < n {
                self.eps_reaches(p, q) || (self.eps_reaches(p, self.start) && other.eps_reaches(
                    other.start,
                    q - n,
                ))
            } else {
                other.eps_reaches(p - n, q - n)
            };
        if z.eps_reaches(s, t) {
            let inside = |q: int| goal(s, q);
            lemma_connects_self(self.eps_rel(), s);
            lemma_connects_self(other.eps_rel(), s - n);
            assert(inside(s));
            assert forall|x: int, y: int| inside(x) && #[trigger] zr(x, y) implies inside(y) by {
                assert(z.eps.contains((x, y)));
                if s < n {
                    if self.eps_reaches(s, x) {
                        if x != s {
                            let b = lemma_connects_last_step(self.eps_rel(), s, x);
                            assert(self.eps.contains((b, x)));
                        }
                        assert(x < n);
                        if self.eps.contains((x, y)) {
                            assert(self.eps_rel()(x, y));
                            lemma_connects_step(self.eps_rel(), s, x, y);
                        } else if o.eps.contains((x, y)) {
                            assert(other.eps.contains((x - n, y - n)));
                        } else {
                            assert(x == self.start && y == o.start);
                            lemma_connects_self(other.eps_rel(), other.start);
                        }
                    } else {
                        if x - n != other.start {
                            let b = lemma_connects_last_step(other.eps_rel(), other.start, x - n);
                            assert(other.eps.contains((b, x - n)));
                        }
                        assert(x >= n);
                        if self.eps.contains((x, y)) {
                        } else if o.eps.contains((x, y)) {
                            assert(other.eps.contains((x - n, y - n)));
                            assert(other.eps_rel()(x - n, y - n));
                            lemma_connects_step(other.eps_rel(), other.start, x - n, y - n);
                        } else {
                        }
                    }
                } else {
                    if x - n != s - n {
                        let b = lemma_connects_last_step(other.eps_rel(), s - n, x - n);
                        assert(other.eps.contains((b, x - n)));
                    }
                    assert(x >= n);
                    if self.eps.contains((x, y)) {
                    } else if o.eps.contains((x, y)) {
                        assert(other.eps.contains((x - n, y - n)));
                        assert(other.eps_rel()(x - n, y - n));
                        lemma_connects_step(other.eps_rel(), s - n, x - n, y - n);
                    } else {
                    }
                }
            }
            lemma_closed_holds_connected(zr, inside, s, t);
        }
        if goal(s, t) {
            assert forall|x: int, y: int| #[trigger] self.eps_rel()(x, y) implies zr(x, y) by {
                assert(self.eps.contains((x, y)));
                assert(z.eps.contains((x, y)));
            }
            if s < n && self.eps_reaches(s, t) {
                lemma_connects_same(self.eps_rel(), zr, s, t);
            } else if s < n {
                lemma_connects_same(self.eps_rel(), zr, s, self.start);
                assert(z.eps.contains((self.start, o.start)));
                assert(zr(self.start, o.start));
                lemma_connects_step(zr, s, self.start, o.start);
                self.lemma_beside_reach(other, other.start, t - n);
                lemma_connects_join(zr, s, o.start, t);
            } else {
                self.lemma_beside_reach(other, s - n, t - n);
            }
        }
    }

    /// Where epsilon edges lead in the second automaton, they lead in the
    /// one that holds both side by side, with the identifiers raised.
    pub proof fn lemma_beside_reach(self, other: Automaton, a: int, b: int)
        requires
            other.eps_reaches(a, b),
        ensures
            self.or_else(other).eps_reaches(a + self.size, b + self.size),
    {
        let z = self.or_else(other);
        let n = self.size as int;
        let o = other.shifted(self.size);
        let zr = z.eps_rel();
        let inside = |q: int| connects(zr, a + n, q + n);
        lemma_connects_self(zr, a + n);
        assert forall|x: int, y: int| inside(x) && #[trigger] other.eps_rel()(x, y) implies inside(
            y,
        ) by {
            assert(other.eps.contains((x, y)));
            assert(o.eps.contains((x + n, y + n)));
            assert(z.eps.contains((x + n, y + n)));
            assert(zr(x + n, y + n));
            lemma_connects_step(zr, a + n, x + n, y + n);
        }
        lemma_closed_holds_connected(other.eps_rel(), inside, a, b);
    }

    /// Where no edge leads to the start state, epsilon edges lead to it
    /// only from itself.
    pub proof fn lemma_start_free_reach(self, s: int)
        requires
            self.start_free(),
            self.eps_reaches(s, self.start),
        ensures
            s == self.start,
    {
        if s != self.start {
            let b = lemma_connects_last_step(self.eps_rel(), s, self.start);
            assert(self.eps.contains((b, self.start)));
        }
    }

    /// An automaton beside another, where no edge leads to the start
    /// state of the first, reaches what the first reaches and what the
    /// second reaches.
    pub proof fn lemma_or_else_run(self, other: Automaton, w: Seq<char>)
        requires
            self.sound(),
            other.sound(),
            self.start_free(),
        ensures
            forall|t: int| #[trigger]
                self.or_else(other).erun(set![self.start], w).contains(t) <==> self.erun(
                    set![self.start],
                    w,
                ).contains(t) || other.erun(set![other.start], w).contains(t - self.size),
        decreases w.len(),
    {
        let z = self.or_else(other);
        let n = self.size as int;
        let o = other.shifted(self.size);
        let xs = set![self.start];
        let ys = set![other.start];
        let got = z.erun(xs, w);
        let xw = self.erun(xs, w);
        let yw = other.erun(ys, w);
        assert(xs.contains(self.start));
        assert(ys.contains(other.start));
        if w.len() == 0 {
            assert forall|t: int| #[trigger]
                got.contains(t) <==> xw.contains(t) || yw.contains(t - n) by {
                self.lemma_or_else_eps(other, self.start, t);
                lemma_connects_self(self.eps_rel(), self.start);
                if got.contains(t) {
                    let s = choose|s: int| xs.contains(s) && z.eps_reaches(s, t);
                }
                if xw.contains(t) {
                    let s = choose|s: int| xs.contains(s) && self.eps_reaches(s, t);
                }
                if yw.contains(t - n) {
                    let s = choose|s: int| ys.contains(s) && other.eps_reaches(s, t - n);
                }
            }
        } else {
            let u = w.drop_last();
            let c = w.last();
            self.lemma_or_else_run(other, u);
            let before = z.erun(xs, u);
            let xu = self.erun(xs, u);
            let yu = other.erun(ys, u);
            let stepped = z.step(before, c);
            assert forall|t: int| #[trigger]
                got.contains(t) <==> xw.contains(t) || yw.contains(t - n) by {
                if got.contains(t) {
                    let r = choose|r: int| stepped.contains(r) && z.eps_reaches(r, t);
                    let q = choose|q: int| before.contains(q) && z.arcs.contains((q, c, r));
                    self.lemma_or_else_eps(other, r, t);
                    if xu.contains(q) {
                        self.lemma_erun_states(xs, u, q);
                        if o.arcs.contains((q, c, r)) {
                            assert(other.arcs.contains((q - n, c, r - n)));
                        }
                        assert(self.arcs.contains((q, c, r)));
                        assert(self.step(xu, c).contains(r));
                        if !self.eps_reaches(r, t) {
                            self.lemma_start_free_reach(r);
                        }
                    } else {
                        assert(yu.contains(q - n));
                        other.lemma_erun_states(ys, u, q - n);
                        if self.arcs.contains((q, c, r)) {
                        }
                        assert(o.arcs.contains((q, c, r)));
                        assert(other.arcs.contains((q - n, c, r - n)));
                        assert(other.step(yu, c).contains(r - n));
                    }
                }
                if xw.contains(t) {
                    let r = choose|r: int| self.step(xu, c).contains(r) && self.eps_reaches(r, t);
                    let q = choose|q: int| xu.contains(q) && self.arcs.contains((q, c, r));
                    assert(before.contains(q));
                    assert(z.arcs.contains((q, c, r)));
                    assert(stepped.contains(r));
                    self.lemma_erun_states(xs, u, q);
                    self.lemma_or_else_eps(other, r, t);
                }
                if yw.contains(t - n) {
                    let r = choose|r: int|
                        other.step(yu, c).contains(r) && other.eps_reaches(r, t - n);
                    let q = choose|q: int| yu.contains(q) && other.arcs.contains((q, c, r));
                    assert(before.contains(q + n)) by {
                        assert(yu.contains((q + n) - n));
                    }
                    assert(o.arcs.contains((q + n, c, r + n)));
                    assert(z.arcs.contains((q + n, c, r + n)));
                    assert(stepped.contains(r + n));
                    self.lemma_or_else_eps(other, r + n, t);
                }
            }
        }
    }

    /// An automaton beside another, where no edge leads to the start
    /// state of the first, accepts the words of both.
    pub proof fn lemma_or_else_language(self, other: Automaton, w: Seq<char>)
        requires
            self.sound(),
            other.sound(),
            self.start_free(),
        ensures
            self.or_else(other).recognizes(w) <==> self.recognizes(w) || other.recognizes(w),
            self.or_else(other).start_free(),
    {
        let z = self.or_else(other);
        let n = self.size as int;
        let o = other.shifted(self.size);
        let xs = set![self.start];
        let ys = set![other.start];
        self.lemma_or_else_run(other, w);
        let all = z.erun(xs, w);
        if z.recognizes(w) {
            let q = choose|q: int| all.contains(q) && z.accepts.contains(q);
            if self.erun(xs, w).contains(q) {
                self.lemma_erun_states(xs, w, q);
                if o.accepts.contains(q) {
                    assert(other.accepts.contains(q - n));
                }
            } else {
                other.lemma_erun_states(ys, w, q - n);
                assert(o.accepts.contains(q));
            }
        }
        if self.recognizes(w) {
            let q = choose|q: int| self.erun(xs, w).contains(q) && self.accepts.contains(q);
            assert(all.contains(q));
        }
        if other.recognizes(w) {
            let q = choose|q: int| other.erun(ys, w).contains(q) && other.accepts.contains(q);
            assert(all.contains(q + n)) by {
                assert(other.erun(ys, w).contains((q + n) - n));
            }
            assert(o.accepts.contains(q + n));
        }
        assert forall|p: int| !(#[trigger] z.eps.contains((p, z.start))) by {
            if o.eps.contains((p, z.start)) {
                assert(other.eps.contains((p - n, z.start - n)));
            }
        }
        assert forall|p: int, c: char| !(#[trigger] z.arcs.contains((p, c, z.start))) by {
            if o.arcs.contains((p, c, z.start)) {
                assert(other.arcs.contains((p - n, c, z.start - n)));
            }
        }
    }

    /// Following an automaton by another leaves its start state free of
    /// entering edges.
    pub proof fn lemma_followed_start_free(self, next: Automaton)
        requires
            self.sound(),
            next.sound(),
            self.start_free(),
        ensures
            self.followed_by(next).start_free(),
    {
        let z = self.followed_by(next);
        let n = self.size as int;
        let o = next.shifted(self.size);
        assert forall|p: int| !(#[trigger] z.eps.contains((p, z.start))) by {
            if o.eps.contains((p, z.start)) {
                assert(next.eps.contains((p - n, z.start - n)));
            }
        }
        assert forall|p: int, c: char| !(#[trigger] z.arcs.contains((p, c, z.start))) by {
            if o.arcs.contains((p, c, z.start)) {
                assert(next.arcs.contains((p - n, c, z.start - n)));
            }
        }
    }
}

/// `w` can be cut into words of the language, none empty.
pub open spec fn star_of(lang: spec_fn(Seq<char>) -> bool, w: Seq<char>) -> bool
    decreases w.len(),
{
    w.len() == 0 || exists|k: int|
        0 <= k < w.len() && star_of(lang, #[trigger] w.take(k)) && lang(w.skip(k))
}

/// `w` is such a sequence of words followed by one more word of the
/// language.
pub open spec fn plus_of(lang: spec_fn(Seq<char>) -> bool, w: Seq<char>) -> bool {
    exists|k: int| 0 <= k <= w.len() && star_of(lang, #[trigger] w.take(k)) && lang(w.skip(k))
}

/// A sequence of words is a last word behind a sequence of words, or
/// nothing.
pub proof fn lemma_star_of(lang: spec_fn(Seq<char>) -> bool, w: Seq<char>)
    ensures
        star_of(lang, w) <==> w.len() == 0 || plus_of(lang, w),
{
    if plus_of(lang, w) {
        let k = choose|k: int|
            0 <= k <= w.len() && star_of(lang, #[trigger] w.take(k)) && lang(w.skip(k));
        if k == w.len() {
            assert(w.take(k) =~= w);
        }
    }
    if star_of(lang, w) && w.len() > 0 {
        let k = choose|k: int|
            0 <= k < w.len() && star_of(lang, #[trigger] w.take(k)) && lang(w.skip(k));
    }
}

impl Automaton {
    /// With edges back from the accepting states to the start state,
    /// epsilon edges lead where they led, and from there over an
    /// accepting state back to where they lead from the start state.
    pub proof fn lemma_plus_eps(self, s: int, t: int)
        ensures
            self.plus().eps_reaches(s, t) <==> self.eps_reaches(s, t) || exists|f: int|
                self.eps_reaches(s, f) && self.accepts.contains(f) && self.eps_reaches(
                    self.start,
                    t,
                ),
    {
        let p = self.plus();
        let pr = p.eps_rel();
        let ar = self.eps_rel();
        let goal = |q: int|
            self.eps_reaches(s, q) || exists|f: int|
                self.eps_reaches(s, f) && self.accepts.contains(f) && self.eps_reaches(
                    self.start,
                    q,
                );
        if p.eps_reaches(s, t) {
            lemma_connects_self(ar, s);
            assert(goal(s));
            assert forall|x: int, y: int| goal(x) && #[trigger] pr(x, y) implies goal(y) by {
                assert(p.eps.contains((x, y)));
                if self.eps.contains((x, y)) {
                    assert(ar(x, y));
                    if self.eps_reaches(s, x) {
                        lemma_connects_step(ar, s, x, y);
                    } else {
                        let f = choose|f: int|
                            self.eps_reaches(s, f) && self.accepts.contains(f)
                                && self.eps_reaches(self.start, x);
                        lemma_connects_step(ar, self.start, x, y);
                        assert(self.eps_reaches(s, f) && self.accepts.contains(f)
                            && self.eps_reaches(self.start, y));
                    }
                } else {
                    assert(self.accepts.contains(x) && y == self.start);
                    lemma_connects_self(ar, self.start);
                    if self.eps_reaches(s, x) {
                        assert(self.eps_reaches(s, x) && self.accepts.contains(x)
                            && self.eps_reaches(self.start, y));
                    } else {
                        let f = choose|f: int|
                            self.eps_reaches(s, f) && self.accepts.contains(f)
                                && self.eps_reaches(self.start, x);
                        assert(self.eps_reaches(s, f) && self.accepts.contains(f)
                            && self.eps_reaches(self.start, y));
                    }
                }
            }
            lemma_closed_holds_connected(pr, goal, s, t);
        }
        if goal(t) {
            assert forall|x: int, y: int| #[trigger] ar(x, y) implies pr(x, y) by {
                assert(self.eps.contains((x, y)));
                assert(p.eps.contains((x, y)));
            }
            if self.eps_reaches(s, t) {
                lemma_connects_same(ar, pr, s, t);
            } else {
                let f = choose|f: int|
                    self.eps_reaches(s, f) && self.accepts.contains(f) && self.eps_reaches(
                        self.start,
                        t,
                    );
                lemma_connects_same(ar, pr, s, f);
                assert(p.eps.contains((f, self.start)));
                assert(pr(f, self.start));
                lemma_connects_step(pr, s, f, self.start);
                lemma_connects_same(ar, pr, self.start, t);
                lemma_connects_join(pr, s, self.start, t);
            }
        }
    }

    /// With edges back from the accepting states to the start state, the
    /// automaton reaches on `w` what it reached on an ending of `w` whose
    /// beginning can be cut into words that it accepted.
    pub proof fn lemma_plus_run(self, w: Seq<char>)
        ensures
            forall|t: int| #[trigger]
                self.plus().erun(set![self.start], w).contains(t) <==> exists|k: int|
                    0 <= k <= w.len() && star_of(self.language(), #[trigger] w.take(k))
                        && self.erun(set![self.start], w.skip(k)).contains(t),
        decreases w.len(), 1nat,
    {
        let p = self.plus();
        let xs = set![self.start];
        let lang = self.language();
        let got = p.erun(xs, w);
        assert(xs.contains(self.start));
        if w.len() == 0 {
            assert(w.take(0) =~= w);
            assert(w.skip(0) =~= w);
            assert forall|t: int| #[trigger]
                got.contains(t) <==> exists|k: int|
                    0 <= k <= w.len() && star_of(lang, #[trigger] w.take(k)) && self.erun(
                        xs,
                        w.skip(k),
                    ).contains(t) by {
                self.lemma_plus_eps(self.start, t);
                if got.contains(t) {
                    let s = choose|s: int| xs.contains(s) && p.eps_reaches(s, t);
                    assert(self.eps_reaches(self.start, t));
                    assert(self.erun(xs, w.skip(0)).contains(t));
                    assert(star_of(lang, w.take(0)));
                }
                if exists|k: int|
                    0 <= k <= w.len() && star_of(lang, #[trigger] w.take(k)) && self.erun(
                        xs,
                        w.skip(k),
                    ).contains(t) {
                    let k = choose|k: int|
                        0 <= k <= w.len() && star_of(lang, #[trigger] w.take(k)) && self.erun(
                            xs,
                            w.skip(k),
                        ).contains(t);
                    assert(k == 0);
                    let s = choose|s: int| xs.contains(s) && self.eps_reaches(s, t);
                }
            }
        } else {
            let u = w.drop_last();
            let c = w.last();
            self.lemma_plus_run(u);
            let before = p.erun(xs, u);
            let stepped = p.step(before, c);
            assert forall|t: int| #[trigger]
                got.contains(t) <==> exists|k: int|
                    0 <= k <= w.len() && star_of(lang, #[trigger] w.take(k)) && self.erun(
                        xs,
                        w.skip(k),
                    ).contains(t) by {
                if got.contains(t) {
                    let r = choose|r: int| stepped.contains(r) && p.eps_reaches(r, t);
                    let q = choose|q: int| before.contains(q) && p.arcs.contains((q, c, r));
                    let k = choose|k: int|
                        0 <= k <= u.len() && star_of(lang, #[trigger] u.take(k)) && self.erun(
                            xs,
                            u.skip(k),
                        ).contains(q);
                    assert(w.take(k) =~= u.take(k));
                    assert(w.skip(k) =~= u.skip(k).push(c));
                    self.lemma_erun_push(xs, u.skip(k), c);
                    let tail = self.erun(xs, w.skip(k));
                    assert(self.step(self.erun(xs, u.skip(k)), c).contains(r));
                    self.lemma_plus_eps(r, t);
                    if self.eps_reaches(r, t) {
                        assert(tail.contains(t));
                    } else {
                        let f = choose|f: int|
                            self.eps_reaches(r, f) && self.accepts.contains(f)
                                && self.eps_reaches(self.start, t);
                        assert(tail.contains(f));
                        assert(self.recognizes(w.skip(k)));
                        assert(lang(w.skip(k)));
                        // The word read so far is cut once more, at its end.
                        let n = w.len() as int;
                        assert(w.take(n) =~= w);
                        assert(w.skip(n) =~= Seq::<char>::empty());
                        if k < n {
                            assert(star_of(lang, w)) by {
                                assert(star_of(lang, w.take(k)) && lang(w.skip(k)));
                            }
                        }
                        assert(star_of(lang, w.take(n)));
                        assert(self.erun(xs, w.skip(n)).contains(t));
                    }
                }
                if exists|k: int|
                    0 <= k <= w.len() && star_of(lang, #[trigger] w.take(k)) && self.erun(
                        xs,
                        w.skip(k),
                    ).contains(t) {
                    let k = choose|k: int|
                        0 <= k <= w.len() && star_of(lang, #[trigger] w.take(k)) && self.erun(
                            xs,
                            w.skip(k),
                        ).contains(t);
                    if k == w.len() {
                        // A fresh start behind the whole word: behind its
                        // last piece an accepting state was reached.
                        assert(w.take(k) =~= w);
                        assert(w.skip(k) =~= Seq::<char>::empty());
                        let j = choose|j: int|
                            0 <= j < w.len() && star_of(lang, #[trigger] w.take(j)) && lang(
                                w.skip(j),
                            );
                        let f = choose|f: int|
                            self.erun(xs, w.skip(j)).contains(f) && self.accepts.contains(f);
                        self.lemma_plus_reaches(w, j, f);
                        let s = choose|s: int| xs.contains(s) && self.eps_reaches(s, t);
                        self.lemma_plus_eps(f, t);
                        lemma_connects_self(self.eps_rel(), f);
                        assert(self.eps_reaches(f, f) && self.accepts.contains(f)
                            && self.eps_reaches(self.start, t));
                        p.lemma_erun_closed(xs, w);
                        assert(p.eclose(got).contains(t)) by {
                            assert(got.contains(f) && p.eps_reaches(f, t));
                        }
                    } else {
                        self.lemma_plus_reaches(w, k, t);
                    }
                }
            }
        }
    }

    /// What the automaton reaches on an ending of `w` behind a beginning
    /// that can be cut into accepted words, it reaches on `w` with the
    /// edges back.
    pub proof fn lemma_plus_reaches(self, w: Seq<char>, k: int, t: int)
        requires
            0 <= k < w.len(),
            star_of(self.language(), w.take(k)),
            self.erun(set![self.start], w.skip(k)).contains(t),
        ensures
            self.plus().erun(set![self.start], w).contains(t),
        decreases w.len(), 0nat,
    {
        let p = self.plus();
        let xs = set![self.start];
        let u = w.drop_last();
        let c = w.last();
        self.lemma_plus_run(u);
        assert(w.take(k) =~= u.take(k));
        assert(w.skip(k) =~= u.skip(k).push(c));
        self.lemma_erun_push(xs, u.skip(k), c);
        let yu = self.erun(xs, u.skip(k));
        let r = choose|r: int| self.step(yu, c).contains(r) && self.eps_reaches(r, t);
        let q = choose|q: int| yu.contains(q) && self.arcs.contains((q, c, r));
        assert(p.erun(xs, u).contains(q));
        assert(p.arcs.contains((q, c, r)));
        assert(p.step(p.erun(xs, u), c).contains(r));
        self.lemma_plus_eps(r, t);
    }

    /// With edges back from the accepting states to the start state, the
    /// automaton accepts the words that can be cut into words that it
    /// accepted.
    pub proof fn lemma_plus_language(self, w: Seq<char>)
        ensures
            self.plus().recognizes(w) <==> plus_of(self.language(), w),
    {
        let p = self.plus();
        let xs = set![self.start];
        let lang = self.language();
        self.lemma_plus_run(w);
        let all = p.erun(xs, w);
        if p.recognizes(w) {
            let q = choose|q: int| all.contains(q) && p.accepts.contains(q);
            let k = choose|k: int|
                0 <= k <= w.len() && star_of(lang, #[trigger] w.take(k)) && self.erun(
                    xs,
                    w.skip(k),
                ).contains(q);
            assert(self.recognizes(w.skip(k)));
            assert(lang(w.skip(k)));
        }
        if plus_of(lang, w) {
            let k = choose|k: int|
                0 <= k <= w.len() && star_of(lang, #[trigger] w.take(k)) && lang(w.skip(k));
            let q = choose|q: int|
                self.erun(xs, w.skip(k)).contains(q) && self.accepts.contains(q);
            assert(all.contains(q));
        }
    }

    /// Where only accepting states lead back to the start state, the
    /// automaton is back at its start state only on the empty word or on
    /// a word that it accepts.
    pub proof fn lemma_back_at_start(self, w: Seq<char>)
        requires
            self.returns_by_accept(),
            self.erun(set![self.start], w).contains(self.start),
        ensures
            w.len() == 0 || self.recognizes(w),
    {
        let xs = set![self.start];
        if w.len() > 0 {
            let base = self.step(self.erun(xs, w.drop_last()), w.last());
            let s = choose|s: int| base.contains(s) && self.eps_reaches(s, self.start);
            let q = choose|q: int|
                self.erun(xs, w.drop_last()).contains(q) && self.arcs.contains((q, w.last(), s));
            assert(s != self.start);
            let b = lemma_connects_last_step(self.eps_rel(), s, self.start);
            assert(self.eps.contains((b, self.start)));
            assert(self.erun(xs, w).contains(b));
        }
    }

    /// With the start state accepting too, the automaton accepts the
    /// empty word besides.
    pub proof fn lemma_question_language(self, w: Seq<char>)
        requires
            self.returns_by_accept(),
        ensures
            self.question().recognizes(w) <==> w.len() == 0 || self.recognizes(w),
            self.question().returns_by_accept(),
    {
        let q = self.question();
        let xs = set![self.start];
        self.lemma_question_run(xs, w);
        let all = self.erun(xs, w);
        assert(xs.contains(self.start));
        if q.recognizes(w) {
            let x = choose|x: int| all.contains(x) && q.accepts.contains(x);
            if x == self.start {
                self.lemma_back_at_start(w);
            }
        }
        if w.len() == 0 {
            lemma_connects_self(self.eps_rel(), self.start);
            assert(all.contains(self.start));
            assert(q.accepts.contains(self.start));
        }
        if self.recognizes(w) {
            let x = choose|x: int| all.contains(x) && self.accepts.contains(x);
            assert(q.accepts.contains(x));
        }
    }

    /// Making a state accept changes nothing for what is reached.
    pub proof fn lemma_question_run(self, from: Set<int>, w: Seq<char>)
        ensures
            self.question().erun(from, w) == self.erun(from, w),
        decreases w.len(),
    {
        let q = self.question();
        assert(q.eps_rel() == self.eps_rel()) by {
            assert(q.eps == self.eps);
        }
        if w.len() > 0 {
            self.lemma_question_run(from, w.drop_last());
            let base = self.step(self.erun(from, w.drop_last()), w.last());
            assert(q.step(self.erun(from, w.drop_last()), w.last()) =~= base);
            assert(q.eclose(base) =~= self.eclose(base));
        } else {
            assert(q.eclose(from) =~= self.eclose(from));
        }
    }

    /// Edges back from the accepting states keep it true that only
    /// accepting states lead back to the start state.
    pub proof fn lemma_plus_returns(self)
        requires
            self.returns_by_accept(),
        ensures
            self.plus().returns_by_accept(),
    {
    }

    /// Zero or more repetitions: the automaton accepts the words that can
    /// be cut into words that it accepted before.
    pub proof fn lemma_star_language(self, w: Seq<char>)
        requires
            self.returns_by_accept(),
        ensures
            self.star().recognizes(w) <==> star_of(self.language(), w),
            self.star().returns_by_accept(),
    {
        self.lemma_plus_returns();
        self.plus().lemma_question_language(w);
        self.lemma_plus_language(w);
        lemma_star_of(self.language(), w);
    }
}

impl Automaton {
    /// The automaton has two states, 0 and 1, of which 0 is the start
    /// state and 1 accepts, and all its edges are labelled and lead from
    /// 0 to 1.
    pub open spec fn is_leaf(self) -> bool {
        &&& self.start == 0
        &&& self.accepts == set![1int]
        &&& self.eps_free()
        &&& forall|p: int, c: char, q: int| #[trigger]
            self.arcs.contains((p, c, q)) ==> p == 0 && q == 1
    }

    /// Such an automaton reaches only state 1, and only on one character.
    pub proof fn lemma_leaf_run(self, w: Seq<char>, q: int)
        requires
            self.is_leaf(),
            w.len() >= 1,
            self.run(set![0int], w).contains(q),
        ensures
            q == 1,
            w.len() == 1,
            self.arcs.contains((0, w[0], 1)),
        decreases w.len(),
    {
        let u = w.drop_last();
        let x = choose|x: int| self.run(set![0int], u).contains(x) && self.arcs.contains((x, w.last(), q));
        if u.len() >= 1 {
            self.lemma_leaf_run(u, x);
        }
    }

    /// Such an automaton accepts the words of one character for which it
    /// has an edge.
    pub proof fn lemma_leaf_language(self, w: Seq<char>)
        requires
            self.is_leaf(),
        ensures
            self.recognizes(w) <==> w.len() == 1 && self.arcs.contains((0, w[0], 1)),
            self.start_free(),
    {
        let xs = set![0int];
        self.lemma_erun_plain(xs, w);
        if self.recognizes(w) {
            let q = choose|q: int| self.run(xs, w).contains(q) && self.accepts.contains(q);
            if w.len() >= 1 {
                self.lemma_leaf_run(w, q);
            }
        }
        if w.len() == 1 && self.arcs.contains((0, w[0], 1)) {
            assert(w.drop_last() =~= Seq::<char>::empty());
            assert(self.run(xs, w.drop_last()) == xs);
            assert(xs.contains(0));
            assert(self.step(xs, w.last()).contains(1));
            assert(self.accepts.contains(1));
        }
    }

    /// An automaton without edges reaches only the states from which it
    /// starts, and those only on the empty word.
    pub proof fn lemma_no_edges(self, from: Set<int>, w: Seq<char>, q: int)
        requires
            self.eps_free(),
            forall|p: int, c: char, r: int| !(#[trigger] self.arcs.contains((p, c, r))),
            self.erun(from, w).contains(q),
        ensures
            w.len() == 0,
            from.contains(q),
    {
        self.lemma_erun_plain(from, w);
        if w.len() > 0 {
            let x = choose|x: int|
                self.run(from, w.drop_last()).contains(x) && self.arcs.contains((x, w.last(), q));
        }
    }

    /// The automaton of the parts one after the other, for two parts,
    /// accepts the words of the first followed by the words of the
    /// second.
    pub proof fn lemma_concat_two(a: Automaton, b: Automaton, w: Seq<char>)
        requires
            a.sound(),
            b.sound(),
        ensures
            Automaton::concat_all(seq![a, b]).recognizes(w) <==> cat(a.language(), b.language(), w),
            Automaton::concat_all(seq![a, b]).start_free(),
    {
        let unit = Automaton::unit();
        let parts = seq![a, b];
        assert(parts.drop_last() =~= seq![a]);
        assert(seq![a].drop_last() =~= Seq::<Automaton>::empty());
        assert(Automaton::concat_all(Seq::<Automaton>::empty()) == unit);
        assert(seq![a].last() == a);
        assert(Automaton::concat_all(seq![a]) == Automaton::concat_all(
            seq![a].drop_last(),
        ).followed_by(seq![a].last()));
        assert(Automaton::concat_all(seq![a]) == unit.followed_by(a));
        assert(parts.last() == b);
        let first = unit.followed_by(a);
        assert(Automaton::concat_all(parts) == first.followed_by(b));
        assert(unit.sound());
        assert(unit.start_free());
        unit.lemma_followed_by_sound(a);
        unit.lemma_followed_start_free(a);
        first.lemma_followed_start_free(b);
        first.lemma_followed_language(b, w);
        // The fresh start state adds nothing to the words of the first part.
        assert forall|x: Seq<char>| #[trigger] first.recognizes(x) <==> a.recognizes(x) by {
            unit.lemma_followed_language(a, x);
            if cat(unit.language(), a.language(), x) {
                let k = choose|k: int|
                    0 <= k <= x.len() && unit.language()(#[trigger] x.take(k)) && a.language()(
                        x.skip(k),
                    );
                let q = choose|q: int|
                    unit.erun(set![unit.start], x.take(k)).contains(q) && unit.accepts.contains(q);
                unit.lemma_no_edges(set![unit.start], x.take(k), q);
                assert(x.skip(0) =~= x);
            }
            if a.recognizes(x) {
                assert(x.take(0) =~= Seq::<char>::empty());
                assert(x.skip(0) =~= x);
                lemma_connects_self(unit.eps_rel(), unit.start);
                assert(set![unit.start].contains(unit.start));
                assert(unit.erun(set![unit.start], x.take(0)).contains(unit.start));
                assert(unit.recognizes(x.take(0)));
                assert(unit.language()(x.take(0)) && a.language()(x.skip(0)));
            }
        }
        if cat(first.language(), b.language(), w) {
            let k = choose|k: int|
                0 <= k <= w.len() && first.language()(#[trigger] w.take(k)) && b.language()(
                    w.skip(k),
                );
            assert(first.recognizes(w.take(k)));
            assert(a.language()(w.take(k)) && b.language()(w.skip(k)));
        }
        if cat(a.language(), b.language(), w) {
            let k = choose|k: int|
                0 <= k <= w.len() && a.language()(#[trigger] w.take(k)) && b.language()(w.skip(k));
            assert(a.recognizes(w.take(k)));
            assert(first.language()(w.take(k)) && b.language()(w.skip(k)));
        }
    }

    /// The automaton of the parts side by side, for two parts, accepts
    /// the words of both.
    pub proof fn lemma_union_two(a: Automaton, b: Automaton, w: Seq<char>)
        requires
            a.sound(),
            b.sound(),
        ensures
            Automaton::union_all(seq![a, b]).recognizes(w) <==> a.recognizes(w) || b.recognizes(w),
            Automaton::union_all(seq![a, b]).start_free(),
    {
        let hub = Automaton::blank();
        let parts = seq![a, b];
        assert(parts.drop_last() =~= seq![a]);
        assert(seq![a].drop_last() =~= Seq::<Automaton>::empty());
        assert(Automaton::union_all(Seq::<Automaton>::empty()) == hub);
        assert(seq![a].last() == a);
        assert(Automaton::union_all(seq![a]) == Automaton::union_all(
            seq![a].drop_last(),
        ).or_else(seq![a].last()));
        assert(Automaton::union_all(seq![a]) == hub.or_else(a));
        assert(parts.last() == b);
        let first = hub.or_else(a);
        assert(Automaton::union_all(parts) == first.or_else(b));
        assert(hub.sound());
        assert(hub.start_free());
        hub.lemma_or_else_sound(a);
        hub.lemma_or_else_language(a, w);
        first.lemma_or_else_language(b, w);
        if hub.recognizes(w) {
            let q = choose|q: int|
                hub.erun(set![hub.start], w).contains(q) && hub.accepts.contains(q);
        }
    }
}

/// Where a language is what the pattern of `t` denotes, the words that
/// can be cut into words of the language are those that can be cut into
/// words that the pattern denotes.
pub proof fn lemma_denotes_some(t: Tree, w: Seq<char>)
    requires
        compilable(t),
    ensures
        star_of(thompson(t).language(), w) <==> denotes_some(t, w),
    decreases t, 1nat, w.len(),
{
    let lang = thompson(t).language();
    if w.len() > 0 {
        if star_of(lang, w) {
            let k = choose|k: int|
                0 <= k < w.len() && star_of(lang, #[trigger] w.take(k)) && lang(w.skip(k));
            lemma_denotes_some(t, w.take(k));
            lemma_thompson_language(t, w.skip(k));
        }
        if denotes_some(t, w) {
            let k = choose|k: int|
                0 <= k < w.len() && denotes_some(t, #[trigger] w.take(k)) && denotes(t, w.skip(k));
            lemma_denotes_some(t, w.take(k));
            lemma_thompson_language(t, w.skip(k));
            assert(star_of(lang, w.take(k)) && lang(w.skip(k)));
        }
    }
}

/// The automaton of a pattern accepts, epsilon edges counted, the words
/// that the pattern denotes.
pub proof fn lemma_thompson_language(t: Tree, w: Seq<char>)
    requires
        compilable(t),
    ensures
        thompson(t).recognizes(w) <==> denotes(t, w),
        thompson(t).returns_by_accept(),
    decreases t, 0nat, 0nat,
{
    let a = thompson(t);
    match t {
        Tree::Leaf(c) => {
            if c == '.' {
                let m = Automaton::class('.');
                assert(m.is_leaf());
                m.lemma_leaf_language(w);
            } else {
                let m = Automaton::single(c);
                assert(m.is_leaf());
                m.lemma_leaf_language(w);
                if w.len() == 1 && w[0] == c {
                    assert(w =~= seq![c]);
                }
            }
        },
        Tree::Node(name, kids) => {
            if name == "RE"@ {
                lemma_thompson_language(kids[0], w);
            } else if name == "Concat"@ {
                let x = thompson(kids[0]);
                let y = thompson(kids[1]);
                lemma_thompson_sound(kids[0]);
                lemma_thompson_sound(kids[1]);
                Automaton::lemma_concat_two(x, y, w);
                if cat(x.language(), y.language(), w) {
                    let k = choose|k: int|
                        0 <= k <= w.len() && x.language()(#[trigger] w.take(k)) && y.language()(
                            w.skip(k),
                        );
                    lemma_thompson_language(kids[0], w.take(k));
                    lemma_thompson_language(kids[1], w.skip(k));
                }
                if denotes(t, w) {
                    let k = choose|k: int|
                        0 <= k <= w.len() && denotes(kids[0], #[trigger] w.take(k)) && denotes(
                            kids[1],
                            w.skip(k),
                        );
                    lemma_thompson_language(kids[0], w.take(k));
                    lemma_thompson_language(kids[1], w.skip(k));
                    assert(x.language()(w.take(k)) && y.language()(w.skip(k)));
                }
            } else if name == "Union"@ {
                let x = thompson(kids[0]);
                let y = thompson(kids[2]);
                lemma_thompson_sound(kids[0]);
                lemma_thompson_sound(kids[2]);
                Automaton::lemma_union_two(x, y, w);
                lemma_thompson_language(kids[0], w);
                lemma_thompson_language(kids[2], w);
            } else if name == "Repeat"@ {
                let x = thompson(kids[0]);
                let op = kids[1]->Leaf_0;
                lemma_thompson_language(kids[0], w);
                if op == '*' {
                    x.lemma_star_language(w);
                    lemma_denotes_some(kids[0], w);
                } else if op == '+' {
                    x.lemma_plus_language(w);
                    x.lemma_plus_returns();
                    if plus_of(x.language(), w) {
                        let k = choose|k: int|
                            0 <= k <= w.len() && star_of(x.language(), #[trigger] w.take(k))
                                && x.language()(w.skip(k));
                        lemma_denotes_some(kids[0], w.take(k));
                        lemma_thompson_language(kids[0], w.skip(k));
                    }
                    if denotes(t, w) {
                        let k = choose|k: int|
                            0 <= k <= w.len() && denotes_some(kids[0], #[trigger] w.take(k))
                                && denotes(kids[0], w.skip(k));
                        lemma_denotes_some(kids[0], w.take(k));
                        lemma_thompson_language(kids[0], w.skip(k));
                        assert(star_of(x.language(), w.take(k)) && x.language()(w.skip(k)));
                    }
                } else {
                    x.lemma_question_language(w);
                }
            } else if name == "Term"@ {
                if kids.len() == 1 {
                    lemma_thompson_language(kids[0], w);
                } else {
                    lemma_thompson_language(kids[1], w);
                }
            } else if name == "Literal"@ {
                if kids.len() == 1 {
                    lemma_thompson_language(kids[0], w);
                } else {
                    let c = kids[1]->Leaf_0;
                    if is_class_letter(c) {
                        let m = Automaton::class(c);
                        assert(m.is_leaf());
                        m.lemma_leaf_language(w);
                    } else {
                        let m = Automaton::single(c);
                        assert(m.is_leaf());
                        m.lemma_leaf_language(w);
                        if w.len() == 1 && w[0] == c {
                            assert(w =~= seq![c]);
                        }
                    }
                }
            }
        },
    }
}

/// The compiled automaton of a pattern accepts the words that the
/// pattern denotes.
pub proof fn lemma_compiled_language(t: Tree, w: Seq<char>)
    requires
        compilable(t),
    ensures
        thompson(t).eps_closed().pruned().accepts_word(w) <==> denotes(t, w),
{
    let a = thompson(t);
    lemma_thompson_language(t, w);
    a.lemma_closed_accepts(w);
    a.eps_closed().lemma_pruned_run(w);
}

/// Without epsilon edges, accepting with them counted is accepting along
/// labelled edges.
pub proof fn lemma_recognizes_plain(a: Automaton, w: Seq<char>)
    requires
        a.eps_free(),
    ensures
        a.recognizes(w) <==> a.accepts_word(w),
{
    a.lemma_erun_plain(set![a.start], w);
}

/// Every word that a pattern denotes begins with the literal prefix of
/// the pattern's compiled automaton and ends with its literal suffix.
pub proof fn lemma_pattern_literals(t: Tree, w: Seq<char>)
    requires
        compilable(t),
        denotes(t, w),
    ensures
        thompson(t).eps_closed().pruned().literal_prefix().is_prefix_of(w),
        thompson(t).eps_closed().pruned().literal_suffix().is_suffix_of(w),
{
    let a = thompson(t).eps_closed().pruned();
    lemma_compiled_language(t, w);
    a.lemma_literal_prefix(w);
    a.lemma_literal_suffix(w);
}

/// After the rewiring for the literal prefix, the automaton of a pattern
/// accepts a word if and only if the pattern denotes the literal
/// followed by the word.
pub proof fn lemma_pattern_tails(t: Tree, tail: Seq<char>)
    requires
        compilable(t),
    ensures
        ({
            let a = thompson(t).eps_closed().pruned();
            a.rewired(a.prefix_frontier()).accepts_word(tail) <==> denotes(
                t,
                a.literal_prefix() + tail,
            )
        }),
{
    let a = thompson(t).eps_closed().pruned();
    lemma_thompson_sound(t);
    thompson(t).lemma_compiled();
    a.lemma_prefix_rewired(tail);
    lemma_compiled_language(t, a.literal_prefix() + tail);
}

} // verus!
