//! The literal anchor of an automaton: the fixed string with which every
//! accepted word begins, or ends, and the automaton for what is left.

use vstd::prelude::*;
use crate::automaton::Automaton;
use crate::nfa::{row_has, row_has_arc, State, Transition, NFA};
use crate::text::{reversed, string_of};

verus! {

/// The states that `v` lists.
pub open spec fn set_of(v: Seq<usize>) -> Set<int> {
    Set::new(|q: int| row_has(v, q))
}

/// A state reads only one character.
pub proof fn lemma_reads_only_one(a: Automaton, q: int, c: char, d: char)
    requires
        a.reads_only(q, c),
        a.reads_only(q, d),
    ensures
        c == d,
{
    let r = choose|r: int| a.arcs.contains((q, c, r));
    assert(a.arcs.contains((q, c, r)));
}

/// The one character that state `q` reads, if it is a state from which the
/// walk can go on.
fn state_label(nfa: &NFA, q: usize) -> (r: Option<char>)
    requires
        nfa.wf(),
        q < nfa@.size,
    ensures
        match r {
            Some(c) => nfa@.reads_only(q as int, c),
            None => forall|c: char| !nfa@.reads_only(q as int, c),
        },
{
    let s = State { id: q };
    if nfa.is_accepting(s) {
        return None;
    }
    let e = nfa.eps_from(s);
    if e.len() > 0 {
        assert(row_has(e@, e@[0] as int));
        return None;
    }
    let row = nfa.arcs_from(s);
    if row.len() == 0 {
        assert forall|c: char| !nfa@.reads_only(q as int, c) by {
            if nfa@.reads_only(q as int, c) {
                let r = choose|r: int| nfa@.arcs.contains((q as int, c, r));
                assert(row_has_arc(row@, c, r));
            }
        }
        return None;
    }
    let c = row[0].label;
    assert(row_has_arc(row@, c, row@[0].to as int));
    let mut k: usize = 0;
    while k < row.len()
        invariant
            k <= row@.len(),
            row@.len() > 0,
            c == row@[0].label,
            forall|x: char, r: int| #[trigger]
                row_has_arc(row@, x, r) <==> nfa@.arcs.contains((q as int, x, r)),
            forall|j: int| 0 <= j < k ==> (#[trigger] row@[j]).label == c && row@[j].to != q,
        decreases row@.len() - k,
    {
        if row[k].label != c || row[k].to == q {
            proof {
                let e = row@[k as int];
                assert(row_has_arc(row@, e.label, e.to as int));
                assert(row_has_arc(row@, c, row@[0].to as int));
                assert forall|d: char| !nfa@.reads_only(q as int, d) by {
                    if nfa@.reads_only(q as int, d) {
                        assert(nfa@.arcs.contains((q as int, c, row@[0].to as int)));
                        assert(nfa@.arcs.contains((q as int, e.label, e.to as int)));
                    }
                }
            }
            return None;
        }
        k += 1;
    }
    proof {
        assert(nfa@.arcs.contains((q as int, c, row@[0].to as int)));
        assert forall|r: int| !nfa@.eps.contains((q as int, r)) by {
            if nfa@.eps.contains((q as int, r)) {
                assert(row_has(e@, r));
            }
        }
        assert forall|c2: char, r: int| nfa@.arcs.contains((q as int, c2, r)) implies c2 == c by {
            assert(row_has_arc(row@, c2, r));
        }
        if nfa@.arcs.contains((q as int, c, q as int)) {
            assert(row_has_arc(row@, c, q as int));
        }
    }
    Some(c)
}

/// The character by which the walk goes on from `front`, if it does.
fn frontier_label(nfa: &NFA, front: &Vec<usize>) -> (r: Option<char>)
    requires
        nfa.wf(),
        forall|k: int| 0 <= k < front@.len() ==> (#[trigger] front@[k]) < nfa@.size,
    ensures
        match r {
            Some(c) => nfa@.extends_by(set_of(front@), c),
            None => !nfa@.can_extend(set_of(front@)),
        },
{
    let f = Ghost(set_of(front@));
    if front.len() == 0 {
        assert forall|c: char| !nfa@.extends_by(f@, c) by {
            if nfa@.extends_by(f@, c) {
                let q = choose|q: int| f@.contains(q);
                assert(row_has(front@, q));
            }
        }
        return None;
    }
    assert(row_has(front@, front@[0] as int));
    let c = match state_label(nfa, front[0]) {
        Some(c) => c,
        None => {
            assert(f@.contains(front@[0] as int));
            return None;
        },
    };
    let mut k: usize = 1;
    while k < front.len()
        invariant
            1 <= k <= front@.len(),
            nfa.wf(),
            f@ == set_of(front@),
            forall|j: int| 0 <= j < front@.len() ==> (#[trigger] front@[j]) < nfa@.size,
            forall|j: int| 0 <= j < k ==> nfa@.reads_only((#[trigger] front@[j]) as int, c),
        decreases front@.len() - k,
    {
        assert(row_has(front@, front@[k as int] as int));
        match state_label(nfa, front[k]) {
            Some(d) => {
                if d != c {
                    proof {
                        assert forall|x: char| !nfa@.extends_by(f@, x) by {
                            if nfa@.extends_by(f@, x) {
                                assert(f@.contains(front@[0] as int));
                                assert(f@.contains(front@[k as int] as int));
                                lemma_reads_only_one(nfa@, front@[0] as int, c, x);
                                lemma_reads_only_one(nfa@, front@[k as int] as int, d, x);
                            }
                        }
                    }
                    return None;
                }
            },
            None => {
                assert(f@.contains(front@[k as int] as int));
                return None;
            },
        }
        k += 1;
    }
    proof {
        assert(f@.contains(front@[0] as int));
        assert forall|q: int| f@.contains(q) implies nfa@.reads_only(q, c) by {
            let j = choose|j: int| 0 <= j < front@.len() && #[trigger] front@[j] == q;
            assert(nfa@.reads_only(front@[j] as int, c));
        }
    }
    Some(c)
}

/// The states that an edge labelled `c` leads to from a state of `front`,
/// each listed once.
pub fn advance(nfa: &NFA, front: &Vec<usize>, c: char) -> (next: Vec<usize>)
    requires
        nfa.wf(),
        forall|k: int| 0 <= k < front@.len() ==> (#[trigger] front@[k]) < nfa@.size,
    ensures
        set_of(next@) == nfa@.step(set_of(front@), c),
        forall|k: int| 0 <= k < next@.len() ==> (#[trigger] next@[k]) < nfa@.size,
{
    let n = nfa.size();
    let mut marks: Vec<bool> = Vec::new();
    let mut i: usize = 0;
    while i < n
        invariant
            i <= n,
            marks@.len() == i,
            forall|r: int| 0 <= r < i ==> !(#[trigger] marks@[r]),
        decreases n - i,
    {
        marks.push(false);
        i += 1;
    }
    let mut next: Vec<usize> = Vec::new();
    let mut k: usize = 0;
    while k < front.len()
        invariant
            k <= front@.len(),
            n == nfa@.size,
            nfa.wf(),
            marks@.len() == n,
            forall|j: int| 0 <= j < front@.len() ==> (#[trigger] front@[j]) < nfa@.size,
            forall|j: int| 0 <= j < next@.len() ==> (#[trigger] next@[j]) < n,
            forall|r: int| 0 <= r < n ==> (#[trigger] marks@[r] <==> row_has(next@, r)),
            forall|r: int| #[trigger]
                row_has(next@, r) <==> exists|j: int|
                    0 <= j < k && nfa@.arcs.contains(((#[trigger] front@[j]) as int, c, r)),
        decreases front@.len() - k,
    {
        let row = nfa.arcs_from(State { id: front[k] });
        let mut i: usize = 0;
        while i < row.len()
            invariant
                i <= row@.len(),
                k < front@.len(),
                n == nfa@.size,
                nfa.wf(),
                marks@.len() == n,
                forall|j: int| 0 <= j < row@.len() ==> (#[trigger] row@[j]).to < n,
                forall|x: char, r: int| #[trigger]
                    row_has_arc(row@, x, r) <==> nfa@.arcs.contains((front@[k as int] as int, x, r)),
                forall|j: int| 0 <= j < next@.len() ==> (#[trigger] next@[j]) < n,
                forall|r: int| 0 <= r < n ==> (#[trigger] marks@[r] <==> row_has(next@, r)),
                forall|r: int| #[trigger]
                    row_has(next@, r) <==> (exists|j: int|
                        0 <= j < k && nfa@.arcs.contains(((#[trigger] front@[j]) as int, c, r)))
                        || (exists|j: int|
                        0 <= j < i && (#[trigger] row@[j]).label == c && row@[j].to == r),
            decreases row@.len() - i,
        {
            let e = row[i];
            if e.label == c && !marks[e.to] {
                let ghost before = next@;
                marks.set(e.to, true);
                next.push(e.to);
                proof {
                    assert(next@[before.len() as int] == e.to);
                    assert forall|r: int| #[trigger] row_has(next@, r) <==> (row_has(before, r)
                        || r == e.to) by {
                        if row_has(before, r) {
                            let w = choose|w: int| 0 <= w < before.len() && #[trigger] before[w] == r;
                            assert(next@[w] == r);
                        }
                    }
                }
            }
            proof {
                if e.label == c {
                    assert(row@[i as int].label == c && row@[i as int].to == e.to);
                }
            }
            i += 1;
        }
        proof {
            assert forall|r: int| #[trigger]
                row_has(next@, r) <==> exists|j: int|
                    0 <= j < k + 1 && nfa@.arcs.contains(((#[trigger] front@[j]) as int, c, r)) by {
                if exists|j: int| 0 <= j < i && (#[trigger] row@[j]).label == c && row@[j].to == r {
                    let j = choose|j: int|
                        0 <= j < i && (#[trigger] row@[j]).label == c && row@[j].to == r;
                    assert(row_has_arc(row@, c, r));
                    assert(nfa@.arcs.contains((front@[k as int] as int, c, r)));
                }
                if nfa@.arcs.contains((front@[k as int] as int, c, r)) {
                    assert(row_has_arc(row@, c, r));
                    let j = choose|j: int|
                        0 <= j < row@.len() && (#[trigger] row@[j]).label == c && row@[j].to == r;
                    assert(row@[j].label == c);
                }
            }
        }
        k += 1;
    }
    proof {
        let goal = nfa@.step(set_of(front@), c);
        assert forall|r: int| set_of(next@).contains(r) <==> goal.contains(r) by {
            if set_of(next@).contains(r) {
                let j = choose|j: int|
                    0 <= j < k && nfa@.arcs.contains(((#[trigger] front@[j]) as int, c, r));
                assert(row_has(front@, front@[j] as int));
                assert(set_of(front@).contains(front@[j] as int));
            }
            if goal.contains(r) {
                let q = choose|q: int| set_of(front@).contains(q) && nfa@.arcs.contains((q, c, r));
                let j = choose|j: int| 0 <= j < front@.len() && #[trigger] front@[j] == q;
                assert(nfa@.arcs.contains((front@[j] as int, c, r)));
            }
        }
        assert(set_of(next@) =~= goal);
    }
    next
}

/// Walks from the frontier `front` as long as every state of the frontier
/// reads only one and the same character, for at most as many steps as
/// the automaton has identifiers. Returns the characters read and the
/// frontier reached.
pub fn literal_walk(nfa: &NFA, front: Vec<usize>) -> (r: (Vec<char>, Vec<usize>))
    requires
        nfa.wf(),
        forall|k: int| 0 <= k < front@.len() ==> (#[trigger] front@[k]) < nfa@.size,
    ensures
        r.0@ == nfa@.walk_word(set_of(front@), nfa@.size),
        set_of(r.1@) == nfa@.walk_end(set_of(front@), nfa@.size),
        forall|k: int| 0 <= k < r.1@.len() ==> (#[trigger] r.1@[k]) < nfa@.size,
{
    let mut word: Vec<char> = Vec::new();
    let mut cur = front;
    let mut fuel = nfa.size();
    let mut done = false;
    let ghost a = nfa@;
    let ghost f0 = set_of(front@);
    let ghost n = nfa@.size;
    while fuel > 0 && !done
        invariant
            nfa.wf(),
            a == nfa@,
            forall|k: int| 0 <= k < cur@.len() ==> (#[trigger] cur@[k]) < a.size,
            done ==> !a.can_extend(set_of(cur@)),
            a.walk_word(f0, n) == word@ + a.walk_word(set_of(cur@), fuel as nat),
            a.walk_end(f0, n) == a.walk_end(set_of(cur@), fuel as nat),
        decreases fuel, (if done { 0int } else { 1int }),
    {
        match frontier_label(nfa, &cur) {
            None => {
                done = true;
            },
            Some(c) => {
                let next = advance(nfa, &cur, c);
                proof {
                    a.lemma_next_char(set_of(cur@), c);
                    assert(word@.push(c) + a.walk_word(set_of(next@), (fuel - 1) as nat) =~= word@
                        + (seq![c] + a.walk_word(set_of(next@), (fuel - 1) as nat)));
                }
                word.push(c);
                cur = next;
                fuel -= 1;
            },
        }
    }
    proof {
        assert(a.walk_word(set_of(cur@), fuel as nat) =~= Seq::<char>::empty());
        assert(word@ + Seq::<char>::empty() =~= word@);
    }
    (word, cur)
}

/// Gives the automaton a fresh start state that stands for the states of
/// `front`, then closes and prunes it.
pub fn rewire(nfa: &mut NFA, front: &Vec<usize>)
    requires
        old(nfa).wf(),
        forall|k: int| 0 <= k < front@.len() ==> (#[trigger] front@[k]) < old(nfa)@.size,
    ensures
        final(nfa).wf(),
        final(nfa)@ == old(nfa)@.rewired(set_of(front@)),
{
    let ghost a = nfa@;
    let s = nfa.add_state();
    nfa.set_start(s);
    let ghost base = a.with_state().with_start(a.size as int);
    let mut k: usize = 0;
    assert(nfa@ =~= base.with_eps_to(a.size as int, set_of(front@.take(0)))) by {
        assert forall|q: int| !set_of(front@.take(0)).contains(q) by {}
    }
    while k < front.len()
        invariant
            k <= front@.len(),
            nfa.wf(),
            s.id == a.size,
            base == a.with_state().with_start(a.size as int),
            forall|j: int| 0 <= j < front@.len() ==> (#[trigger] front@[j]) < a.size,
            nfa@ == base.with_eps_to(a.size as int, set_of(front@.take(k as int))),
        decreases front@.len() - k,
    {
        nfa.add_transition(s, Transition::Epsilon, State { id: front[k] });
        proof {
            let t0 = front@.take(k as int);
            let t1 = front@.take(k + 1);
            assert forall|q: int| set_of(t1).contains(q) <==> (set_of(t0).contains(q) || q
                == front@[k as int]) by {
                if set_of(t0).contains(q) {
                    let w = choose|w: int| 0 <= w < t0.len() && #[trigger] t0[w] == q;
                    assert(t1[w] == q);
                }
                if q == front@[k as int] {
                    assert(t1[k as int] == q);
                }
                if set_of(t1).contains(q) {
                    let w = choose|w: int| 0 <= w < t1.len() && #[trigger] t1[w] == q;
                    if w < k {
                        assert(t0[w] == q);
                    }
                }
            }
            assert(nfa@ =~= base.with_eps_to(a.size as int, set_of(t1)));
        }
        k += 1;
    }
    assert(front@.take(front@.len() as int) =~= front@);
    nfa.epsilon_close();
    nfa.remove_unreachable_states();
}

/// The literal with which every accepted word begins, and the frontier
/// at which the walk from the start state stops.
pub fn prefix_walk(nfa: &NFA) -> (r: (Vec<char>, Vec<usize>))
    requires
        nfa.wf(),
    ensures
        r.0@ == nfa@.literal_prefix(),
        set_of(r.1@) == nfa@.prefix_frontier(),
        forall|k: int| 0 <= k < r.1@.len() ==> (#[trigger] r.1@[k]) < nfa@.size,
{
    let start = nfa.start_state();
    proof {
        nfa.lemma_start();
    }
    let mut front: Vec<usize> = Vec::new();
    front.push(start.id);
    proof {
        assert(front@[0] == start.id);
        assert(set_of(front@) =~= set![nfa@.start]);
    }
    literal_walk(nfa, front)
}

/// The automaton turned round, the literal with which every accepted
/// word ends, and the frontier at which the walk back from the accepting
/// states stops.
pub fn suffix_walk(nfa: &NFA) -> (r: (NFA, Vec<char>, Vec<usize>))
    requires
        nfa.wf(),
    ensures
        r.0.wf(),
        r.0@ == nfa@.reversed(),
        r.1@ == nfa@.literal_suffix(),
        set_of(r.2@) == nfa@.suffix_frontier(),
        forall|k: int| 0 <= k < r.2@.len() ==> (#[trigger] r.2@[k]) < nfa@.size,
{
    let rev = nfa.get_transitions_reverse();
    let n = nfa.size();
    let mut front: Vec<usize> = Vec::new();
    let mut q: usize = 0;
    proof {
        nfa.lemma_bounded();
    }
    while q < n
        invariant
            q <= n,
            n == nfa@.size,
            nfa.wf(),
            nfa@.bounded(),
            forall|k: int| 0 <= k < front@.len() ==> (#[trigger] front@[k]) < n,
            forall|x: int| #[trigger] row_has(front@, x) <==> 0 <= x < q && nfa@.accepts.contains(x),
        decreases n - q,
    {
        if nfa.is_accepting(State { id: q }) {
            let ghost before = front@;
            front.push(q);
            proof {
                assert(front@[before.len() as int] == q);
                assert forall|x: int| #[trigger] row_has(front@, x) <==> (row_has(before, x) || x
                    == q) by {
                    if row_has(before, x) {
                        let w = choose|w: int| 0 <= w < before.len() && #[trigger] before[w] == x;
                        assert(front@[w] == x);
                    }
                }
            }
        }
        q += 1;
    }
    proof {
        assert(set_of(front@) =~= nfa@.accepts);
    }
    let (word, end) = literal_walk(&rev, front);
    let turned = reversed(&word);
    (rev, turned, end)
}

impl NFA {
    /// Finds the literal with which every accepted word begins. Where it is
    /// not empty, the automaton is rewired to accept what follows the
    /// literal; where it is empty, the automaton stays as it is.
    pub fn find_prefix_from_nfa(&mut self) -> (prefix: String)
        requires
            old(self).wf(),
        ensures
            final(self).wf(),
            prefix@ == old(self)@.literal_prefix(),
            final(self)@ == if prefix@.len() == 0 {
                old(self)@
            } else {
                old(self)@.rewired(old(self)@.prefix_frontier())
            },
            old(self)@.compiled() ==> final(self)@.compiled(),
    {
        proof {
            if old(self)@.compiled() {
                old(self)@.lemma_walk_end_states(set![old(self)@.start], old(self)@.size);
                old(self)@.lemma_rewired_compiled(old(self)@.prefix_frontier());
            }
        }
        let (word, end) = prefix_walk(self);
        if word.len() > 0 {
            rewire(self, &end);
        }
        string_of(&word)
    }

    /// Finds the literal with which every accepted word ends. Where it is
    /// not empty, the automaton is turned round and rewired: it then
    /// accepts, read backwards, what stands before the literal. Where it
    /// is empty, the automaton stays as it is.
    pub fn find_suffix_from_nfa(&mut self) -> (suffix: String)
        requires
            old(self).wf(),
        ensures
            final(self).wf(),
            suffix@ == old(self)@.literal_suffix(),
            final(self)@ == if suffix@.len() == 0 {
                old(self)@
            } else {
                old(self)@.reversed().rewired(old(self)@.suffix_frontier())
            },
            old(self)@.compiled() ==> final(self)@.compiled(),
    {
        proof {
            if old(self)@.compiled() {
                let a = old(self)@;
                a.lemma_reversed_sound();
                a.reversed().lemma_walk_end_states(a.accepts, a.size);
                a.reversed().lemma_rewired_compiled(a.suffix_frontier());
            }
        }
        let (rev, word, end) = suffix_walk(self);
        if word.len() > 0 {
            *self = rev;
            rewire(self, &end);
        }
        string_of(&word)
    }
}

} // verus!
