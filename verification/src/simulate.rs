//! Running an automaton over a line of text.

use vstd::prelude::*;
use crate::automaton::Automaton;
use crate::extract::{advance, set_of};
use crate::nfa::{row_has, row_has_arc, Edge, State, NFA};
use crate::text::chars_of;

verus! {

/// Whether one of the states that `front` lists accepts.
fn any_accepting(nfa: &NFA, front: &Vec<usize>) -> (b: bool)
    requires
        nfa.wf(),
    ensures
        b == nfa@.hits_accept(set_of(front@)),
{
    let mut k: usize = 0;
    while k < front.len()
        invariant
            k <= front@.len(),
            nfa.wf(),
            forall|j: int| 0 <= j < k ==> !nfa@.accepts.contains((#[trigger] front@[j]) as int),
        decreases front@.len() - k,
    {
        if nfa.is_accepting(State { id: front[k] }) {
            assert(row_has(front@, front@[k as int] as int));
            assert(set_of(front@).contains(front@[k as int] as int));
            return true;
        }
        k += 1;
    }
    proof {
        if nfa@.hits_accept(set_of(front@)) {
            let q = choose|q: int| set_of(front@).contains(q) && nfa@.accepts.contains(q);
            let j = choose|j: int| 0 <= j < front@.len() && #[trigger] front@[j] == q;
            assert(!nfa@.accepts.contains(front@[j] as int));
        }
    }
    false
}

impl NFA {
    /// The end of the longest match in `line` that begins at `from`: the
    /// automaton is run from its start state until the line ends or no
    /// state is left.
    pub fn longest_from(&self, line: &Vec<char>, from: usize) -> (r: Option<usize>)
        requires
            self.wf(),
        ensures
            match r {
                Some(e) => self@.longest_match(line@, from as int) == Some(e as int),
                None => self@.longest_match(line@, from as int) is None,
            },
    {
        let start = self.start_state();
        let mut best: Option<usize> = if self.is_accepting(start) {
            Some(from)
        } else {
            None
        };
        let n = line.len();
        if from >= n {
            return best;
        }
        let mut cur: Vec<usize> = Vec::new();
        cur.push(start.id);
        let ghost a = self@;
        proof {
            self.lemma_start();
            a.lemma_reach_none(line@, from as int);
            assert(cur@[0] == start.id);
            assert(set_of(cur@) =~= set![a.start]);
        }
        let mut j: usize = from;
        let mut dead = false;
        while j < n && !dead
            invariant
                from <= j <= n,
                n == line@.len(),
                self.wf(),
                a == self@,
                forall|k: int| 0 <= k < cur@.len() ==> (#[trigger] cur@[k]) < a.size,
                set_of(cur@) == a.reach(line@, from as int, j as int),
                dead ==> a.reach(line@, from as int, j as int) == Set::<int>::empty(),
                match best {
                    Some(e) => a.longest_upto(line@, from as int, j as int) == Some(e as int),
                    None => a.longest_upto(line@, from as int, j as int) is None,
                },
            decreases n - j, (if dead { 0int } else { 1int }),
        {
            let next = advance(self, &cur, line[j]);
            proof {
                a.lemma_reach_step(line@, from as int, j as int);
            }
            if next.len() == 0 {
                proof {
                    assert forall|q: int| !set_of(next@).contains(q) by {}
                    assert(set_of(next@) =~= Set::<int>::empty());
                    assert(!a.hits_accept(a.reach(line@, from as int, j + 1)));
                }
                dead = true;
            } else if any_accepting(self, &next) {
                best = Some(j + 1);
            }
            cur = next;
            j += 1;
        }
        proof {
            if j < n {
                a.lemma_dead(line@, from as int, j as int, n as int);
            }
        }
        best
    }

    /// For each anchor in `starting_idxes` the end of the longest match
    /// that the automaton finds from there, or 0. A match begins
    /// `prefix_len` before its anchor; an anchor whose match would begin
    /// before the end of the last match found is passed over.
    pub fn check_str_with_start(
        &self,
        starting_idxes: &Vec<usize>,
        input_str: &str,
        prefix_len: usize,
    ) -> (out: Vec<usize>)
        requires
            self.wf(),
            starting_idxes@.len() > 0,
            forall|k: int|
                0 <= k < starting_idxes@.len() ==> (#[trigger] starting_idxes@[k]) >= prefix_len,
        ensures
            out@.map_values(|x: usize| x as int) == self@.anchored(
                input_str@,
                starting_idxes@.map_values(|x: usize| x as int),
                prefix_len as int,
                0,
                0,
            ),
    {
        let line = chars_of(input_str);
        self.anchored_matches(starting_idxes, &line, prefix_len)
    }

    /// `check_str_with_start` on a line given by its characters.
    pub fn anchored_matches(
        &self,
        starting_idxes: &Vec<usize>,
        line: &Vec<char>,
        prefix_len: usize,
    ) -> (out: Vec<usize>)
        requires
            self.wf(),
            forall|k: int|
                0 <= k < starting_idxes@.len() ==> (#[trigger] starting_idxes@[k]) >= prefix_len,
        ensures
            out@.map_values(|x: usize| x as int) == self@.anchored(
                line@,
                starting_idxes@.map_values(|x: usize| x as int),
                prefix_len as int,
                0,
                0,
            ),
    {
        let mut out: Vec<usize> = Vec::new();
        let mut end_idx: usize = 0;
        let mut k: usize = 0;
        let ghost a = self@;
        let ghost plen = prefix_len as int;
        let ghost starts = starting_idxes@.map_values(|x: usize| x as int);
        while k < starting_idxes.len()
            invariant
                k <= starting_idxes@.len(),
                self.wf(),
                a == self@,
                plen == prefix_len,
                starts == starting_idxes@.map_values(|x: usize| x as int),
                forall|j: int|
                    0 <= j < starting_idxes@.len() ==> (#[trigger] starting_idxes@[j])
                        >= prefix_len,
                out@.map_values(|x: usize| x as int) + a.anchored(
                    line@,
                    starts,
                    plen,
                    k as int,
                    end_idx as int,
                ) == a.anchored(line@, starts, plen, 0, 0),
            decreases starting_idxes@.len() - k,
        {
            let s = starting_idxes[k];
            let ghost before = out@.map_values(|x: usize| x as int);
            let ghost rest_before = a.anchored(line@, starts, plen, k as int, end_idx as int);
            assert(starts[k as int] == s);
            let mut found: usize = 0;
            let mut mark = end_idx;
            if s - prefix_len >= end_idx {
                match self.longest_from(line, s) {
                    Some(e) => {
                        found = e;
                        mark = e;
                    },
                    None => {},
                }
            }
            out.push(found);
            proof {
                let rest = a.anchored(line@, starts, plen, k + 1, mark as int);
                assert(rest_before == seq![found as int] + rest);
                assert(out@.map_values(|x: usize| x as int) =~= before.push(found as int));
                assert(before.push(found as int) + rest =~= before + (seq![found as int] + rest));
            }
            end_idx = mark;
            k += 1;
        }
        proof {
            assert(out@.map_values(|x: usize| x as int) + Seq::<int>::empty() =~= out@.map_values(
                |x: usize| x as int,
            ));
        }
        out
    }
}

/// Some listed state among the first `upto` lit an edge labelled `c`
/// to `r`, and its origin is `o`.
spec fn fed(
    a: Automaton,
    lit: Seq<bool>,
    org: Seq<usize>,
    c: char,
    upto: int,
    r: int,
    o: int,
) -> bool {
    exists|q: int| 0 <= q < upto && lit[q] && #[trigger] a.arcs.contains((q, c, r)) && org[q] == o
}

/// No listed state among the first `upto` with an edge labelled `c` to
/// `r` lit an origin before `o`.
spec fn least(
    a: Automaton,
    lit: Seq<bool>,
    org: Seq<usize>,
    c: char,
    upto: int,
    r: int,
    o: int,
) -> bool {
    forall|q: int| 0 <= q < upto && lit[q] && #[trigger] a.arcs.contains((q, c, r)) ==> o <= org[q]
}

/// No listed state among the first `upto` lit an edge labelled `c` to `r`.
spec fn unfed(a: Automaton, lit: Seq<bool>, c: char, upto: int, r: int) -> bool {
    forall|q: int| 0 <= q < upto && lit[q] ==> !(#[trigger] a.arcs.contains((q, c, r)))
}

/// An edge among the first `upto` of `row` is labelled `c` and leads to
/// `r`.
spec fn row_feeds(row: Seq<Edge>, c: char, upto: int, r: int) -> bool {
    exists|j: int| 0 <= j < upto && (#[trigger] row[j]).label == c && row[j].to == r
}

/// `nlit` and `norg` list the states that one step on `c` reaches from
/// the listed states, each with the least origin of the states that lead
/// to it.
spec fn stepped(
    a: Automaton,
    lit: Seq<bool>,
    org: Seq<usize>,
    c: char,
    nlit: Seq<bool>,
    norg: Seq<usize>,
) -> bool {
    forall|r: int|
        0 <= r < nlit.len() ==> if #[trigger] nlit[r] {
            fed(a, lit, org, c, lit.len() as int, r, norg[r] as int) && least(
                a,
                lit,
                org,
                c,
                lit.len() as int,
                r,
                norg[r] as int,
            )
        } else {
            unfed(a, lit, c, lit.len() as int, r)
        }
}

/// Every state is listed if and only if reading up to `e` from some
/// position below `limit` can end in it, and then with the first such
/// position.
spec fn origins_ok(
    a: Automaton,
    line: Seq<char>,
    lit: Seq<bool>,
    org: Seq<usize>,
    limit: int,
    e: int,
) -> bool {
    forall|q: int|
        0 <= q < lit.len() ==> if #[trigger] lit[q] {
            &&& 0 <= org[q] < limit
            &&& a.reach(line, org[q] as int, e).contains(q)
            &&& forall|p: int| 0 <= p < org[q] ==> !a.reach(line, p, e).contains(q)
        } else {
            forall|p: int| 0 <= p < limit ==> !a.reach(line, p, e).contains(q)
        }
}

/// One step on `c` from the listed states, with origins.
fn step_origins(nfa: &NFA, lit: &Vec<bool>, org: &Vec<usize>, c: char) -> (r: (
    Vec<bool>,
    Vec<usize>,
))
    requires
        nfa.wf(),
        lit@.len() == nfa@.size,
        org@.len() == nfa@.size,
    ensures
        r.0@.len() == nfa@.size,
        r.1@.len() == nfa@.size,
        stepped(nfa@, lit@, org@, c, r.0@, r.1@),
{
    let n = nfa.size();
    let ghost a = nfa@;
    let mut nlit: Vec<bool> = Vec::new();
    let mut norg: Vec<usize> = Vec::new();
    let mut i: usize = 0;
    while i < n
        invariant
            i <= n,
            nlit@.len() == i,
            norg@.len() == i,
            forall|r: int| 0 <= r < i ==> !(#[trigger] nlit@[r]),
        decreases n - i,
    {
        nlit.push(false);
        norg.push(0);
        i += 1;
    }
    let mut q: usize = 0;
    while q < n
        invariant
            q <= n,
            n == a.size,
            a == nfa@,
            nfa.wf(),
            lit@.len() == n,
            org@.len() == n,
            nlit@.len() == n,
            norg@.len() == n,
            forall|r: int|
                0 <= r < n ==> if #[trigger] nlit@[r] {
                    fed(a, lit@, org@, c, q as int, r, norg@[r] as int) && least(
                        a,
                        lit@,
                        org@,
                        c,
                        q as int,
                        r,
                        norg@[r] as int,
                    )
                } else {
                    unfed(a, lit@, c, q as int, r)
                },
        decreases n - q,
    {
        if lit[q] {
            let row = nfa.arcs_from(State { id: q });
            let o = org[q];
            let mut k: usize = 0;
            while k < row.len()
                invariant
                    k <= row@.len(),
                    q < n,
                    n == a.size,
                    a == nfa@,
                    lit@.len() == n,
                    org@.len() == n,
                    nlit@.len() == n,
                    norg@.len() == n,
                    lit@[q as int],
                    o == org@[q as int],
                    forall|j: int| 0 <= j < row@.len() ==> (#[trigger] row@[j]).to < n,
                    forall|x: char, r: int| #[trigger]
                        row_has_arc(row@, x, r) <==> a.arcs.contains((q as int, x, r)),
                    forall|r: int|
                        0 <= r < n ==> if #[trigger] nlit@[r] {
                            &&& (fed(a, lit@, org@, c, q as int, r, norg@[r] as int) || (row_feeds(
                                row@,
                                c,
                                k as int,
                                r,
                            ) && norg@[r] == o))
                            &&& least(a, lit@, org@, c, q as int, r, norg@[r] as int)
                            &&& (row_feeds(row@, c, k as int, r) ==> norg@[r] <= o)
                        } else {
                            unfed(a, lit@, c, q as int, r) && !row_feeds(row@, c, k as int, r)
                        },
                decreases row@.len() - k,
            {
                let e = row[k];
                if e.label == c {
                    let r = e.to;
                    if !nlit[r] || norg[r] > o {
                        nlit.set(r, true);
                        norg.set(r, o);
                    }
                }
                proof {
                    assert forall|r: int| 0 <= r < n implies (row_feeds(row@, c, k + 1, r)
                        <==> row_feeds(row@, c, k as int, r) || (e.label == c && e.to == r)) by {
                        if row_feeds(row@, c, k as int, r) {
                            let j = choose|j: int|
                                0 <= j < k && (#[trigger] row@[j]).label == c && row@[j].to == r;
                            assert(row@[j].label == c);
                        }
                        if e.label == c && e.to == r {
                            assert(row@[k as int].label == c);
                        }
                    }
                }
                k += 1;
            }
            proof {
                assert forall|r: int| 0 <= r < n implies if #[trigger] nlit@[r] {
                    fed(a, lit@, org@, c, q + 1, r, norg@[r] as int) && least(
                        a,
                        lit@,
                        org@,
                        c,
                        q + 1,
                        r,
                        norg@[r] as int,
                    )
                } else {
                    unfed(a, lit@, c, q + 1, r)
                } by {
                    if a.arcs.contains((q as int, c, r)) {
                        assert(row_has_arc(row@, c, r));
                        let j = choose|j: int|
                            0 <= j < row@.len() && (#[trigger] row@[j]).label == c && row@[j].to
                                == r;
                        assert(row_feeds(row@, c, row@.len() as int, r));
                    }
                    if nlit@[r] {
                        if fed(a, lit@, org@, c, q as int, r, norg@[r] as int) {
                            let w = choose|w: int|
                                0 <= w < q && lit@[w] && #[trigger] a.arcs.contains((w, c, r))
                                    && org@[w] == norg@[r];
                            assert(a.arcs.contains((w, c, r)));
                        } else {
                            let j = choose|j: int|
                                0 <= j < row@.len() && (#[trigger] row@[j]).label == c && row@[j].to
                                    == r;
                            assert(row_has_arc(row@, c, r));
                            assert(a.arcs.contains((q as int, c, r)));
                        }
                    }
                }
            }
        } else {
            proof {
                assert forall|r: int| 0 <= r < n implies if #[trigger] nlit@[r] {
                    fed(a, lit@, org@, c, q + 1, r, norg@[r] as int) && least(
                        a,
                        lit@,
                        org@,
                        c,
                        q + 1,
                        r,
                        norg@[r] as int,
                    )
                } else {
                    unfed(a, lit@, c, q + 1, r)
                } by {
                    if nlit@[r] {
                        let w = choose|w: int|
                            0 <= w < q && lit@[w] && #[trigger] a.arcs.contains((w, c, r))
                                && org@[w] == norg@[r];
                        assert(a.arcs.contains((w, c, r)));
                    }
                }
            }
        }
        q += 1;
    }
    (nlit, norg)
}

/// After a step, the states are listed with the first positions from
/// which reading one character more can end in them.
proof fn lemma_origins_step(
    a: Automaton,
    line: Seq<char>,
    lit: Seq<bool>,
    org: Seq<usize>,
    nlit: Seq<bool>,
    norg: Seq<usize>,
    i: int,
)
    requires
        a.bounded(),
        0 <= i < line.len(),
        lit.len() == a.size,
        org.len() == a.size,
        nlit.len() == a.size,
        norg.len() == a.size,
        origins_ok(a, line, lit, org, i + 1, i),
        stepped(a, lit, org, line[i], nlit, norg),
    ensures
        origins_ok(a, line, nlit, norg, i + 1, i + 1),
{
    let c = line[i];
    let n = a.size as int;
    let e1 = i + 1;
    assert forall|r: int| 0 <= r < nlit.len() implies if #[trigger] nlit[r] {
        &&& 0 <= norg[r] < i + 1
        &&& a.reach(line, norg[r] as int, e1).contains(r)
        &&& forall|p: int| 0 <= p < norg[r] ==> !a.reach(line, p, e1).contains(r)
    } else {
        forall|p: int| 0 <= p < i + 1 ==> !a.reach(line, p, e1).contains(r)
    } by {
        if nlit[r] {
            let o = norg[r] as int;
            let q = choose|q: int|
                0 <= q < n && lit[q] && #[trigger] a.arcs.contains((q, c, r)) && org[q] == o;
            assert(lit[q]);
            a.lemma_reach_step(line, o, i);
            assert forall|p: int| 0 <= p < o implies !a.reach(line, p, e1).contains(r) by {
                a.lemma_reach_step(line, p, i);
                if a.reach(line, p, e1).contains(r) {
                    let w = choose|w: int|
                        a.reach(line, p, i).contains(w) && a.arcs.contains((w, c, r));
                    assert(0 <= w < n);
                    assert(lit[w]);
                    assert(a.arcs.contains((w, c, r)));
                }
            }
        } else {
            assert forall|p: int| 0 <= p < i + 1 implies !a.reach(line, p, e1).contains(r) by {
                a.lemma_reach_step(line, p, i);
                if a.reach(line, p, e1).contains(r) {
                    let w = choose|w: int|
                        a.reach(line, p, i).contains(w) && a.arcs.contains((w, c, r));
                    assert(0 <= w < n);
                    assert(lit[w]);
                    assert(a.arcs.contains((w, c, r)));
                }
            }
        }
    }
}

impl NFA {
    /// For every position of the line the end of the match that is
    /// credited to it, or 0. The automaton is started anew at every
    /// position; where runs from several positions meet in a state, the
    /// state goes on for the earliest of them, and the last accepting
    /// state reached gives the end.
    pub fn check_str_without_start(&self, input_str: &str) -> (ends: Vec<usize>)
        requires
            self.wf(),
        ensures
            ends@.len() == input_str@.len(),
            forall|o: int|
                0 <= o < ends@.len() ==> (#[trigger] ends@[o]) == self@.match_end(input_str@, o),
    {
        let line = chars_of(input_str);
        self.all_matches(&line)
    }

    /// `check_str_without_start` on a line given by its characters.
    pub fn all_matches(&self, line: &Vec<char>) -> (ends: Vec<usize>)
        requires
            self.wf(),
        ensures
            ends@.len() == line@.len(),
            forall|o: int|
                0 <= o < ends@.len() ==> (#[trigger] ends@[o]) == self@.match_end(line@, o),
    {
        let n = self.size();
        let len = line.len();
        let ghost a = self@;
        let start = self.start_state();
        let start_accepts = self.is_accepting(start);
        proof {
            self.lemma_bounded();
        }
        let mut ends: Vec<usize> = Vec::new();
        let mut k: usize = 0;
        while k < len
            invariant
                k <= len,
                ends@.len() == k,
                forall|o: int| 0 <= o < k ==> (#[trigger] ends@[o]) == 0,
            decreases len - k,
        {
            ends.push(0);
            k += 1;
        }
        let mut lit: Vec<bool> = Vec::new();
        let mut org: Vec<usize> = Vec::new();
        let mut k: usize = 0;
        while k < n
            invariant
                k <= n,
                lit@.len() == k,
                org@.len() == k,
                forall|q: int| 0 <= q < k ==> !(#[trigger] lit@[q]),
            decreases n - k,
        {
            lit.push(false);
            org.push(0);
            k += 1;
        }
        let mut i: usize = 0;
        while i < len
            invariant
                i <= len,
                len == line@.len(),
                n == a.size,
                a == self@,
                self.wf(),
                a.bounded(),
                start.id == a.start,
                start_accepts == a.accepts.contains(a.start),
                lit@.len() == n,
                org@.len() == n,
                ends@.len() == len,
                origins_ok(a, line@, lit@, org@, i as int, i as int),
                forall|o: int|
                    0 <= o < len ==> (#[trigger] ends@[o]) == a.match_end_upto(line@, o, i as int),
            decreases len - i,
        {
            let ghost lit0 = lit@;
            let ghost org0 = org@;
            if !lit[start.id] {
                lit.set(start.id, true);
                org.set(start.id, i);
            }
            proof {
                a.lemma_reach_none(line@, i as int);
                assert forall|q: int| 0 <= q < lit@.len() implies if #[trigger] lit@[q] {
                    &&& 0 <= org@[q] < i + 1
                    &&& a.reach(line@, org@[q] as int, i as int).contains(q)
                    &&& forall|p: int| 0 <= p < org@[q] ==> !a.reach(line@, p, i as int).contains(q)
                } else {
                    forall|p: int| 0 <= p < i + 1 ==> !a.reach(line@, p, i as int).contains(q)
                } by {
                    if q != start.id {
                        assert(lit@[q] == lit0[q]);
                        assert(org@[q] == org0[q]);
                    }
                }
                assert(origins_ok(a, line@, lit@, org@, i + 1, i as int));
            }
            if start_accepts {
                ends.set(i, i + 1);
            }
            let (nlit, norg) = step_origins(self, &lit, &org, line[i]);
            proof {
                lemma_origins_step(a, line@, lit@, org@, nlit@, norg@, i as int);
            }
            let mut q: usize = 0;
            while q < n
                invariant
                    q <= n,
                    i < len,
                    len == line@.len(),
                    n == a.size,
                    a == self@,
                    self.wf(),
                    nlit@.len() == n,
                    norg@.len() == n,
                    ends@.len() == len,
                    start_accepts == a.accepts.contains(a.start),
                    origins_ok(a, line@, nlit@, norg@, i + 1, i + 1),
                    forall|o: int|
                        0 <= o < len ==> (#[trigger] ends@[o]) == if (o == i && start_accepts) || (
                        exists|w: int|
                            0 <= w < q && a.accepts.contains(w) && #[trigger] nlit@[w] && norg@[w]
                                == o) {
                            i + 1
                        } else {
                            a.match_end_upto(line@, o, i as int)
                        },
                decreases n - q,
            {
                if self.is_accepting(State { id: q }) && nlit[q] {
                    assert(nlit@[q as int]);
                    let o = norg[q];
                    let ghost before = ends@;
                    ends.set(o, i + 1);
                    proof {
                        assert forall|x: int| 0 <= x < len implies (#[trigger] ends@[x]) == if (x
                            == i && start_accepts) || (exists|w: int|
                            0 <= w < q + 1 && a.accepts.contains(w) && #[trigger] nlit@[w]
                                && norg@[w] == x) {
                            i + 1
                        } else {
                            a.match_end_upto(line@, x, i as int)
                        } by {
                            if x != o {
                                assert(ends@[x] == before[x]);
                                if exists|w: int|
                                    0 <= w < q + 1 && a.accepts.contains(w) && #[trigger] nlit@[w]
                                        && norg@[w] == x {
                                    let w = choose|w: int|
                                        0 <= w < q + 1 && a.accepts.contains(w)
                                            && #[trigger] nlit@[w] && norg@[w] == x;
                                    assert(w < q);
                                }
                            }
                        }
                    }
                } else {
                    proof {
                        assert forall|x: int| 0 <= x < len implies (#[trigger] ends@[x]) == if (x
                            == i && start_accepts) || (exists|w: int|
                            0 <= w < q + 1 && a.accepts.contains(w) && #[trigger] nlit@[w]
                                && norg@[w] == x) {
                            i + 1
                        } else {
                            a.match_end_upto(line@, x, i as int)
                        } by {
                            if exists|w: int|
                                0 <= w < q + 1 && a.accepts.contains(w) && #[trigger] nlit@[w]
                                    && norg@[w] == x {
                                let w = choose|w: int|
                                    0 <= w < q + 1 && a.accepts.contains(w) && #[trigger] nlit@[w]
                                        && norg@[w] == x;
                                assert(w < q);
                            }
                        }
                    }
                }
                q += 1;
            }
            proof {
                assert forall|o: int| 0 <= o < len implies (#[trigger] ends@[o])
                    == a.match_end_upto(line@, o, i + 1) by {
                    let listed = exists|w: int|
                        0 <= w < n && a.accepts.contains(w) && #[trigger] nlit@[w] && norg@[w] == o;
                    if listed {
                        let w = choose|w: int|
                            0 <= w < n && a.accepts.contains(w) && #[trigger] nlit@[w] && norg@[w]
                                == o;
                        assert(a.first_reach(line@, o, i + 1, w));
                        assert(a.ends_at(line@, o, i + 1));
                    } else if a.ends_at(line@, o, i + 1) && !(o == i && start_accepts) {
                        let w = choose|w: int|
                            a.accepts.contains(w) && a.first_reach(line@, o, i + 1, w);
                        assert(0 <= w < n);
                        if !nlit@[w] {
                            assert(!a.reach(line@, o, i + 1).contains(w));
                        } else {
                            if norg@[w] < o {
                                assert(!a.reach(line@, norg@[w] as int, i + 1).contains(w));
                            }
                            if norg@[w] > o {
                                assert(!a.reach(line@, o, i + 1).contains(w));
                            }
                        }
                    }
                }
            }
            lit = nlit;
            org = norg;
            i += 1;
        }
        ends
    }
}

} // verus!
