//! Reachability in a directed graph given by adjacency lists.

use vstd::prelude::*;

verus! {

/// `path` follows `rel` from each element to the next.
pub open spec fn is_path(rel: spec_fn(int, int) -> bool, path: Seq<int>) -> bool {
    forall|i: int| 0 <= i < path.len() - 1 ==> #[trigger] rel(path[i], path[i + 1])
}

/// Some path of zero or more `rel` steps leads from `p` to `q`.
pub open spec fn connects(rel: spec_fn(int, int) -> bool, p: int, q: int) -> bool {
    exists|path: Seq<int>|
        path.len() > 0 && path[0] == p && path.last() == q && #[trigger] is_path(rel, path)
}

/// Every listed successor is a node of the graph.
pub open spec fn in_bounds(adj: Seq<Vec<usize>>) -> bool {
    forall|p: int, k: int|
        0 <= p < adj.len() && 0 <= k < adj[p]@.len() ==> (#[trigger] adj[p]@[k]) < adj.len()
}

/// Rows that name only nodes below their number are in bounds.
pub proof fn lemma_in_bounds(adj: Seq<Vec<usize>>)
    requires
        forall|p: int, k: int|
            0 <= p < adj.len() && 0 <= k < adj[p]@.len() ==> (#[trigger] adj[p]@[k]) < adj.len(),
    ensures
        in_bounds(adj),
{
}

/// `q` is listed as a successor of `p`.
pub open spec fn has_edge(adj: Seq<Vec<usize>>, p: int, q: int) -> bool {
    0 <= p < adj.len() && exists|k: int| 0 <= k < adj[p]@.len() && #[trigger] adj[p]@[k] == q
}

/// The edge relation of an adjacency-list graph.
pub open spec fn edges_of(adj: Seq<Vec<usize>>) -> spec_fn(int, int) -> bool {
    |p: int, q: int| has_edge(adj, p, q)
}

/// The number of `false` entries of `s`.
pub open spec fn count_false(s: Seq<bool>) -> nat
    decreases s.len(),
{
    if s.len() == 0 {
        0
    } else {
        count_false(s.drop_last()) + if s.last() { 0nat } else { 1nat }
    }
}

/// Setting a `false` entry to `true` lowers the count by one.
pub proof fn lemma_count_false_update(s: Seq<bool>, i: int)
    requires
        0 <= i < s.len(),
        !s[i],
    ensures
        count_false(s.update(i, true)) + 1 == count_false(s),
    decreases s.len(),
{
    let t = s.update(i, true);
    if i == s.len() - 1 {
        assert(t.drop_last() =~= s.drop_last());
    } else {
        lemma_count_false_update(s.drop_last(), i);
        assert(t.drop_last() =~= s.drop_last().update(i, true));
    }
}

/// A path can be extended by one more step.
pub proof fn lemma_connects_step(rel: spec_fn(int, int) -> bool, p: int, q: int, r: int)
    requires
        connects(rel, p, q),
        rel(q, r),
    ensures
        connects(rel, p, r),
{
    let path = choose|path: Seq<int>|
        path.len() > 0 && path[0] == p && path.last() == q && #[trigger] is_path(rel, path);
    let longer = path.push(r);
    assert forall|i: int| 0 <= i < longer.len() - 1 implies #[trigger] rel(
        longer[i],
        longer[i + 1],
    ) by {
        if i < path.len() - 1 {
            assert(rel(path[i], path[i + 1]));
        }
    }
    assert(is_path(rel, longer));
}

/// Every node is connected to itself.
pub proof fn lemma_connects_self(rel: spec_fn(int, int) -> bool, p: int)
    ensures
        connects(rel, p, p),
{
    let path = seq![p];
    assert(is_path(rel, path));
    assert(path.len() > 0 && path[0] == p && path.last() == p);
}

/// A path between different nodes begins with a step.
pub proof fn lemma_connects_first_step(rel: spec_fn(int, int) -> bool, p: int, q: int) -> (x: int)
    requires
        connects(rel, p, q),
        p != q,
    ensures
        rel(p, x),
        connects(rel, x, q),
{
    let path = choose|path: Seq<int>|
        path.len() > 0 && path[0] == p && path.last() == q && #[trigger] is_path(rel, path);
    assert(path.len() > 1);
    assert(rel(path[0int], path[0int + 1]));
    let rest = path.drop_first();
    assert forall|i: int| 0 <= i < rest.len() - 1 implies #[trigger] rel(rest[i], rest[i + 1]) by {
        assert(rel(path[i + 1], path[i + 1 + 1]));
    }
    assert(is_path(rel, rest));
    assert(rest.len() > 0 && rest[0] == path[1] && rest.last() == q);
    path[1]
}

/// Paths depend only on which pairs the relation holds of.
pub proof fn lemma_connects_same(
    r1: spec_fn(int, int) -> bool,
    r2: spec_fn(int, int) -> bool,
    p: int,
    q: int,
)
    requires
        forall|x: int, y: int| #[trigger] r1(x, y) ==> r2(x, y),
        connects(r1, p, q),
    ensures
        connects(r2, p, q),
{
    let path = choose|path: Seq<int>|
        path.len() > 0 && path[0] == p && path.last() == q && #[trigger] is_path(r1, path);
    assert forall|i: int| 0 <= i < path.len() - 1 implies #[trigger] r2(path[i], path[i + 1]) by {
        assert(r1(path[i], path[i + 1]));
    }
    assert(is_path(r2, path));
}

/// A set that holds `p` and is closed under `rel` holds everything that `p`
/// is connected to.
pub proof fn lemma_closed_holds_connected(
    rel: spec_fn(int, int) -> bool,
    inside: spec_fn(int) -> bool,
    p: int,
    q: int,
)
    requires
        inside(p),
        forall|x: int, y: int| inside(x) && #[trigger] rel(x, y) ==> inside(y),
        connects(rel, p, q),
    ensures
        inside(q),
{
    let path = choose|path: Seq<int>|
        path.len() > 0 && path[0] == p && path.last() == q && #[trigger] is_path(rel, path);
    lemma_path_inside(rel, inside, path, path.len() - 1);
}

proof fn lemma_path_inside(
    rel: spec_fn(int, int) -> bool,
    inside: spec_fn(int) -> bool,
    path: Seq<int>,
    i: int,
)
    requires
        0 <= i < path.len(),
        inside(path[0]),
        forall|x: int, y: int| inside(x) && #[trigger] rel(x, y) ==> inside(y),
        is_path(rel, path),
    ensures
        inside(path[i]),
    decreases i,
{
    if i > 0 {
        lemma_path_inside(rel, inside, path, i - 1);
        assert(rel(path[i - 1], path[i - 1 + 1]));
    }
}

/// `x` occurs in `stack`.
pub open spec fn on_stack(stack: Seq<usize>, x: int) -> bool {
    exists|j: int| 0 <= j < stack.len() && #[trigger] stack[j] == x
}

/// Every successor of `p` is marked.
pub open spec fn successors_marked(adj: Seq<Vec<usize>>, mark: Seq<bool>, p: int) -> bool {
    forall|k: int| 0 <= k < adj[p]@.len() ==> mark[(#[trigger] adj[p]@[k]) as int]
}

/// `q` is connected to from one of the `seeds`.
pub open spec fn reached(adj: Seq<Vec<usize>>, seeds: Seq<usize>, q: int) -> bool {
    exists|s: int| 0 <= s < seeds.len() && connects(edges_of(adj), #[trigger] seeds[s] as int, q)
}

/// Marks the nodes that can be reached from `seeds` in zero or more steps.
pub fn reach_from(adj: &Vec<Vec<usize>>, seeds: &Vec<usize>) -> (mark: Vec<bool>)
    requires
        in_bounds(adj@),
        forall|s: int| 0 <= s < seeds@.len() ==> (#[trigger] seeds@[s]) < adj@.len(),
    ensures
        mark@.len() == adj@.len(),
        forall|q: int| 0 <= q < adj@.len() ==> (#[trigger] mark@[q] <==> reached(adj@, seeds@, q)),
{
    let n = adj.len();
    let mut mark: Vec<bool> = Vec::new();
    let mut i: usize = 0;
    while i < n
        invariant
            i <= n,
            mark@.len() == i,
            forall|q: int| 0 <= q < i ==> !(#[trigger] mark@[q]),
        decreases n - i,
    {
        mark.push(false);
        i += 1;
    }
    let mut stack: Vec<usize> = Vec::new();
    let mut s: usize = 0;
    while s < seeds.len()
        invariant
            n == adj@.len(),
            s <= seeds@.len(),
            mark@.len() == n,
            forall|j: int| 0 <= j < seeds@.len() ==> (#[trigger] seeds@[j]) < n,
            forall|j: int| 0 <= j < s ==> mark@[(#[trigger] seeds@[j]) as int],
            forall|j: int| 0 <= j < stack@.len() ==> (#[trigger] stack@[j]) < n && mark@[stack@[j] as int],
            forall|q: int| 0 <= q < n && #[trigger] mark@[q] ==> on_stack(stack@, q),
            forall|q: int| 0 <= q < n && #[trigger] mark@[q] ==> reached(adj@, seeds@, q),
        decreases seeds@.len() - s,
    {
        let x = seeds[s];
        if !mark[x] {
            let ghost old_stack = stack@;
            mark.set(x, true);
            stack.push(x);
            proof {
                lemma_connects_self(edges_of(adj@), x as int);
                assert(reached(adj@, seeds@, x as int));
                assert(stack@[old_stack.len() as int] == x);
                assert forall|q: int| 0 <= q < n && #[trigger] mark@[q] implies on_stack(
                    stack@,
                    q,
                ) by {
                    if q != x {
                        let j = choose|j: int| 0 <= j < old_stack.len() && old_stack[j] == q;
                        assert(stack@[j] == q);
                    }
                }
            }
        }
        s += 1;
    }
    while stack.len() > 0
        invariant
            n == adj@.len(),
            in_bounds(adj@),
            mark@.len() == n,
            forall|j: int| 0 <= j < seeds@.len() ==> mark@[(#[trigger] seeds@[j]) as int],
            forall|j: int| 0 <= j < seeds@.len() ==> (#[trigger] seeds@[j]) < n,
            forall|j: int| 0 <= j < stack@.len() ==> (#[trigger] stack@[j]) < n && mark@[stack@[j] as int],
            forall|q: int|
                0 <= q < n && #[trigger] mark@[q] ==> on_stack(stack@, q) || successors_marked(
                    adj@,
                    mark@,
                    q,
                ),
            forall|q: int| 0 <= q < n && #[trigger] mark@[q] ==> reached(adj@, seeds@, q),
        decreases count_false(mark@), stack@.len(),
    {
        let ghost mark0 = mark@;
        let ghost stack0 = stack@;
        let p = stack.pop().unwrap();
        let ghost base = stack@;
        assert(stack0[stack0.len() - 1] == p);
        let row_len = adj[p].len();
        let mut k: usize = 0;
        proof {
            assert forall|q: int| 0 <= q < n && q != p && #[trigger] mark@[q] implies on_stack(
                stack@,
                q,
            ) || successors_marked(adj@, mark@, q) by {
                if on_stack(stack0, q) {
                    let j = choose|j: int| 0 <= j < stack0.len() && stack0[j] == q;
                    assert(stack@[j] == q);
                }
            }
        }
        while k < row_len
            invariant
                n == adj@.len(),
                in_bounds(adj@),
                p < n,
                row_len == adj@[p as int]@.len(),
                k <= row_len,
                mark@.len() == n,
                forall|j: int| 0 <= j < seeds@.len() ==> (#[trigger] seeds@[j]) < n,
                forall|j: int| 0 <= j < seeds@.len() ==> mark@[(#[trigger] seeds@[j]) as int],
                forall|j: int| 0 <= j < stack@.len() ==> (#[trigger] stack@[j]) < n && mark@[stack@[j] as int],
                forall|q: int|
                    0 <= q < n && q != p && #[trigger] mark@[q] ==> on_stack(stack@, q)
                        || successors_marked(adj@, mark@, q),
                forall|j: int| 0 <= j < k ==> mark@[(#[trigger] adj@[p as int]@[j]) as int],
                forall|q: int| 0 <= q < n && #[trigger] mark@[q] ==> reached(adj@, seeds@, q),
                reached(adj@, seeds@, p as int),
                stack@.len() >= base.len(),
                count_false(mark@) + stack@.len() == count_false(mark0) + base.len(),
            decreases row_len - k,
        {
            let q = adj[p][k];
            assert(adj@[p as int]@[k as int] < n);
            if !mark[q] {
                let ghost m1 = mark@;
                let ghost s1 = stack@;
                mark.set(q, true);
                stack.push(q);
                proof {
                    lemma_count_false_update(m1, q as int);
                    let sd = choose|sd: int|
                        0 <= sd < seeds@.len() && connects(
                            edges_of(adj@),
                            #[trigger] seeds@[sd] as int,
                            p as int,
                        );
                    assert(has_edge(adj@, p as int, q as int));
                    assert(edges_of(adj@)(p as int, q as int));
                    lemma_connects_step(edges_of(adj@), seeds@[sd] as int, p as int, q as int);
                    assert(reached(adj@, seeds@, q as int));
                    assert(stack@[s1.len() as int] == q);
                    assert forall|x: int|
                        0 <= x < n && x != p && #[trigger] mark@[x] implies on_stack(stack@, x)
                        || successors_marked(adj@, mark@, x) by {
                        if x != q {
                            if on_stack(s1, x) {
                                let j = choose|j: int| 0 <= j < s1.len() && s1[j] == x;
                                assert(stack@[j] == x);
                            } else {
                                assert(successors_marked(adj@, m1, x));
                            }
                        }
                    }
                }
            }
            k += 1;
        }
        proof {
            assert(successors_marked(adj@, mark@, p as int));
        }
    }
    proof {
        let rel = edges_of(adj@);
        let inside = |q: int| 0 <= q < n && mark@[q];
        assert forall|x: int, y: int| inside(x) && #[trigger] rel(x, y) implies inside(y) by {
            assert(!on_stack(stack@, x));
            assert(successors_marked(adj@, mark@, x));
            let k = choose|k: int| 0 <= k < adj@[x]@.len() && #[trigger] adj@[x]@[k] == y;
            assert(mark@[adj@[x]@[k] as int]);
        }
        assert forall|q: int| 0 <= q < n && reached(adj@, seeds@, q) implies #[trigger] mark@[q] by {
            let sd = choose|sd: int|
                0 <= sd < seeds@.len() && connects(rel, #[trigger] seeds@[sd] as int, q);
            assert(inside(seeds@[sd] as int));
            lemma_closed_holds_connected(rel, inside, seeds@[sd] as int, q);
        }
    }
    mark
}

} // verus!
