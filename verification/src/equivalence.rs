//! Where the search for the literal prefix and the search at every place
//! report the same matches.

use vstd::prelude::*;
use crate::automaton::Automaton;
use crate::driver::{anchored_spans, selected};
use crate::helper::{anchors_from, occurs_at, same_at};
use crate::matcher::{
    all_ends, forward_spans, lemma_anchored_len, lemma_longest_range, lemma_match_end_range,
};

verus! {

/// No accepting state is reached at one place by reading from two
/// different places: every match has its end credited to the place where
/// it begins.
pub open spec fn credits_unshared(a: Automaton, line: Seq<char>) -> bool {
    forall|p: int, o: int, e: int, q: int|
        0 <= p < o <= e <= line.len() && a.accepts.contains(q) && #[trigger] a.reach(
            line,
            p,
            e,
        ).contains(q) ==> !(#[trigger] a.reach(line, o, e).contains(q))
}

/// The end that is reported, or 0 where none is.
pub open spec fn end_or_zero(x: Option<int>) -> int {
    match x {
        Some(e) => e,
        None => 0,
    }
}

/// The matches that following up every occurrence of the literal from
/// place `k` on gives: an occurrence is passed over where it begins
/// before `mark`, the end of the last match reported, or where the
/// automaton finds nothing behind it.
pub open spec fn followed_up(
    b: Automaton,
    lit: Seq<char>,
    line: Seq<char>,
    k: int,
    mark: int,
) -> Seq<(int, int)>
    decreases line.len() - k,
{
    if lit.len() == 0 || k < 0 || k + lit.len() > line.len() {
        Seq::empty()
    } else if occurs_at(lit, line, k) && k >= mark && b.longest_match(line, k + lit.len()) is Some {
        seq![(k, b.longest_match(line, k + lit.len())->0)] + followed_up(
            b,
            lit,
            line,
            k + 1,
            b.longest_match(line, k + lit.len())->0,
        )
    } else {
        followed_up(b, lit, line, k + 1, mark)
    }
}

/// The entries for the anchors behind the first are those for the list
/// without the first.
proof fn lemma_anchored_tail(
    b: Automaton,
    line: Seq<char>,
    head: int,
    rest: Seq<int>,
    plen: int,
    i: int,
    mark: int,
)
    requires
        0 <= i <= rest.len(),
    ensures
        b.anchored(line, seq![head] + rest, plen, i + 1, mark) == b.anchored(
            line,
            rest,
            plen,
            i,
            mark,
        ),
    decreases rest.len() - i,
{
    let all = seq![head] + rest;
    if i < rest.len() {
        assert(all[i + 1] == rest[i]);
        if rest[i] - plen < mark {
            lemma_anchored_tail(b, line, head, rest, plen, i + 1, mark);
        } else {
            match b.longest_match(line, rest[i]) {
                Some(e) => {
                    lemma_anchored_tail(b, line, head, rest, plen, i + 1, e);
                },
                None => {
                    lemma_anchored_tail(b, line, head, rest, plen, i + 1, mark);
                },
            }
        }
    }
}

/// The spans for the anchors behind the first are those for the lists
/// without their first entries.
proof fn lemma_spans_tail(
    head: int,
    rest: Seq<int>,
    out: int,
    outs: Seq<int>,
    plen: int,
    i: int,
)
    requires
        0 <= i,
        rest.len() == outs.len(),
    ensures
        anchored_spans(seq![head] + rest, seq![out] + outs, plen, i + 1) == anchored_spans(
            rest,
            outs,
            plen,
            i,
        ),
    decreases rest.len() - i,
{
    let starts = seq![head] + rest;
    let all = seq![out] + outs;
    if i < rest.len() {
        assert(starts[i + 1] == rest[i]);
        assert(all[i + 1] == outs[i]);
        lemma_spans_tail(head, rest, out, outs, plen, i + 1);
    }
}

/// Searching for the literal and running the automaton behind its
/// occurrences is following up every occurrence, place by place.
pub proof fn lemma_forward_is_followed_up(
    b: Automaton,
    lit: Seq<char>,
    line: Seq<char>,
    k: int,
    mark: int,
)
    requires
        0 <= k,
        0 <= mark,
        lit.len() > 0,
    ensures
        anchored_spans(
            anchors_from(lit, line, k),
            b.anchored(line, anchors_from(lit, line, k), lit.len() as int, 0, mark),
            lit.len() as int,
            0,
        ) == followed_up(b, lit, line, k, mark),
    decreases line.len() - k,
{
    let m = lit.len() as int;
    let starts = anchors_from(lit, line, k);
    let outs = b.anchored(line, starts, m, 0, mark);
    if k + m > line.len() {
        assert(starts.len() == 0);
    } else if occurs_at(lit, line, k) {
        let rest = anchors_from(lit, line, k + 1);
        assert(starts =~= seq![k + m] + rest);
        lemma_longest_range(b, line, k + m, line.len() as int);
        let found = k >= mark && b.longest_match(line, k + m) is Some;
        let next_mark = if found {
            b.longest_match(line, k + m)->0
        } else {
            mark
        };
        let out = if found {
            next_mark
        } else {
            0
        };
        let tail = b.anchored(line, rest, m, 0, next_mark);
        lemma_anchored_tail(b, line, k + m, rest, m, 0, next_mark);
        lemma_anchored_len(b, line, rest, m, 0, next_mark);
        assert(starts[0] == k + m);
        assert(outs =~= seq![out] + tail);
        lemma_spans_tail(k + m, rest, out, tail, m, 0);
        lemma_forward_is_followed_up(b, lit, line, k + 1, next_mark);
        assert(outs[0] == out);
    } else {
        lemma_forward_is_followed_up(b, lit, line, k + 1, mark);
    }
}

/// Where the ends are credited to the places where the matches begin
/// and the start state does not accept, the end credited to a place is
/// the end of the longest match from it.
pub proof fn lemma_credit_is_longest(a: Automaton, line: Seq<char>, o: int, e: int)
    requires
        credits_unshared(a, line),
        !a.accepts.contains(a.start),
        0 <= o,
        e <= line.len(),
    ensures
        a.match_end_upto(line, o, e) == end_or_zero(a.longest_upto(line, o, e)),
    decreases e,
{
    if e <= 0 {
    } else if e <= o {
        lemma_credit_is_longest(a, line, o, e - 1);
    } else {
        lemma_credit_is_longest(a, line, o, e - 1);
        if a.hits_accept(a.reach(line, o, e)) {
            let q = choose|q: int| a.reach(line, o, e).contains(q) && a.accepts.contains(q);
            assert forall|p: int| 0 <= p < o implies !a.reach(line, p, e).contains(q) by {
                if a.reach(line, p, e).contains(q) {
                    assert(!a.reach(line, o, e).contains(q));
                }
            }
            assert(a.first_reach(line, o, e, q));
            assert(a.ends_at(line, o, e));
        }
        if a.ends_at(line, o, e) {
            let q = choose|q: int| a.accepts.contains(q) && a.first_reach(line, o, e, q);
            assert(a.reach(line, o, e).contains(q));
        }
        if e - 1 <= o {
            assert(a.longest_upto(line, o, e - 1) is None);
        }
    }
}

/// The automaton accepts the line from `o` to `e` where the rewired one
/// accepts it from behind the literal to `e`, if the literal stands at
/// `o`; else it accepts nothing from `o`.
proof fn lemma_accepts_behind_literal(a: Automaton, line: Seq<char>, o: int, e: int)
    requires
        a.sound(),
        a.eps_free(),
        a.literal_prefix().len() > 0,
        0 <= o <= e <= line.len(),
    ensures
        a.hits_accept(a.reach(line, o, e)) <==> occurs_at(a.literal_prefix(), line, o) && o
            + a.literal_prefix().len() <= e && a.rewired(a.prefix_frontier()).hits_accept(
            a.rewired(a.prefix_frontier()).reach(line, o + a.literal_prefix().len(), e),
        ),
{
    let lit = a.literal_prefix();
    let m = lit.len() as int;
    let b = a.rewired(a.prefix_frontier());
    let word = line.subrange(o, e);
    if a.hits_accept(a.reach(line, o, e)) {
        a.lemma_literal_prefix(word);
        assert forall|x: int| 0 <= x < m implies #[trigger] same_at(lit, line, o, x) by {
            assert(word[x] == lit[x]);
        }
        let tail = line.subrange(o + m, e);
        assert(lit + tail =~= word);
        a.lemma_prefix_rewired(tail);
    }
    if occurs_at(lit, line, o) && o + m <= e && b.hits_accept(b.reach(line, o + m, e)) {
        let tail = line.subrange(o + m, e);
        assert(lit + tail =~= word) by {
            assert forall|x: int| 0 <= x < m implies line[o + x] == lit[x] by {
                assert(same_at(lit, line, o, x));
            }
        }
        a.lemma_prefix_rewired(tail);
    }
}

/// The longest match of the automaton from `o` is the longest match of
/// the rewired one from behind the literal, if the literal stands at `o`;
/// else there is none.
proof fn lemma_longest_behind_literal(a: Automaton, line: Seq<char>, o: int, e: int)
    requires
        a.sound(),
        a.eps_free(),
        a.literal_prefix().len() > 0,
        !a.accepts.contains(a.start),
        0 <= o,
        e <= line.len(),
    ensures
        a.longest_upto(line, o, e) == if occurs_at(a.literal_prefix(), line, o) && o
            + a.literal_prefix().len() <= e {
            a.rewired(a.prefix_frontier()).longest_upto(line, o + a.literal_prefix().len(), e)
        } else {
            None::<int>
        },
    decreases e - o,
{
    let lit = a.literal_prefix();
    let m = lit.len() as int;
    let b = a.rewired(a.prefix_frontier());
    if e > o {
        lemma_longest_behind_literal(a, line, o, e - 1);
        lemma_accepts_behind_literal(a, line, o, e);
        if occurs_at(lit, line, o) && o + m == e {
            b.lemma_reach_none(line, e);
            if b.accepts.contains(b.start) {
                assert(b.reach(line, e, e).contains(b.start));
            }
            if b.hits_accept(b.reach(line, e, e)) {
                let q = choose|q: int| b.reach(line, e, e).contains(q) && b.accepts.contains(q);
            }
        }
    }
}

/// Where the literal prefix of an automaton without epsilon edges is not
/// empty, and in the line every match has its end credited to the place
/// where it begins, the search at every place and the search for the
/// literal report the same matches.
pub proof fn lemma_same_matches(a: Automaton, line: Seq<char>, k: int, mark: int)
    requires
        a.sound(),
        a.eps_free(),
        a.literal_prefix().len() > 0,
        credits_unshared(a, line),
        0 <= k,
        0 <= mark,
    ensures
        selected(all_ends(a, line), k, mark) == followed_up(
            a.rewired(a.prefix_frontier()),
            a.literal_prefix(),
            line,
            k,
            mark,
        ),
        k == 0 && mark == 0 ==> selected(all_ends(a, line), 0, 0) == forward_spans(
            a.rewired(a.prefix_frontier()),
            a.literal_prefix(),
            line,
        ),
    decreases line.len() - k,
{
    let lit = a.literal_prefix();
    let m = lit.len() as int;
    let b = a.rewired(a.prefix_frontier());
    let ends = all_ends(a, line);
    let n = line.len() as int;
    // The walk took a step from the start state, which therefore does not
    // accept.
    assert(!a.accepts.contains(a.start)) by {
        let f = set![a.start];
        assert(a.can_extend(f));
        let c = choose|c: char| a.extends_by(f, c);
        assert(f.contains(a.start));
        assert(a.reads_only(a.start, c));
    }
    if k < n {
        lemma_same_matches(a, line, k + 1, mark);
        lemma_credit_is_longest(a, line, k, n);
        lemma_longest_behind_literal(a, line, k, n);
        if k + m <= n {
            lemma_longest_range(b, line, k + m, n);
        }
        assert(ends[k] == a.match_end(line, k));
        if ends[k] != 0 && k >= mark {
            lemma_same_matches(a, line, k + 1, ends[k]);
        }
        if k + m > n {
            assert(followed_up(b, lit, line, k + 1, mark) =~= Seq::<(int, int)>::empty());
        }
    }
    if k == 0 && mark == 0 {
        lemma_forward_is_followed_up(b, lit, line, 0, 0);
    }
}

} // verus!
