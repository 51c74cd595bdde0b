//! A compiled pattern, ready to be matched against lines.

use vstd::prelude::*;
use crate::automaton::Automaton;
use crate::cfg::regex_grammar;
use crate::compile::{nfa_from_reg, thompson};
use crate::driver::{
    anchored_spans, helper_spans, helper_spans_with_start, in_order, ints_of, mirror_spans,
    mirrored, selected, span_ok, spans_of,
};
use crate::earley_parse::{generates, Sym, Tree};
use crate::extract::{prefix_walk, rewire, suffix_walk};
use crate::helper::{
    all_in_alphabet, anchors_from, bad_chars, boyer_moore, full_shifts, good_suffixes,
    in_alphabet, is_bad_char_table, is_full_shift_table, is_good_suffix_table,
    lemma_anchors_sound, occurs_at, same_at,
};
use crate::nfa::NFA;
use crate::text::{chars_of, reversed, string_of};

verus! {

/// How the lines are searched: for the literal with which every match
/// begins, for the literal with which every match ends, or at every
/// place.
#[derive(Clone, Copy, Debug, PartialEq, Eq)]
pub enum Mode {
    Prefix,
    Suffix,
    Unanchored,
}

/// What a compiled pattern consists of: the mode, the literal that is
/// searched for, and the automaton that is run.
pub struct Plan {
    pub mode: Mode,
    pub literal: Seq<char>,
    pub automaton: Automaton,
}

/// The scanner can search for `w`: it is not empty, its characters are
/// of the scanner's alphabet, and its length fits the tables.
pub open spec fn searchable(w: Seq<char>) -> bool {
    0 < w.len() <= i32::MAX && all_in_alphabet(w)
}

/// The plan for an automaton: where its literal prefix is not empty, that
/// prefix is searched for and the automaton is rewired behind it; else
/// the literal suffix is tried in the same way; else the automaton is run
/// at every place. A literal for which the scanner cannot search is not
/// used.
pub open spec fn plan_for(a: Automaton) -> Plan {
    if a.literal_prefix().len() > 0 {
        if searchable(a.literal_prefix()) {
            Plan {
                mode: Mode::Prefix,
                literal: a.literal_prefix(),
                automaton: a.rewired(a.prefix_frontier()),
            }
        } else {
            Plan { mode: Mode::Unanchored, literal: Seq::empty(), automaton: a }
        }
    } else if searchable(a.literal_suffix()) {
        Plan {
            mode: Mode::Suffix,
            literal: a.literal_suffix(),
            automaton: a.reversed().rewired(a.suffix_frontier()),
        }
    } else {
        Plan { mode: Mode::Unanchored, literal: Seq::empty(), automaton: a }
    }
}

/// For every place of the line the end of the match credited to it, or
/// 0.
pub open spec fn all_ends(a: Automaton, line: Seq<char>) -> Seq<int> {
    Seq::new(line.len(), |o: int| a.match_end(line, o))
}

/// The matches found by searching `line` for the literal and running the
/// automaton behind every occurrence.
pub open spec fn forward_spans(a: Automaton, literal: Seq<char>, line: Seq<char>) -> Seq<
    (int, int),
> {
    let starts = anchors_from(literal, line, 0);
    anchored_spans(
        starts,
        a.anchored(line, starts, literal.len() as int, 0, 0),
        literal.len() as int,
        0,
    )
}

/// What the scanner searches for: the literal prefix in the line, or the
/// literal suffix, read backwards, in the line read backwards.
pub open spec fn needle_of(mode: Mode, literal: Seq<char>) -> Seq<char> {
    if mode == Mode::Suffix {
        literal.reverse()
    } else {
        literal
    }
}

/// The matches that a plan reports in a line, from left to right. Where
/// the literal is a suffix, the line is read backwards: the literal, read
/// backwards too, is searched for in it, the automaton, which is turned
/// round, is run behind every occurrence, and the matches found are put
/// back where they stand in the line.
pub open spec fn plan_spans(p: Plan, line: Seq<char>) -> Seq<(int, int)> {
    match p.mode {
        Mode::Unanchored => selected(all_ends(p.automaton, line), 0, 0),
        Mode::Prefix => forward_spans(p.automaton, p.literal, line),
        Mode::Suffix => mirrored(
            forward_spans(p.automaton, p.literal.reverse(), line.reverse()),
            line.len() as int,
        ),
    }
}

/// An end credited to a place lies behind it, and within what was read.
pub proof fn lemma_match_end_range(a: Automaton, line: Seq<char>, o: int, e: int)
    requires
        e <= line.len(),
    ensures
        a.match_end_upto(line, o, e) == 0 || (o < a.match_end_upto(line, o, e) <= e),
    decreases e,
{
    if e > 0 && !a.ends_at(line, o, e) {
        lemma_match_end_range(a, line, o, e - 1);
    }
}

/// The matches selected from ends that lie behind their places are in
/// order, and none begins before `k` or before `mark`.
pub proof fn lemma_selected_in_order(ends: Seq<int>, k: int, mark: int)
    requires
        0 <= k,
        forall|o: int| 0 <= o < ends.len() ==> (#[trigger] ends[o]) == 0 || o < ends[o],
    ensures
        in_order(selected(ends, k, mark)),
        forall|x: int|
            0 <= x < selected(ends, k, mark).len() ==> (#[trigger] selected(ends, k, mark)[x]).0
                >= k && selected(ends, k, mark)[x].0 >= mark,
    decreases ends.len() - k,
{
    if k >= ends.len() {
        assert(selected(ends, k, mark).len() == 0);
    } else if ends[k] != 0 && k >= mark {
        let rest = selected(ends, k + 1, ends[k]);
        let all = selected(ends, k, mark);
        lemma_selected_in_order(ends, k + 1, ends[k]);
        assert(all =~= seq![(k, ends[k])] + rest);
        assert forall|x: int| 0 <= x < all.len() implies span_ok(#[trigger] all[x]) && all[x].0
            >= k && all[x].0 >= mark by {
            if x > 0 {
                assert(all[x] == rest[x - 1]);
            }
        }
        assert forall|x: int, y: int| 0 <= x < y < all.len() implies (#[trigger] all[x]).1 <= (
        #[trigger] all[y]).0 by {
            assert(all[y] == rest[y - 1]);
            if x > 0 {
                assert(all[x] == rest[x - 1]);
            }
        }
    } else {
        lemma_selected_in_order(ends, k + 1, mark);
        assert(selected(ends, k, mark) == selected(ends, k + 1, mark));
    }
}

/// The longest match from a place ends at or behind it, and within what
/// was read.
pub proof fn lemma_longest_range(a: Automaton, line: Seq<char>, from: int, e: int)
    requires
        from <= e,
    ensures
        a.longest_upto(line, from, e) matches Some(x) ==> from <= x <= e,
    decreases e - from,
{
    if e > from && !(e <= line.len() && a.hits_accept(a.reach(line, from, e))) {
        lemma_longest_range(a, line, from, e - 1);
    }
}

/// There is one entry for every anchor.
pub proof fn lemma_anchored_len(
    a: Automaton,
    line: Seq<char>,
    starts: Seq<int>,
    plen: int,
    k: int,
    mark: int,
)
    requires
        0 <= k <= starts.len(),
    ensures
        a.anchored(line, starts, plen, k, mark).len() == starts.len() - k,
    decreases starts.len() - k,
{
    if k < starts.len() {
        if starts[k] - plen < mark {
            lemma_anchored_len(a, line, starts, plen, k + 1, mark);
        } else {
            match a.longest_match(line, starts[k]) {
                Some(e) => {
                    lemma_anchored_len(a, line, starts, plen, k + 1, e);
                },
                None => {
                    lemma_anchored_len(a, line, starts, plen, k + 1, mark);
                },
            }
        }
    }
}

/// The matches reported for the anchors are in order, none begins before
/// `mark`, and none ends behind the line.
pub proof fn lemma_anchored_in_order(
    a: Automaton,
    line: Seq<char>,
    starts: Seq<int>,
    outs: Seq<int>,
    plen: int,
    k: int,
    mark: int,
)
    requires
        0 <= k <= starts.len(),
        0 < plen,
        0 <= mark,
        outs.len() == starts.len(),
        forall|j: int| 0 <= j < starts.len() ==> plen <= (#[trigger] starts[j]) <= line.len(),
        forall|j: int|
            k <= j < starts.len() ==> (#[trigger] outs[j]) == a.anchored(
                line,
                starts,
                plen,
                k,
                mark,
            )[j - k],
    ensures
        in_order(anchored_spans(starts, outs, plen, k)),
        forall|x: int|
            0 <= x < anchored_spans(starts, outs, plen, k).len() ==> (#[trigger] anchored_spans(
                starts,
                outs,
                plen,
                k,
            )[x]).0 >= mark && anchored_spans(starts, outs, plen, k)[x].1 <= line.len(),
    decreases starts.len() - k,
{
    let all = anchored_spans(starts, outs, plen, k);
    if k >= starts.len() {
        assert(all.len() == 0);
    } else {
        let here = a.anchored(line, starts, plen, k, mark);
        lemma_anchored_len(a, line, starts, plen, k, mark);
        assert(outs[k] == here[0]);
        lemma_longest_range(a, line, starts[k], line.len() as int);
        let next_mark = if starts[k] - plen < mark {
            mark
        } else {
            match a.longest_match(line, starts[k]) {
                Some(e) => e,
                None => mark,
            }
        };
        let tail = a.anchored(line, starts, plen, k + 1, next_mark);
        assert(here =~= seq![here[0]] + tail);
        assert forall|j: int| k + 1 <= j < starts.len() implies (#[trigger] outs[j]) == tail[j
            - (k + 1)] by {
            assert(outs[j] == here[j - k]);
        }
        lemma_anchored_in_order(a, line, starts, outs, plen, k + 1, next_mark);
        let rest = anchored_spans(starts, outs, plen, k + 1);
        if outs[k] != 0 {
            assert(all =~= seq![(starts[k] - plen, outs[k])] + rest);
            assert forall|x: int| 0 <= x < all.len() implies span_ok(#[trigger] all[x])
                && all[x].0 >= mark && all[x].1 <= line.len() by {
                if x > 0 {
                    assert(all[x] == rest[x - 1]);
                }
            }
            assert forall|x: int, y: int| 0 <= x < y < all.len() implies (#[trigger] all[x]).1
                <= (#[trigger] all[y]).0 by {
                assert(all[y] == rest[y - 1]);
                if x > 0 {
                    assert(all[x] == rest[x - 1]);
                }
            }
        } else {
            assert(all == rest);
        }
    }
}

/// Spans in order stay in order when the line is turned round.
pub proof fn lemma_mirrored_in_order(spans: Seq<(int, int)>, n: int)
    requires
        in_order(spans),
        forall|x: int| 0 <= x < spans.len() ==> (#[trigger] spans[x]).1 <= n,
    ensures
        in_order(mirrored(spans, n)),
{
    let m = mirrored(spans, n);
    assert forall|k: int| 0 <= k < m.len() implies span_ok(#[trigger] m[k]) by {
        assert(span_ok(spans[spans.len() - 1 - k]));
    }
    assert forall|x: int, y: int| 0 <= x < y < m.len() implies (#[trigger] m[x]).1 <= (
    #[trigger] m[y]).0 by {
        let i = spans.len() - 1 - y;
        let j = spans.len() - 1 - x;
        assert(spans[i].1 <= spans[j].0);
    }
}

/// The matches that a plan reports are in order: each begins behind the
/// one before it and not before that one's end.
pub proof fn lemma_plan_spans_in_order(p: Plan, line: Seq<char>)
    requires
        p.mode != Mode::Unanchored ==> p.literal.len() > 0,
    ensures
        in_order(plan_spans(p, line)),
{
    match p.mode {
        Mode::Unanchored => {
            let ends = all_ends(p.automaton, line);
            assert forall|o: int| 0 <= o < ends.len() implies (#[trigger] ends[o]) == 0 || o
                < ends[o] by {
                lemma_match_end_range(p.automaton, line, o, line.len() as int);
            }
            lemma_selected_in_order(ends, 0, 0);
        },
        Mode::Prefix => {
            lemma_forward_in_order(p.automaton, p.literal, line);
        },
        Mode::Suffix => {
            lemma_forward_in_order(p.automaton, p.literal.reverse(), line.reverse());
            lemma_mirrored_in_order(
                forward_spans(p.automaton, p.literal.reverse(), line.reverse()),
                line.len() as int,
            );
        },
    }
}

/// The matches found behind the occurrences of the literal are in order,
/// and none ends behind the line.
pub proof fn lemma_forward_in_order(a: Automaton, literal: Seq<char>, line: Seq<char>)
    requires
        literal.len() > 0,
    ensures
        in_order(forward_spans(a, literal, line)),
        forall|x: int|
            0 <= x < forward_spans(a, literal, line).len() ==> (#[trigger] forward_spans(
                a,
                literal,
                line,
            )[x]).1 <= line.len(),
{
    let starts = anchors_from(literal, line, 0);
    let plen = literal.len() as int;
    let outs = a.anchored(line, starts, plen, 0, 0);
    lemma_anchors_sound(literal, line, 0);
    lemma_anchored_len(a, line, starts, plen, 0, 0);
    lemma_anchored_in_order(a, line, starts, outs, plen, 0, 0);
}

/// What the longest match from a place reports is a match: the automaton
/// accepts the line from the place to the end reported.
pub proof fn lemma_longest_is_match(a: Automaton, line: Seq<char>, from: int, e: int)
    requires
        0 <= from <= e,
        from <= line.len(),
    ensures
        a.longest_upto(line, from, e) matches Some(x) ==> from <= x <= line.len()
            && a.accepts_word(line.subrange(from, x)),
    decreases e - from,
{
    if e <= from {
        a.lemma_reach_none(line, from);
        if a.accepts.contains(a.start) {
            assert(a.reach(line, from, from).contains(a.start));
        }
    } else if e <= line.len() && a.hits_accept(a.reach(line, from, e)) {
    } else {
        lemma_longest_is_match(a, line, from, e - 1);
    }
}

/// Where the automaton accepts the line from a place to `y`, the longest
/// match from the place is reported, and it ends at `y` or behind it.
pub proof fn lemma_longest_is_longest(a: Automaton, line: Seq<char>, from: int, e: int, y: int)
    requires
        0 <= from <= y <= e <= line.len(),
        a.accepts_word(line.subrange(from, y)),
    ensures
        a.longest_upto(line, from, e) matches Some(x) && y <= x,
    decreases e - from,
{
    if e <= from {
        a.lemma_reach_none(line, from);
        let q = choose|q: int| a.reach(line, from, y).contains(q) && a.accepts.contains(q);
    } else if e <= line.len() && a.hits_accept(a.reach(line, from, e)) {
    } else {
        assert(y < e);
        lemma_longest_is_longest(a, line, from, e - 1, y);
    }
}

/// Every match reported for the anchors is the longest match of the
/// automaton from one of them.
pub proof fn lemma_anchored_are_longest(
    a: Automaton,
    line: Seq<char>,
    starts: Seq<int>,
    outs: Seq<int>,
    plen: int,
    k: int,
    mark: int,
)
    requires
        0 <= k <= starts.len(),
        0 < plen,
        outs.len() == starts.len(),
        forall|j: int| 0 <= j < starts.len() ==> plen <= (#[trigger] starts[j]) <= line.len(),
        forall|j: int|
            k <= j < starts.len() ==> (#[trigger] outs[j]) == a.anchored(
                line,
                starts,
                plen,
                k,
                mark,
            )[j - k],
    ensures
        forall|x: int|
            0 <= x < anchored_spans(starts, outs, plen, k).len() ==> exists|j: int|
                0 <= j < starts.len() && (#[trigger] anchored_spans(starts, outs, plen, k)[x]).0
                    == #[trigger] starts[j] - plen && a.longest_match(line, starts[j]) == Some(
                    anchored_spans(starts, outs, plen, k)[x].1,
                ),
    decreases starts.len() - k,
{
    let all = anchored_spans(starts, outs, plen, k);
    if k < starts.len() {
        let here = a.anchored(line, starts, plen, k, mark);
        lemma_anchored_len(a, line, starts, plen, k, mark);
        assert(outs[k] == here[0]);
        lemma_longest_range(a, line, starts[k], line.len() as int);
        let next_mark = if starts[k] - plen < mark {
            mark
        } else {
            match a.longest_match(line, starts[k]) {
                Some(e) => e,
                None => mark,
            }
        };
        let tail = a.anchored(line, starts, plen, k + 1, next_mark);
        assert(here =~= seq![here[0]] + tail);
        assert forall|j: int| k + 1 <= j < starts.len() implies (#[trigger] outs[j]) == tail[j
            - (k + 1)] by {
            assert(outs[j] == here[j - k]);
        }
        lemma_anchored_are_longest(a, line, starts, outs, plen, k + 1, next_mark);
        let rest = anchored_spans(starts, outs, plen, k + 1);
        if outs[k] != 0 {
            assert(all =~= seq![(starts[k] - plen, outs[k])] + rest);
            assert forall|x: int| 0 <= x < all.len() implies exists|j: int|
                0 <= j < starts.len() && (#[trigger] all[x]).0 == #[trigger] starts[j] - plen
                    && a.longest_match(line, starts[j]) == Some(all[x].1) by {
                if x > 0 {
                    assert(all[x] == rest[x - 1]);
                    let j = choose|j: int|
                        0 <= j < starts.len() && rest[x - 1].0 == #[trigger] starts[j] - plen
                            && a.longest_match(line, starts[j]) == Some(rest[x - 1].1);
                    assert(all[x].0 == starts[j] - plen);
                } else {
                    assert(all[0].0 == starts[k] - plen);
                }
            }
        } else {
            assert(all == rest);
        }
    }
}

/// Where the literal prefix of an automaton without epsilon edges is
/// searched for, every match reported is a word that the automaton
/// accepts.
pub proof fn lemma_prefix_spans_match(a: Automaton, line: Seq<char>, x: int)
    requires
        a.sound(),
        a.eps_free(),
        a.literal_prefix().len() > 0,
        0 <= x < forward_spans(a.rewired(a.prefix_frontier()), a.literal_prefix(), line).len(),
    ensures
        ({
            let span = forward_spans(a.rewired(a.prefix_frontier()), a.literal_prefix(), line)[x];
            0 <= span.0 <= span.1 <= line.len() && a.accepts_word(line.subrange(span.0, span.1))
        }),
{
    let lit = a.literal_prefix();
    let b = a.rewired(a.prefix_frontier());
    let plen = lit.len() as int;
    let starts = anchors_from(lit, line, 0);
    let outs = b.anchored(line, starts, plen, 0, 0);
    lemma_anchors_sound(lit, line, 0);
    lemma_anchored_len(b, line, starts, plen, 0, 0);
    lemma_anchored_are_longest(b, line, starts, outs, plen, 0, 0);
    let spans = anchored_spans(starts, outs, plen, 0);
    let span = spans[x];
    let j = choose|j: int|
        0 <= j < starts.len() && span.0 == #[trigger] starts[j] - plen && b.longest_match(
            line,
            starts[j],
        ) == Some(span.1);
    lemma_longest_is_match(b, line, starts[j], line.len() as int);
    let tail = line.subrange(starts[j], span.1);
    a.lemma_prefix_rewired(tail);
    assert(occurs_at(lit, line, starts[j] - plen));
    assert(lit + tail =~= line.subrange(span.0, span.1)) by {
        assert forall|y: int| 0 <= y < plen implies line[span.0 + y] == lit[y] by {
            assert(same_at(lit, line, starts[j] - plen, y));
        }
    }
}

/// Where the literal prefix of an automaton without epsilon edges is
/// searched for, a match reported is the longest word from its place
/// that the automaton accepts.
pub proof fn lemma_prefix_spans_longest(a: Automaton, line: Seq<char>, x: int, y: int)
    requires
        a.sound(),
        a.eps_free(),
        a.literal_prefix().len() > 0,
        0 <= x < forward_spans(a.rewired(a.prefix_frontier()), a.literal_prefix(), line).len(),
        forward_spans(a.rewired(a.prefix_frontier()), a.literal_prefix(), line)[x].0 <= y
            <= line.len(),
        a.accepts_word(
            line.subrange(
                forward_spans(a.rewired(a.prefix_frontier()), a.literal_prefix(), line)[x].0,
                y,
            ),
        ),
    ensures
        y <= forward_spans(a.rewired(a.prefix_frontier()), a.literal_prefix(), line)[x].1,
{
    let lit = a.literal_prefix();
    let b = a.rewired(a.prefix_frontier());
    let plen = lit.len() as int;
    let starts = anchors_from(lit, line, 0);
    let outs = b.anchored(line, starts, plen, 0, 0);
    lemma_anchors_sound(lit, line, 0);
    lemma_anchored_len(b, line, starts, plen, 0, 0);
    lemma_anchored_are_longest(b, line, starts, outs, plen, 0, 0);
    let spans = anchored_spans(starts, outs, plen, 0);
    let span = spans[x];
    let j = choose|j: int|
        0 <= j < starts.len() && span.0 == #[trigger] starts[j] - plen && b.longest_match(
            line,
            starts[j],
        ) == Some(span.1);
    let word = line.subrange(span.0, y);
    // Every accepted word begins with the literal, so `y` lies behind the
    // anchor, and what follows the literal is accepted behind the rewiring.
    a.lemma_literal_prefix(word);
    assert(y >= starts[j]);
    let tail = line.subrange(starts[j], y);
    assert(occurs_at(lit, line, starts[j] - plen));
    assert(lit + tail =~= word) by {
        assert forall|z: int| 0 <= z < plen implies line[span.0 + z] == lit[z] by {
            assert(same_at(lit, line, starts[j] - plen, z));
        }
    }
    a.lemma_prefix_rewired(tail);
    lemma_longest_is_longest(b, line, starts[j], line.len() as int, y);
}

/// Where the literal suffix of an automaton without epsilon edges is
/// searched for, every match reported is a word that the automaton
/// accepts.
pub proof fn lemma_suffix_spans_match(a: Automaton, line: Seq<char>, x: int)
    requires
        a.sound(),
        a.eps_free(),
        a.literal_suffix().len() > 0,
        0 <= x < mirrored(
            forward_spans(
                a.reversed().rewired(a.suffix_frontier()),
                a.literal_suffix().reverse(),
                line.reverse(),
            ),
            line.len() as int,
        ).len(),
    ensures
        ({
            let span = mirrored(
                forward_spans(
                    a.reversed().rewired(a.suffix_frontier()),
                    a.literal_suffix().reverse(),
                    line.reverse(),
                ),
                line.len() as int,
            )[x];
            0 <= span.0 <= span.1 <= line.len() && a.accepts_word(line.subrange(span.0, span.1))
        }),
{
    let lit = a.literal_suffix();
    let nd = lit.reverse();
    let rl = line.reverse();
    let n = line.len() as int;
    let b = a.reversed().rewired(a.suffix_frontier());
    let plen = nd.len() as int;
    let starts = anchors_from(nd, rl, 0);
    let outs = b.anchored(rl, starts, plen, 0, 0);
    lemma_anchors_sound(nd, rl, 0);
    lemma_anchored_len(b, rl, starts, plen, 0, 0);
    lemma_anchored_are_longest(b, rl, starts, outs, plen, 0, 0);
    let spans = anchored_spans(starts, outs, plen, 0);
    let back = spans[spans.len() - 1 - x];
    let j = choose|j: int|
        0 <= j < starts.len() && back.0 == #[trigger] starts[j] - plen && b.longest_match(
            rl,
            starts[j],
        ) == Some(back.1);
    lemma_longest_is_match(b, rl, starts[j], n);
    let tail = rl.subrange(starts[j], back.1);
    a.lemma_suffix_rewired(tail);
    assert(occurs_at(nd, rl, starts[j] - plen));
    let word = line.subrange(n - back.1, n - back.0);
    assert(tail.reverse() + lit =~= word) by {
        assert forall|i: int| 0 <= i < word.len() implies word[i] == (tail.reverse() + lit)[i] by {
            assert(word[i] == line[n - back.1 + i]);
            assert(rl[n - 1 - (n - back.1 + i)] == line[n - back.1 + i]);
            if i < tail.len() {
                assert(tail.reverse()[i] == tail[tail.len() - 1 - i]);
            } else {
                let z = i - tail.len();
                assert(same_at(nd, rl, starts[j] - plen, plen - 1 - z));
                assert(nd[plen - 1 - z] == lit[z]);
            }
        }
    }
}

/// Where the automaton is run at every place and its start state does
/// not accept, every match reported is a word that the automaton
/// accepts.
pub proof fn lemma_unanchored_spans_match(a: Automaton, line: Seq<char>, o: int)
    requires
        !a.accepts.contains(a.start),
        0 <= o < line.len(),
        a.match_end(line, o) != 0,
    ensures
        o < a.match_end(line, o) <= line.len(),
        a.accepts_word(line.subrange(o, a.match_end(line, o))),
{
    lemma_match_end_credited(a, line, o, line.len() as int);
    lemma_match_end_range(a, line, o, line.len() as int);
}

/// An end that is credited to a place is one at which a match from the
/// place ends.
pub proof fn lemma_match_end_credited(a: Automaton, line: Seq<char>, o: int, e: int)
    requires
        e <= line.len(),
    ensures
        a.match_end_upto(line, o, e) != 0 ==> a.ends_at(line, o, a.match_end_upto(line, o, e)),
    decreases e,
{
    if e > 0 && !a.ends_at(line, o, e) {
        lemma_match_end_credited(a, line, o, e - 1);
    }
}

/// A pattern compiled for matching.
pub struct Matcher {
    nfa: NFA,
    mode: Mode,
    literal: Vec<char>,
    needle: Vec<char>,
    bad: Vec<Vec<i32>>,
    good: Vec<i32>,
    full: Vec<i32>,
}

impl View for Matcher {
    type V = Plan;

    closed spec fn view(&self) -> Plan {
        Plan { mode: self.mode, literal: self.literal@, automaton: self.nfa@ }
    }
}

/// Whether the scanner can search for `w`.
pub fn is_searchable(w: &Vec<char>) -> (b: bool)
    ensures
        b == searchable(w@),
{
    if w.len() == 0 || w.len() > 0x7fff_ffff {
        return false;
    }
    is_in_alphabet(w)
}

/// Whether every character of `w` is one of the scanner's alphabet.
pub fn is_in_alphabet(w: &Vec<char>) -> (b: bool)
    ensures
        b == all_in_alphabet(w@),
{
    let mut i: usize = 0;
    while i < w.len()
        invariant
            i <= w@.len(),
            forall|k: int| 0 <= k < i ==> in_alphabet(#[trigger] w@[k]),
        decreases w@.len() - i,
    {
        let c = w[i];
        if !(c == '\t' || (' ' <= c && c <= '~')) {
            return false;
        }
        i += 1;
    }
    true
}

impl Matcher {
    /// The representation is consistent: the automaton is, and where a
    /// literal is searched for, the three tables are those of what the
    /// scanner searches for.
    pub closed spec fn wf(&self) -> bool {
        &&& self.nfa.wf()
        &&& self.needle@ == needle_of(self.mode, self.literal@)
        &&& (self.mode != Mode::Unanchored ==> {
            &&& 0 < self.needle@.len() <= i32::MAX
            &&& is_bad_char_table(self.needle@, self.bad@)
            &&& is_good_suffix_table(self.needle@, self.good@)
            &&& is_full_shift_table(self.needle@, self.full@)
        })
    }

    /// Compiles `regex`: parses it, builds, closes and prunes its
    /// automaton, and extracts the literal to search for. Returns `None`
    /// where `regex` is no pattern of the grammar.
    pub fn new(regex: &str) -> (r: Option<Matcher>)
        ensures
            r is Some <==> generates(regex_grammar(), regex@),
            r matches Some(m) ==> m.wf() && m@.automaton.compiled() && exists|t: Tree|
                t.derives(regex_grammar()) && t.root() == Sym::N("RE"@) && t.fringe() == regex@
                    && m@ == plan_for(thompson(#[trigger] t.collapsed()).eps_closed().pruned()),
    {
        let mut nfa = match nfa_from_reg(regex) {
            Some(nfa) => nfa,
            None => {
                return None;
            },
        };
        let ghost a = nfa@;
        proof {
            a.lemma_walk_end_states(set![a.start], a.size);
            a.lemma_rewired_compiled(a.prefix_frontier());
            a.lemma_reversed_sound();
            a.reversed().lemma_walk_end_states(a.accepts, a.size);
            a.reversed().lemma_rewired_compiled(a.suffix_frontier());
        }
        let (prefix, end) = prefix_walk(&nfa);
        if prefix.len() > 0 {
            if is_searchable(&prefix) {
                rewire(&mut nfa, &end);
                let bad = bad_chars(&prefix);
                let good = good_suffixes(&prefix);
                let full = full_shifts(&prefix);
                let needle = prefix.clone();
                return Some(
                    Matcher { nfa, mode: Mode::Prefix, literal: prefix, needle, bad, good, full },
                );
            }
        } else {
            let (rev, suffix, end) = suffix_walk(&nfa);
            if is_searchable(&suffix) {
                let mut turned = rev;
                rewire(&mut turned, &end);
                let needle = reversed(&suffix);
                proof {
                    assert forall|i: int| 0 <= i < needle@.len() implies in_alphabet(
                        #[trigger] needle@[i],
                    ) by {
                        assert(needle@[i] == suffix@[suffix@.len() - 1 - i]);
                    }
                }
                let bad = bad_chars(&needle);
                let good = good_suffixes(&needle);
                let full = full_shifts(&needle);
                return Some(
                    Matcher {
                        nfa: turned,
                        mode: Mode::Suffix,
                        literal: suffix,
                        needle,
                        bad,
                        good,
                        full,
                    },
                );
            }
        }
        Some(
            Matcher {
                nfa,
                mode: Mode::Unanchored,
                literal: Vec::new(),
                needle: Vec::new(),
                bad: Vec::new(),
                good: Vec::new(),
                full: Vec::new(),
            },
        )
    }

    /// How the lines are searched.
    pub fn mode(&self) -> (m: Mode)
        ensures
            m == self@.mode,
    {
        self.mode
    }

    /// The literal with which every match begins, or ends; empty where
    /// none is used.
    pub fn literal(&self) -> (s: String)
        ensures
            s@ == self@.literal,
    {
        string_of(&self.literal)
    }

    /// The matches in `line`, from left to right, each by the places of
    /// its first character and behind its last. Where a literal is
    /// searched for and the line holds a character that is not of the
    /// scanner's alphabet, the line is refused with `None`.
    pub fn find_in_line(&self, line: &str) -> (r: Option<Vec<(usize, usize)>>)
        requires
            self.wf(),
        ensures
            r is None <==> self@.mode != Mode::Unanchored && !all_in_alphabet(line@),
            r matches Some(spans) ==> spans_of(spans@) == plan_spans(self@, line@) && in_order(
                spans_of(spans@),
            ),
    {
        let chars = chars_of(line);
        proof {
            lemma_plan_spans_in_order(self@, line@);
        }
        match self.mode {
            Mode::Unanchored => {
                let ends = self.nfa.all_matches(&chars);
                proof {
                    assert(ints_of(ends@) =~= all_ends(self.nfa@, line@));
                }
                Some(helper_spans(&ends))
            },
            Mode::Prefix => {
                if !is_in_alphabet(&chars) {
                    return None;
                }
                Some(self.forward(&chars))
            },
            Mode::Suffix => {
                if !is_in_alphabet(&chars) {
                    return None;
                }
                let turned = reversed(&chars);
                proof {
                    assert forall|i: int| 0 <= i < turned@.len() implies in_alphabet(
                        #[trigger] turned@[i],
                    ) by {
                        assert(turned@[i] == chars@[chars@.len() - 1 - i]);
                    }
                    lemma_forward_in_order(self.nfa@, self.needle@, turned@);
                }
                let spans = self.forward(&turned);
                proof {
                    assert forall|k: int| 0 <= k < spans@.len() implies (#[trigger] spans@[k]).0
                        <= spans@[k].1 <= chars@.len() by {
                        assert(span_ok(spans_of(spans@)[k]));
                        assert(spans_of(spans@)[k].1 <= turned@.len());
                    }
                }
                Some(mirror_spans(&spans, chars.len()))
            },
        }
    }

    /// Searches `line` for the needle and runs the automaton behind
    /// every occurrence.
    fn forward(&self, line: &Vec<char>) -> (spans: Vec<(usize, usize)>)
        requires
            self.wf(),
            self.mode != Mode::Unanchored,
            all_in_alphabet(line@),
        ensures
            spans_of(spans@) == forward_spans(self.nfa@, self.needle@, line@),
    {
        let plen = self.needle.len();
        let starts = boyer_moore(&self.needle, line, &self.bad, &self.good, &self.full);
        proof {
            lemma_anchors_sound(self.needle@, line@, 0);
            assert forall|k: int| 0 <= k < starts@.len() implies (#[trigger] starts@[k])
                >= plen by {
                assert(ints_of(starts@)[k] == starts@[k]);
            }
            lemma_anchored_len(self.nfa@, line@, ints_of(starts@), plen as int, 0, 0);
        }
        let outs = self.nfa.anchored_matches(&starts, line, plen);
        assert(outs@.len() == ints_of(outs@).len());
        helper_spans_with_start(&starts, &outs, plen)
    }
}

} // verus!
