//! Matching a pattern against the lines of a text: which matches of a
//! line are reported, and where they stand.

use vstd::prelude::*;
use crate::automaton::Automaton;

verus! {

/// A match: the places of its first character and behind its last.
pub open spec fn span_ok(s: (int, int)) -> bool {
    0 <= s.0 < s.1
}

/// Every span is a proper one, begins behind the one before it, and does
/// not begin before that one's end.
pub open spec fn in_order(spans: Seq<(int, int)>) -> bool {
    &&& forall|k: int| 0 <= k < spans.len() ==> span_ok(#[trigger] spans[k])
    &&& forall|a: int, b: int|
        0 <= a < b < spans.len() ==> (#[trigger] spans[a]).1 <= (#[trigger] spans[b]).0
}

/// The matches that are reported from the ends found for every place of
/// a line, from place `k` on: a place is passed over where no match is
/// credited to it or where it lies before `mark`, the end of the last
/// match reported.
pub open spec fn selected(ends: Seq<int>, k: int, mark: int) -> Seq<(int, int)>
    decreases ends.len() - k,
{
    if k < 0 || k >= ends.len() {
        Seq::empty()
    } else if ends[k] != 0 && k >= mark {
        seq![(k, ends[k])] + selected(ends, k + 1, ends[k])
    } else {
        selected(ends, k + 1, mark)
    }
}

/// The matches that are reported for the anchors from `k` on: those for
/// which an end was found. A match begins `plen` before its anchor.
pub open spec fn anchored_spans(starts: Seq<int>, outs: Seq<int>, plen: int, k: int) -> Seq<
    (int, int),
>
    decreases starts.len() - k,
{
    if k < 0 || k >= starts.len() || k >= outs.len() {
        Seq::empty()
    } else if outs[k] != 0 {
        seq![(starts[k] - plen, outs[k])] + anchored_spans(starts, outs, plen, k + 1)
    } else {
        anchored_spans(starts, outs, plen, k + 1)
    }
}

/// The spans of a line of length `n` as they stand in the line read
/// backwards, in the opposite order.
pub open spec fn mirrored(spans: Seq<(int, int)>, n: int) -> Seq<(int, int)> {
    Seq::new(
        spans.len(),
        |k: int| (n - spans[spans.len() - 1 - k].1, n - spans[spans.len() - 1 - k].0),
    )
}

/// The numbers of `v` as integers.
pub open spec fn ints_of(v: Seq<usize>) -> Seq<int> {
    v.map_values(|x: usize| x as int)
}

/// The spans as values.
pub open spec fn spans_of(v: Seq<(usize, usize)>) -> Seq<(int, int)> {
    v.map_values(|s: (usize, usize)| (s.0 as int, s.1 as int))
}

/// The matches to report, from the ends that the search over the whole
/// line found: from left to right, none that begins inside the one
/// before it.
pub fn helper_spans(output_strs: &Vec<usize>) -> (spans: Vec<(usize, usize)>)
    ensures
        spans_of(spans@) == selected(ints_of(output_strs@), 0, 0),
{
    let mut spans: Vec<(usize, usize)> = Vec::new();
    let mut end_idx: usize = 0;
    let mut k: usize = 0;
    while k < output_strs.len()
        invariant
            k <= output_strs@.len(),
            spans_of(spans@) + selected(ints_of(output_strs@), k as int, end_idx as int)
                == selected(ints_of(output_strs@), 0, 0),
        decreases output_strs@.len() - k,
    {
        let e = output_strs[k];
        if e != 0 && k >= end_idx {
            let ghost before = spans_of(spans@);
            spans.push((k, e));
            proof {
                let rest = selected(ints_of(output_strs@), k + 1, e as int);
                assert(spans_of(spans@) =~= before.push((k as int, e as int)));
                assert(before.push((k as int, e as int)) + rest =~= before + (seq![
                    (k as int, e as int),
                ] + rest));
            }
            end_idx = e;
        }
        k += 1;
    }
    proof {
        assert(spans_of(spans@) + Seq::<(int, int)>::empty() =~= spans_of(spans@));
    }
    spans
}

/// The matches to report, from the anchors and the ends found for them.
pub fn helper_spans_with_start(
    start_positions: &Vec<usize>,
    output_strs: &Vec<usize>,
    prefix_len: usize,
) -> (spans: Vec<(usize, usize)>)
    requires
        start_positions@.len() == output_strs@.len(),
        forall|k: int|
            0 <= k < start_positions@.len() ==> (#[trigger] start_positions@[k]) >= prefix_len,
    ensures
        spans_of(spans@) == anchored_spans(
            ints_of(start_positions@),
            ints_of(output_strs@),
            prefix_len as int,
            0,
        ),
{
    let mut spans: Vec<(usize, usize)> = Vec::new();
    let mut k: usize = 0;
    while k < output_strs.len()
        invariant
            k <= output_strs@.len(),
            start_positions@.len() == output_strs@.len(),
            forall|j: int|
                0 <= j < start_positions@.len() ==> (#[trigger] start_positions@[j])
                    >= prefix_len,
            spans_of(spans@) + anchored_spans(
                ints_of(start_positions@),
                ints_of(output_strs@),
                prefix_len as int,
                k as int,
            ) == anchored_spans(
                ints_of(start_positions@),
                ints_of(output_strs@),
                prefix_len as int,
                0,
            ),
        decreases output_strs@.len() - k,
    {
        let e = output_strs[k];
        if e != 0 {
            let start_idx = start_positions[k] - prefix_len;
            let ghost before = spans_of(spans@);
            spans.push((start_idx, e));
            proof {
                let rest = anchored_spans(
                    ints_of(start_positions@),
                    ints_of(output_strs@),
                    prefix_len as int,
                    k + 1,
                );
                assert(spans_of(spans@) =~= before.push((start_idx as int, e as int)));
                assert(before.push((start_idx as int, e as int)) + rest =~= before + (seq![
                    (start_idx as int, e as int),
                ] + rest));
            }
        }
        k += 1;
    }
    proof {
        assert(spans_of(spans@) + Seq::<(int, int)>::empty() =~= spans_of(spans@));
    }
    spans
}

/// The spans of a line of length `n` that was read backwards, as they
/// stand in the line itself, from left to right.
pub fn mirror_spans(spans: &Vec<(usize, usize)>, n: usize) -> (out: Vec<(usize, usize)>)
    requires
        forall|k: int| 0 <= k < spans@.len() ==> (#[trigger] spans@[k]).0 <= spans@[k].1 <= n,
    ensures
        spans_of(out@) == mirrored(spans_of(spans@), n as int),
{
    let mut out: Vec<(usize, usize)> = Vec::new();
    let len = spans.len();
    let mut k: usize = 0;
    while k < len
        invariant
            k <= len,
            len == spans@.len(),
            out@.len() == k,
            forall|j: int| 0 <= j < spans@.len() ==> (#[trigger] spans@[j]).0 <= spans@[j].1 <= n,
            forall|j: int|
                0 <= j < k ==> (#[trigger] out@[j]) == ((n - spans@[len - 1 - j].1) as usize, (n
                    - spans@[len - 1 - j].0) as usize),
        decreases len - k,
    {
        let s = spans[len - 1 - k];
        out.push((n - s.1, n - s.0));
        k += 1;
    }
    proof {
        assert(spans_of(out@) =~= mirrored(spans_of(spans@), n as int));
    }
    out
}

} // verus!
