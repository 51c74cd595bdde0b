//! Boyer-Moore search for a literal in a line: the three tables and the
//! scan.

use vstd::prelude::*;
use crate::text::{chars_of, reversed};

verus! {

/// The number of characters of the alphabet: the tab and the printable
/// characters from space to tilde.
pub const ALPHABET_SIZE: usize = 96;

/// `c` is a character of the alphabet.
pub open spec fn in_alphabet(c: char) -> bool {
    c == '\t' || (' ' <= c && c <= '~')
}

/// Every character of `s` is one of the alphabet.
pub open spec fn all_in_alphabet(s: Seq<char>) -> bool {
    forall|i: int| 0 <= i < s.len() ==> in_alphabet(#[trigger] s[i])
}

/// The number of a character of the alphabet: 0 for the tab, then the
/// printable characters in their order.
pub open spec fn alphabet_index_of(c: char) -> int {
    if c == '\t' {
        0
    } else {
        c as int - 0x20 + 1
    }
}

/// The number of `c` in the alphabet.
pub fn alphabet_index(c: char) -> (i: usize)
    requires
        in_alphabet(c),
    ensures
        i == alphabet_index_of(c),
        i < ALPHABET_SIZE,
{
    if c == '\t' {
        0
    } else {
        (c as u32 - 0x20 + 1) as usize
    }
}

/// The length of the longest common beginning of `s` from `i` and `s`
/// from `j`.
pub open spec fn lce(s: Seq<char>, i: int, j: int) -> nat
    decreases s.len() - i,
{
    if 0 <= i < s.len() && 0 <= j < s.len() && s[i] == s[j] {
        1 + lce(s, i + 1, j + 1)
    } else {
        0
    }
}

/// `s` has the same character `t` places behind `i` and behind `j`.
pub open spec fn agree_at(s: Seq<char>, i: int, j: int, t: int) -> bool {
    s[i + t] == s[j + t]
}

/// `s` has the same `m` characters from `i` and from `j`.
pub open spec fn agree(s: Seq<char>, i: int, j: int, m: int) -> bool {
    forall|t: int| 0 <= t < m ==> #[trigger] agree_at(s, i, j, t)
}

/// The common beginning is no longer than what is left of `s`.
pub proof fn lemma_lce_bound(s: Seq<char>, i: int, j: int)
    requires
        0 <= i <= s.len(),
        0 <= j <= s.len(),
    ensures
        i + lce(s, i, j) <= s.len(),
        j + lce(s, i, j) <= s.len(),
    decreases s.len() - i,
{
    if i < s.len() && j < s.len() && s[i] == s[j] {
        lemma_lce_bound(s, i + 1, j + 1);
    }
}

/// Within the common beginning the characters agree.
pub proof fn lemma_lce_agree(s: Seq<char>, i: int, j: int, t: int)
    requires
        0 <= i,
        0 <= j,
        0 <= t < lce(s, i, j),
    ensures
        i + t < s.len(),
        j + t < s.len(),
        s[i + t] == s[j + t],
        agree_at(s, i, j, t),
    decreases t,
{
    if t > 0 {
        lemma_lce_agree(s, i + 1, j + 1, t - 1);
    }
}

/// Right behind the common beginning the characters differ, or `s` ends.
pub proof fn lemma_lce_stop(s: Seq<char>, i: int, j: int)
    requires
        0 <= i,
        0 <= j,
    ensures
        i + lce(s, i, j) >= s.len() || j + lce(s, i, j) >= s.len() || s[i + lce(s, i, j)] != s[j
            + lce(s, i, j)],
    decreases s.len() - i,
{
    if i < s.len() && j < s.len() && s[i] == s[j] {
        lemma_lce_stop(s, i + 1, j + 1);
    }
}

/// Where the first `m` characters agree, the common beginning is `m` and
/// what comes behind.
pub proof fn lemma_lce_split(s: Seq<char>, i: int, j: int, m: int)
    requires
        0 <= i,
        0 <= j,
        0 <= m,
        i + m <= s.len(),
        j + m <= s.len(),
        agree(s, i, j, m),
    ensures
        lce(s, i, j) == m + lce(s, i + m, j + m),
    decreases m,
{
    if m > 0 {
        assert(agree_at(s, i, j, 0));
        assert forall|t: int| 0 <= t < m - 1 implies #[trigger] agree_at(s, i + 1, j + 1, t) by {
            assert(agree_at(s, i, j, t + 1));
        }
        lemma_lce_split(s, i + 1, j + 1, m - 1);
    }
}

/// The common beginning is exactly `m` where `m` characters agree and
/// the next do not.
pub proof fn lemma_lce_exact(s: Seq<char>, i: int, j: int, m: int)
    requires
        0 <= i,
        0 <= j,
        0 <= m,
        i + m <= s.len(),
        j + m <= s.len(),
        agree(s, i, j, m),
        i + m == s.len() || j + m == s.len() || s[i + m] != s[j + m],
    ensures
        lce(s, i, j) == m,
{
    lemma_lce_split(s, i, j, m);
}

/// Return the length of the match of the parts of `s` that begin at
/// `idx1` and at `idx2`.
pub fn match_length(s: &Vec<char>, idx1: usize, idx2: usize) -> (count: usize)
    requires
        idx1 <= s@.len(),
        idx2 <= s@.len(),
    ensures
        count == lce(s@, idx1 as int, idx2 as int),
{
    let n = s.len();
    if idx1 == idx2 {
        proof {
            assert(agree(s@, idx1 as int, idx2 as int, n - idx1));
            lemma_lce_exact(s@, idx1 as int, idx2 as int, n - idx1);
        }
        return n - idx1;
    }
    let mut a = idx1;
    let mut b = idx2;
    let mut count: usize = 0;
    while a < n && b < n && s[a] == s[b]
        invariant
            n == s@.len(),
            a == idx1 + count,
            b == idx2 + count,
            a <= n,
            b <= n,
            agree(s@, idx1 as int, idx2 as int, count as int),
        decreases n - a,
    {
        proof {
            assert(agree_at(s@, idx1 as int, idx2 as int, count as int));
        }
        count += 1;
        a += 1;
        b += 1;
    }
    proof {
        lemma_lce_exact(s@, idx1 as int, idx2 as int, count as int);
    }
    count
}

/// The Z-array of `s`: entry `i` is the length of the longest common
/// beginning of `s` and of `s` from `i`.
pub fn preprocess(s: &Vec<char>) -> (z: Vec<i32>)
    requires
        s@.len() <= i32::MAX,
    ensures
        z@.len() == s@.len(),
        forall|i: int| 0 <= i < s@.len() ==> (#[trigger] z@[i]) == lce(s@, 0, i),
{
    let n = s.len();
    let mut z: Vec<i32> = Vec::new();
    if n == 0 {
        return z;
    }
    z.push(n as i32);
    proof {
        assert(agree(s@, 0, 0, n as int));
        lemma_lce_exact(s@, 0, 0, n as int);
    }
    let mut l: usize = 0;
    let mut r: usize = 0;
    let mut i: usize = 1;
    while i < n
        invariant
            1 <= i <= n,
            n == s@.len(),
            n <= i32::MAX,
            z@.len() == i,
            forall|x: int| 0 <= x < i ==> (#[trigger] z@[x]) == lce(s@, 0, x),
            (l == 0 && r == 0) || (1 <= l < i && l <= r < n && z@[l as int] == r - l + 1),
        decreases n - i,
    {
        let zi: usize;
        if i <= r {
            let k = i - l;
            let b = z[k] as usize;
            let a = r - i + 1;
            proof {
                // Inside the box the text repeats its beginning.
                assert forall|t: int| 0 <= t < r - l + 1 implies #[trigger] agree_at(
                    s@,
                    0,
                    l as int,
                    t,
                ) by {
                    lemma_lce_agree(s@, 0, l as int, t);
                }
                lemma_lce_bound(s@, 0, k as int);
                lemma_lce_stop(s@, 0, k as int);
            }
            if b < a {
                zi = b;
                proof {
                    assert forall|t: int| 0 <= t < b implies #[trigger] agree_at(
                        s@,
                        0,
                        i as int,
                        t,
                    ) by {
                        lemma_lce_agree(s@, 0, k as int, t);
                        assert(agree_at(s@, 0, l as int, k + t));
                    }
                    assert(agree_at(s@, 0, l as int, k + b));
                    lemma_lce_exact(s@, 0, i as int, b as int);
                }
            } else {
                proof {
                    assert forall|t: int| 0 <= t < a implies #[trigger] agree_at(
                        s@,
                        0,
                        i as int,
                        t,
                    ) by {
                        lemma_lce_agree(s@, 0, k as int, t);
                        assert(agree_at(s@, 0, l as int, k + t));
                    }
                    lemma_lce_split(s@, 0, i as int, a as int);
                    lemma_lce_bound(s@, 0, i as int);
                }
                zi = a + match_length(s, a, r + 1);
                l = i;
                r = i + zi - 1;
            }
        } else {
            zi = match_length(s, 0, i);
            proof {
                lemma_lce_bound(s@, 0, i as int);
            }
            if zi > 0 {
                l = i;
                r = i + zi - 1;
            }
        }
        z.push(zi as i32);
        i += 1;
    }
    z
}

/// The rightmost place at or before `i` where `s` has the character with
/// number `c`, or -1.
pub open spec fn rightmost(s: Seq<char>, c: int, i: int) -> int
    decreases i + 1,
{
    if i < 0 || i >= s.len() {
        -1
    } else if alphabet_index_of(s[i]) == c {
        i
    } else {
        rightmost(s, c, i - 1)
    }
}

/// `r` is the bad-character table of `s`: a row for every character of
/// the alphabet, and in it for every place of `s` the rightmost place at
/// or before it where `s` has that character, or -1.
pub open spec fn is_bad_char_table(s: Seq<char>, r: Seq<Vec<i32>>) -> bool {
    &&& r.len() == ALPHABET_SIZE
    &&& forall|c: int| 0 <= c < ALPHABET_SIZE ==> (#[trigger] r[c])@.len() == s.len()
    &&& forall|c: int, i: int|
        0 <= c < ALPHABET_SIZE && 0 <= i < s.len() ==> (#[trigger] r[c]@[i]) == rightmost(s, c, i)
}

/// The length of the longest common ending of `s` up to and including
/// place `j` and of the whole of `s`.
pub open spec fn nval(s: Seq<char>, j: int) -> nat {
    lce(s.reverse(), 0, s.len() - 1 - j)
}

/// The largest `j` below `m` for which the common ending of `s` up to
/// `j` and of `s` is exactly `s` from `i`, or -1.
pub open spec fn gs_upto(s: Seq<char>, i: int, m: int) -> int
    decreases m,
{
    if m <= 0 {
        -1
    } else if nval(s, m - 1) == s.len() - i {
        m - 1
    } else {
        gs_upto(s, i, m - 1)
    }
}

/// The entry of the good-suffix table for place `i`: the largest `j`
/// before the last place such that `s` from `i` ends `s` up to `j`, and
/// no longer ending of `s` does; or -1.
pub open spec fn good_suffix(s: Seq<char>, i: int) -> int {
    gs_upto(s, i, s.len() - 1)
}

/// `l` is the good-suffix table of `s`.
pub open spec fn is_good_suffix_table(s: Seq<char>, l: Seq<i32>) -> bool {
    &&& l.len() == s.len()
    &&& forall|i: int| 0 <= i < s.len() ==> (#[trigger] l[i]) == good_suffix(s, i)
}

/// The length of the longest beginning of `s` that also ends `s` and is
/// no longer than `m`.
pub open spec fn longest_border(s: Seq<char>, m: int) -> int
    decreases m,
{
    if m <= 0 {
        0
    } else if lce(s, 0, s.len() - m) == m {
        m
    } else {
        longest_border(s, m - 1)
    }
}

/// `f` is the full-shift table of `s`: for every place `i` the length of
/// the longest beginning of `s` that also ends `s` and fits into `s` from
/// `i`.
pub open spec fn is_full_shift_table(s: Seq<char>, f: Seq<i32>) -> bool {
    &&& f.len() == s.len()
    &&& forall|i: int| 0 <= i < s.len() ==> (#[trigger] f[i]) == longest_border(s, s.len() - i)
}

/// The bad-character table of `s`.
pub fn bad_char_table(s: &str) -> (r: Vec<Vec<i32>>)
    requires
        all_in_alphabet(s@),
        s@.len() <= i32::MAX,
    ensures
        is_bad_char_table(s@, r@),
{
    let chars = chars_of(s);
    bad_chars(&chars)
}

/// `bad_char_table` on a character vector.
pub fn bad_chars(s: &Vec<char>) -> (r: Vec<Vec<i32>>)
    requires
        all_in_alphabet(s@),
        s@.len() <= i32::MAX,
    ensures
        is_bad_char_table(s@, r@),
{
    let n = s.len();
    let mut table: Vec<Vec<i32>> = Vec::new();
    let mut alpha: Vec<i32> = Vec::new();
    let mut c: usize = 0;
    while c < ALPHABET_SIZE
        invariant
            c <= ALPHABET_SIZE,
            table@.len() == c,
            alpha@.len() == c,
            forall|x: int| 0 <= x < c ==> (#[trigger] table@[x])@.len() == 0,
            forall|x: int| 0 <= x < c ==> (#[trigger] alpha@[x]) == -1,
        decreases ALPHABET_SIZE - c,
    {
        table.push(Vec::new());
        alpha.push(-1);
        c += 1;
    }
    let mut i: usize = 0;
    while i < n
        invariant
            i <= n,
            n == s@.len(),
            n <= i32::MAX,
            all_in_alphabet(s@),
            table@.len() == ALPHABET_SIZE,
            alpha@.len() == ALPHABET_SIZE,
            forall|x: int| 0 <= x < ALPHABET_SIZE ==> (#[trigger] table@[x])@.len() == i,
            forall|x: int, y: int|
                0 <= x < ALPHABET_SIZE && 0 <= y < i ==> (#[trigger] table@[x]@[y]) == rightmost(
                    s@,
                    x,
                    y,
                ),
            forall|x: int|
                0 <= x < ALPHABET_SIZE ==> (#[trigger] alpha@[x]) == rightmost(s@, x, i - 1),
        decreases n - i,
    {
        assert(in_alphabet(s@[i as int]));
        let idx = alphabet_index(s[i]);
        alpha.set(idx, i as i32);
        let mut j: usize = 0;
        while j < ALPHABET_SIZE
            invariant
                j <= ALPHABET_SIZE,
                i < n,
                n == s@.len(),
                table@.len() == ALPHABET_SIZE,
                alpha@.len() == ALPHABET_SIZE,
                forall|x: int| 0 <= x < j ==> (#[trigger] table@[x])@.len() == i + 1,
                forall|x: int| j <= x < ALPHABET_SIZE ==> (#[trigger] table@[x])@.len() == i,
                forall|x: int, y: int|
                    0 <= x < ALPHABET_SIZE && 0 <= y < i ==> (#[trigger] table@[x]@[y])
                        == rightmost(s@, x, y),
                forall|x: int| 0 <= x < j ==> (#[trigger] table@[x])@[i as int] == alpha@[x],
                forall|x: int|
                    0 <= x < ALPHABET_SIZE ==> (#[trigger] alpha@[x]) == rightmost(s@, x, i as int),
            decreases ALPHABET_SIZE - j,
        {
            let a = alpha[j];
            table[j].push(a);
            j += 1;
        }
        i += 1;
    }
    table
}

/// The good-suffix table of `s`.
pub fn good_suffix_table(s: &str) -> (l: Vec<i32>)
    requires
        0 < s@.len() <= i32::MAX,
    ensures
        is_good_suffix_table(s@, l@),
{
    let chars = chars_of(s);
    good_suffixes(&chars)
}

/// `good_suffix_table` on a character vector.
pub fn good_suffixes(s: &Vec<char>) -> (l: Vec<i32>)
    requires
        0 < s@.len() <= i32::MAX,
    ensures
        is_good_suffix_table(s@, l@),
{
    let n = s.len();
    let mut l: Vec<i32> = Vec::new();
    let mut k: usize = 0;
    while k < n
        invariant
            k <= n,
            l@.len() == k,
            forall|x: int| 0 <= x < k ==> (#[trigger] l@[x]) == -1,
        decreases n - k,
    {
        l.push(-1);
        k += 1;
    }
    let rev = reversed(s);
    let z = preprocess(&rev);
    let mut j: usize = 0;
    while j < n - 1
        invariant
            j <= n - 1,
            n == s@.len(),
            n <= i32::MAX,
            rev@ == s@.reverse(),
            z@.len() == n,
            forall|x: int| 0 <= x < n ==> (#[trigger] z@[x]) == lce(rev@, 0, x),
            l@.len() == n,
            forall|x: int| 0 <= x < n ==> (#[trigger] l@[x]) == gs_upto(s@, x, j as int),
        decreases n - 1 - j,
    {
        proof {
            lemma_lce_bound(rev@, 0, n - 1 - j);
        }
        let nj = z[n - 1 - j] as usize;
        let i = n - nj;
        if i != n {
            l.set(i, j as i32);
        }
        j += 1;
    }
    l
}

/// The full-shift table of `s`.
pub fn full_shift_table(s: &str) -> (f: Vec<i32>)
    requires
        s@.len() <= i32::MAX,
    ensures
        is_full_shift_table(s@, f@),
{
    let chars = chars_of(s);
    full_shifts(&chars)
}

/// `full_shift_table` on a character vector.
pub fn full_shifts(s: &Vec<char>) -> (f: Vec<i32>)
    requires
        s@.len() <= i32::MAX,
    ensures
        is_full_shift_table(s@, f@),
{
    let n = s.len();
    let mut f: Vec<i32> = Vec::new();
    let mut k: usize = 0;
    while k < n
        invariant
            k <= n,
            f@.len() == k,
        decreases n - k,
    {
        f.push(0);
        k += 1;
    }
    let z = preprocess(s);
    let mut longest: i32 = 0;
    let mut i: usize = 0;
    while i < n
        invariant
            i <= n,
            n == s@.len(),
            n <= i32::MAX,
            z@.len() == n,
            forall|x: int| 0 <= x < n ==> (#[trigger] z@[x]) == lce(s@, 0, x),
            f@.len() == n,
            0 <= longest <= i,
            longest == longest_border(s@, i as int),
            forall|x: int|
                n - i <= x < n ==> (#[trigger] f@[x]) == longest_border(s@, n - x),
        decreases n - i,
    {
        let zv = z[n - 1 - i];
        if zv == (i + 1) as i32 {
            longest = if zv > longest {
                zv
            } else {
                longest
            };
        }
        f.set(n - i - 1, longest);
        i += 1;
    }
    f
}

/// `t` has at place `k + x` the character that `p` has at place `x`.
pub open spec fn same_at(p: Seq<char>, t: Seq<char>, k: int, x: int) -> bool {
    t[k + x] == p[x]
}

/// `p` stands in `t` at place `k`.
pub open spec fn occurs_at(p: Seq<char>, t: Seq<char>, k: int) -> bool {
    &&& 0 <= k
    &&& k + p.len() <= t.len()
    &&& forall|x: int| 0 <= x < p.len() ==> #[trigger] same_at(p, t, k, x)
}

/// The ends of all the occurrences of `p` in `t` that begin at place `k`
/// or behind it, in ascending order. Occurrences that overlap are all
/// among them.
pub open spec fn anchors_from(p: Seq<char>, t: Seq<char>, k: int) -> Seq<int>
    decreases t.len() - k,
{
    if p.len() == 0 || k < 0 || k + p.len() > t.len() {
        Seq::empty()
    } else if occurs_at(p, t, k) {
        seq![k + p.len()] + anchors_from(p, t, k + 1)
    } else {
        anchors_from(p, t, k + 1)
    }
}

/// `p` does not stand in `t` at any of the `d` places from `k` on.
pub open spec fn none_in(p: Seq<char>, t: Seq<char>, k: int, d: int) -> bool {
    forall|s: int| 0 <= s < d ==> !occurs_at(p, t, #[trigger] (k + s))
}

/// Places at which `p` does not stand can be skipped.
pub proof fn lemma_skip(p: Seq<char>, t: Seq<char>, k: int, d: int)
    requires
        0 <= k,
        0 <= d,
        none_in(p, t, k, d),
    ensures
        anchors_from(p, t, k) == anchors_from(p, t, k + d),
    decreases d,
{
    if d > 0 {
        assert(!occurs_at(p, t, k + 0));
        assert forall|s: int| 0 <= s < d - 1 implies !occurs_at(p, t, #[trigger] (k + 1 + s)) by {
            assert(!occurs_at(p, t, k + (s + 1)));
        }
        lemma_skip(p, t, k + 1, d - 1);
    }
}

/// What `rightmost` finds is a place of the character at or before `i`,
/// and no later such place has it.
pub proof fn lemma_rightmost(s: Seq<char>, c: int, i: int)
    requires
        -1 <= i < s.len(),
    ensures
        -1 <= rightmost(s, c, i) <= i,
        rightmost(s, c, i) >= 0 ==> alphabet_index_of(s[rightmost(s, c, i)]) == c,
        forall|j: int|
            rightmost(s, c, i) < j <= i && 0 <= j ==> alphabet_index_of(#[trigger] s[j]) != c,
    decreases i + 1,
{
    if i >= 0 && alphabet_index_of(s[i]) != c {
        lemma_rightmost(s, c, i - 1);
    }
}

/// What `gs_upto` finds is below `m` and has the common ending asked for,
/// and no larger `j` below `m` has it.
pub proof fn lemma_gs_upto(s: Seq<char>, i: int, m: int)
    ensures
        -1 <= gs_upto(s, i, m),
        m > 0 ==> gs_upto(s, i, m) < m,
        gs_upto(s, i, m) >= 0 ==> nval(s, gs_upto(s, i, m)) == s.len() - i,
        forall|j: int|
            gs_upto(s, i, m) < j < m && 0 <= j ==> (#[trigger] nval(s, j)) != s.len() - i,
    decreases m,
{
    if m > 0 && nval(s, m - 1) != s.len() - i {
        lemma_gs_upto(s, i, m - 1);
    }
}

/// What `longest_border` finds is at most `m` and is the length of a
/// beginning of `s` that ends `s`, and no greater length up to `m` is.
pub proof fn lemma_longest_border(s: Seq<char>, m: int)
    ensures
        0 <= longest_border(s, m),
        m >= 0 ==> longest_border(s, m) <= m,
        longest_border(s, m) > 0 ==> lce(s, 0, s.len() - longest_border(s, m)) == longest_border(
            s,
            m,
        ),
        forall|b: int|
            longest_border(s, m) < b <= m ==> (#[trigger] lce(s, 0, s.len() - b)) != b,
    decreases m,
{
    if m > 0 && lce(s, 0, s.len() - m) != m {
        lemma_longest_border(s, m - 1);
    }
}

/// The shift that the bad-character rule allows after a mismatch at place
/// `i` of `p`, with `p` standing at `ws`.
pub open spec fn char_shift(p: Seq<char>, t: Seq<char>, ws: int, i: int) -> int {
    i - rightmost(p, alphabet_index_of(t[ws + i]), i)
}

/// The shift that the good-suffix rule allows after a mismatch at place
/// `i` of `p`.
pub open spec fn suffix_shift(p: Seq<char>, i: int) -> int {
    if i + 1 == p.len() {
        1
    } else if good_suffix(p, i + 1) == -1 {
        p.len() - longest_border(p, p.len() - (i + 1))
    } else {
        p.len() - 1 - good_suffix(p, i + 1)
    }
}

/// `p`, standing at `ws`, agrees with `t` behind place `i` and not at
/// place `i`.
pub open spec fn mismatch_at(p: Seq<char>, t: Seq<char>, ws: int, i: int) -> bool {
    &&& 0 <= ws
    &&& ws + p.len() <= t.len()
    &&& 0 <= i < p.len()
    &&& !same_at(p, t, ws, i)
    &&& forall|x: int| i < x < p.len() ==> #[trigger] same_at(p, t, ws, x)
}

/// The bad-character rule skips no occurrence.
pub proof fn lemma_char_shift_safe(p: Seq<char>, t: Seq<char>, ws: int, i: int, s: int)
    requires
        mismatch_at(p, t, ws, i),
        0 <= s < char_shift(p, t, ws, i),
    ensures
        !occurs_at(p, t, ws + s),
{
    let c = alphabet_index_of(t[ws + i]);
    lemma_rightmost(p, c, i);
    if occurs_at(p, t, ws + s) {
        if s == 0 {
            assert(same_at(p, t, ws + s, i));
        } else {
            let x = i - s;
            assert(same_at(p, t, ws + s, x));
            assert(alphabet_index_of(p[x]) == c);
        }
    }
}

/// The good-suffix rule skips no occurrence.
pub proof fn lemma_suffix_shift_safe(p: Seq<char>, t: Seq<char>, ws: int, i: int, s: int)
    requires
        mismatch_at(p, t, ws, i),
        0 <= s < suffix_shift(p, i),
    ensures
        !occurs_at(p, t, ws + s),
{
    let m = p.len() as int;
    if occurs_at(p, t, ws + s) {
        if s == 0 {
            assert(same_at(p, t, ws + s, i));
        } else {
            // The mismatch is not at the last place, else the shift is 1.
            assert(i + 1 < m);
            let rp = p.reverse();
            let g = good_suffix(p, i + 1);
            lemma_gs_upto(p, i + 1, m - 1);
            lemma_longest_border(p, m - (i + 1));
            if s <= i {
                // The occurrence repeats the matched ending inside `p`,
                // with another character before it.
                let j = m - 1 - s;
                assert forall|u: int| 0 <= u < m - i - 1 implies #[trigger] agree_at(
                    rp,
                    0,
                    s,
                    u,
                ) by {
                    let x = m - 1 - s - u;
                    assert(same_at(p, t, ws + s, x));
                    assert(same_at(p, t, ws, m - 1 - u));
                }
                assert(same_at(p, t, ws + s, i - s));
                assert(rp[m - i - 1] == p[i]);
                assert(rp[s + (m - i - 1)] == p[i - s]);
                lemma_lce_exact(rp, 0, s, m - i - 1);
                assert(nval(p, j) == m - (i + 1));
            } else {
                // A beginning of `p` ends `p`.
                let b = m - s;
                assert forall|x: int| 0 <= x < b implies #[trigger] agree_at(p, 0, s, x) by {
                    assert(same_at(p, t, ws + s, x));
                    assert(same_at(p, t, ws, s + x));
                }
                lemma_lce_exact(p, 0, s, b);
                assert(lce(p, 0, m - b) == b);
                if g >= 0 {
                    lemma_lce_bound(rp, 0, m - 1 - g);
                }
            }
        }
    }
}

/// After a shift by the good-suffix rule that passes the place of the
/// mismatch, `p` is known to agree with `t` in what is left of the old
/// window.
pub proof fn lemma_known_after_shift(p: Seq<char>, t: Seq<char>, ws: int, i: int, x: int)
    requires
        mismatch_at(p, t, ws, i),
        i + 1 < p.len(),
        suffix_shift(p, i) >= i + 1,
        0 <= x < p.len() - suffix_shift(p, i),
    ensures
        same_at(p, t, ws + suffix_shift(p, i), x),
{
    let m = p.len() as int;
    let rp = p.reverse();
    let g = good_suffix(p, i + 1);
    let sh = suffix_shift(p, i);
    lemma_gs_upto(p, i + 1, m - 1);
    lemma_longest_border(p, m - (i + 1));
    assert(same_at(p, t, ws, sh + x));
    if g >= 0 {
        lemma_lce_bound(rp, 0, m - 1 - g);
        let u = g - x;
        lemma_lce_agree(rp, 0, m - 1 - g, u);
        assert(rp[0 + u] == p[m - 1 - u]);
        assert(rp[m - 1 - g + u] == p[x]);
    } else {
        let b = longest_border(p, m - (i + 1));
        lemma_lce_agree(p, 0, m - b, x);
    }
}

/// Behind an occurrence of `p`, no occurrence begins before the place
/// where the longest beginning of `p` that also ends `p`, and is not the
/// whole of `p`, begins.
pub proof fn lemma_match_shift_safe(p: Seq<char>, t: Seq<char>, ws: int, s: int)
    requires
        occurs_at(p, t, ws),
        1 <= s < p.len() - longest_border(p, p.len() - 1),
    ensures
        !occurs_at(p, t, ws + s),
{
    let m = p.len() as int;
    lemma_longest_border(p, m - 1);
    if occurs_at(p, t, ws + s) {
        let b = m - s;
        assert forall|x: int| 0 <= x < b implies #[trigger] agree_at(p, 0, s, x) by {
            assert(same_at(p, t, ws + s, x));
            assert(same_at(p, t, ws, s + x));
        }
        lemma_lce_exact(p, 0, s, b);
        assert(lce(p, 0, m - b) == b);
    }
}

/// Behind an occurrence of `p`, the window that begins where the longest
/// such beginning of `p` begins agrees with `t` in that beginning.
pub proof fn lemma_known_after_match(p: Seq<char>, t: Seq<char>, ws: int, x: int)
    requires
        occurs_at(p, t, ws),
        0 <= x < longest_border(p, p.len() - 1),
    ensures
        same_at(p, t, ws + (p.len() - longest_border(p, p.len() - 1)), x),
{
    let m = p.len() as int;
    let b = longest_border(p, m - 1);
    lemma_longest_border(p, m - 1);
    lemma_lce_agree(p, 0, m - b, x);
    assert(same_at(p, t, ws, m - b + x));
}

/// What `anchors_from` holds are ends of occurrences, none of which
/// begins before `k`, in strictly ascending order.
pub proof fn lemma_anchors_sound(p: Seq<char>, t: Seq<char>, k: int)
    requires
        0 <= k,
    ensures
        forall|x: int|
            0 <= x < anchors_from(p, t, k).len() ==> k + p.len() <= (#[trigger] anchors_from(
                p,
                t,
                k,
            )[x]) <= t.len() && occurs_at(p, t, anchors_from(p, t, k)[x] - p.len()),
        forall|x: int, y: int|
            0 <= x < y < anchors_from(p, t, k).len() ==> anchors_from(p, t, k)[x] < anchors_from(
                p,
                t,
                k,
            )[y],
    decreases t.len() - k,
{
    if p.len() == 0 || k + p.len() > t.len() {
        assert(anchors_from(p, t, k).len() == 0);
    } else if occurs_at(p, t, k) {
        lemma_anchors_sound(p, t, k + 1);
        let rest = anchors_from(p, t, k + 1);
        let all = anchors_from(p, t, k);
        assert(all =~= seq![k + p.len()] + rest);
        assert forall|x: int| 0 <= x < all.len() implies k + p.len() <= (#[trigger] all[x])
            <= t.len() && occurs_at(p, t, all[x] - p.len()) by {
            if x > 0 {
                assert(all[x] == rest[x - 1]);
            }
        }
        assert forall|x: int, y: int| 0 <= x < y < all.len() implies all[x] < all[y] by {
            assert(all[y] == rest[y - 1]);
            if x > 0 {
                assert(all[x] == rest[x - 1]);
            }
        }
    } else {
        lemma_anchors_sound(p, t, k + 1);
        assert(anchors_from(p, t, k) == anchors_from(p, t, k + 1));
    }
}

/// `anchors_from` holds the end of every occurrence that begins at `k`
/// or behind it.
pub proof fn lemma_anchors_complete(p: Seq<char>, t: Seq<char>, k: int, j: int)
    requires
        0 <= k <= j,
        p.len() > 0,
        occurs_at(p, t, j),
    ensures
        anchors_from(p, t, k).contains(j + p.len()),
    decreases t.len() - k,
{
    let all = anchors_from(p, t, k);
    let rest = anchors_from(p, t, k + 1);
    if j == k {
        assert(all =~= seq![k + p.len()] + rest);
        assert(all[0] == j + p.len());
    } else {
        lemma_anchors_complete(p, t, k + 1, j);
        let x = choose|x: int| 0 <= x < rest.len() && rest[x] == j + p.len();
        if occurs_at(p, t, k) {
            assert(all =~= seq![k + p.len()] + rest);
            assert(all[x + 1] == j + p.len());
        } else {
            assert(all == rest);
        }
    }
}

/// `anchors_from(p, t, 0)` holds exactly the occurrences of `p` in `t`,
/// overlapping ones too, each by its end, in strictly ascending order
/// and none twice.
pub proof fn lemma_search_finds_all(p: Seq<char>, t: Seq<char>)
    requires
        p.len() > 0,
    ensures
        forall|j: int|
            occurs_at(p, t, j) <==> anchors_from(p, t, 0).contains(#[trigger] (j + p.len())),
        forall|x: int, y: int|
            0 <= x < y < anchors_from(p, t, 0).len() ==> anchors_from(p, t, 0)[x] < anchors_from(
                p,
                t,
                0,
            )[y],
{
    lemma_anchors_sound(p, t, 0);
    let all = anchors_from(p, t, 0);
    assert forall|j: int| occurs_at(p, t, j) <==> all.contains(#[trigger] (j + p.len())) by {
        if occurs_at(p, t, j) {
            lemma_anchors_complete(p, t, 0, j);
        }
        if all.contains(j + p.len()) {
            let x = choose|x: int| 0 <= x < all.len() && all[x] == j + p.len();
            assert(occurs_at(p, t, all[x] - p.len()));
        }
    }
}

/// The numbers of `v` as integers.
pub open spec fn ends_of(v: Seq<usize>) -> Seq<int> {
    v.map_values(|k: usize| k as int)
}

/// The ends of all the occurrences of `p` in `t`, overlapping ones too,
/// in strictly ascending order.
pub fn find_prefix_boyer_moore(
    p: &str,
    t: &str,
    r: &Vec<Vec<i32>>,
    l: &Vec<i32>,
    f: &Vec<i32>,
) -> (matches: Vec<usize>)
    requires
        0 < p@.len() <= i32::MAX,
        all_in_alphabet(t@),
        is_bad_char_table(p@, r@),
        is_good_suffix_table(p@, l@),
        is_full_shift_table(p@, f@),
    ensures
        ends_of(matches@) == anchors_from(p@, t@, 0),
        forall|j: int|
            occurs_at(p@, t@, j) <==> ends_of(matches@).contains(#[trigger] (j + p@.len())),
        forall|x: int, y: int| 0 <= x < y < matches@.len() ==> matches@[x] < matches@[y],
{
    let pc = chars_of(p);
    let tc = chars_of(t);
    boyer_moore(&pc, &tc, r, l, f)
}

/// `find_prefix_boyer_moore` on character vectors.
pub fn boyer_moore(
    p: &Vec<char>,
    t: &Vec<char>,
    r: &Vec<Vec<i32>>,
    l: &Vec<i32>,
    f: &Vec<i32>,
) -> (matches: Vec<usize>)
    requires
        0 < p@.len() <= i32::MAX,
        all_in_alphabet(t@),
        is_bad_char_table(p@, r@),
        is_good_suffix_table(p@, l@),
        is_full_shift_table(p@, f@),
    ensures
        ends_of(matches@) == anchors_from(p@, t@, 0),
        forall|j: int|
            occurs_at(p@, t@, j) <==> ends_of(matches@).contains(#[trigger] (j + p@.len())),
        forall|x: int, y: int| 0 <= x < y < matches@.len() ==> matches@[x] < matches@[y],
{
    let m = p.len();
    let n = t.len();
    let mut matches: Vec<usize> = Vec::new();
    proof {
        lemma_search_finds_all(p@, t@);
    }
    if n < m {
        assert(anchors_from(p@, t@, 0) =~= Seq::<int>::empty());
        assert(ends_of(matches@) =~= Seq::<int>::empty());
        return matches;
    }
    let mut ws: usize = 0;
    let mut known: usize = 0;
    while ws <= n - m
        invariant
            m == p@.len(),
            n == t@.len(),
            0 < m <= n,
            m <= i32::MAX,
            ws <= n,
            known < m,
            all_in_alphabet(t@),
            is_bad_char_table(p@, r@),
            is_good_suffix_table(p@, l@),
            is_full_shift_table(p@, f@),
            forall|x: int| 0 <= x < known ==> ws + x < n && #[trigger] same_at(p@, t@, ws as int, x),
            ends_of(matches@) + anchors_from(p@, t@, ws as int) == anchors_from(p@, t@, 0),
        decreases n - ws,
    {
        let mut c: usize = m;
        while c > known && p[c - 1] == t[ws + c - 1]
            invariant
                known <= c <= m,
                m == p@.len(),
                n == t@.len(),
                ws + m <= n,
                forall|x: int| c <= x < m ==> #[trigger] same_at(p@, t@, ws as int, x),
            decreases c,
        {
            proof {
                assert(same_at(p@, t@, ws as int, c - 1));
            }
            c -= 1;
        }
        let ghost before = ends_of(matches@);
        if c == known {
            proof {
                assert(occurs_at(p@, t@, ws as int));
                lemma_longest_border(p@, m - 1);
            }
            matches.push(ws + m);
            // The window moves on to where the longest beginning of `p`
            // that also ends `p` begins: no occurrence begins before.
            let border: usize = if m > 1 {
                f[1] as usize
            } else {
                0
            };
            let shift = m - border;
            proof {
                assert(border == longest_border(p@, m - 1));
                let rest = anchors_from(p@, t@, ws + 1);
                assert(ends_of(matches@) =~= before.push(ws + m));
                assert(before.push(ws + m) + rest =~= before + (seq![ws + m] + rest));
                assert forall|s: int| 0 <= s < shift - 1 implies !occurs_at(
                    p@,
                    t@,
                    #[trigger] (ws + 1 + s),
                ) by {
                    lemma_match_shift_safe(p@, t@, ws as int, s + 1);
                }
                lemma_skip(p@, t@, ws + 1, shift - 1);
                assert forall|x: int| 0 <= x < border implies ws + shift + x < n
                    && #[trigger] same_at(p@, t@, ws + shift, x) by {
                    lemma_known_after_match(p@, t@, ws as int, x);
                }
            }
            ws += shift;
            known = border;
        } else {
            let i = c - 1;
            proof {
                assert(mismatch_at(p@, t@, ws as int, i as int));
                assert(in_alphabet(t@[ws + i]));
                lemma_rightmost(p@, alphabet_index_of(t@[ws + i]), i as int);
            }
            let rv = r[alphabet_index(t[ws + i])][i];
            let by_char: usize = (i as i32 - rv) as usize;
            let mut by_suffix: usize = 1;
            if i + 1 < m {
                proof {
                    lemma_gs_upto(p@, i + 1, m - 1);
                    lemma_longest_border(p@, m - (i + 1));
                }
                let lv = l[i + 1];
                if lv == -1 {
                    by_suffix = m - f[i + 1] as usize;
                } else {
                    by_suffix = m - 1 - lv as usize;
                }
            }
            assert(by_suffix == suffix_shift(p@, i as int));
            assert(by_char == char_shift(p@, t@, ws as int, i as int));
            let shift = if by_char > by_suffix {
                by_char
            } else {
                by_suffix
            };
            let still_known = if by_suffix >= by_char && i + 1 < m && by_suffix >= i + 1 {
                m - by_suffix
            } else {
                0
            };
            proof {
                assert forall|s: int| 0 <= s < shift implies !occurs_at(
                    p@,
                    t@,
                    #[trigger] (ws + s),
                ) by {
                    if s < by_char {
                        lemma_char_shift_safe(p@, t@, ws as int, i as int, s);
                    } else {
                        lemma_suffix_shift_safe(p@, t@, ws as int, i as int, s);
                    }
                }
                lemma_skip(p@, t@, ws as int, shift as int);
                assert forall|x: int| 0 <= x < still_known implies ws + shift + x < n
                    && #[trigger] same_at(p@, t@, ws + shift, x) by {
                    lemma_known_after_shift(p@, t@, ws as int, i as int, x);
                }
            }
            ws += shift;
            known = still_known;
        }
    }
    proof {
        assert(anchors_from(p@, t@, ws as int) =~= Seq::<int>::empty());
        assert(ends_of(matches@) + Seq::<int>::empty() =~= ends_of(matches@));
        assert forall|x: int, y: int| 0 <= x < y < matches@.len() implies matches@[x]
            < matches@[y] by {
            assert(ends_of(matches@)[x] == matches@[x]);
            assert(ends_of(matches@)[y] == matches@[y]);
        }
    }
    matches
}

} // verus!
