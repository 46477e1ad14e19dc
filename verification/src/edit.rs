//! Edit distances between words and lines.

use vstd::prelude::*;
use crate::chars::chars_of;

verus! {

/// Cost of aligning `x` with `y`: free when equal, one substitution otherwise.
pub open spec fn sub_cost(x: char, y: char) -> nat {
    if x == y { 0 } else { 1 }
}

pub open spec fn min3(x: nat, y: nat, z: nat) -> nat {
    if x <= y && x <= z { x } else if y <= z { y } else { z }
}

/// Levenshtein distance between the first `i` characters of `a` and the
/// first `j` characters of `b` (unit-cost insertion, deletion, substitution).
pub open spec fn prefix_distance(a: Seq<char>, b: Seq<char>, i: nat, j: nat) -> nat
    decreases i + j,
{
    if i == 0 {
        j
    } else if j == 0 {
        i
    } else {
        min3(
            prefix_distance(a, b, (i - 1) as nat, j) + 1,
            prefix_distance(a, b, i, (j - 1) as nat) + 1,
            prefix_distance(a, b, (i - 1) as nat, (j - 1) as nat) + sub_cost(a[i - 1], b[j - 1]),
        )
    }
}

/// Levenshtein distance between `a` and `b`.
pub open spec fn edit_distance(a: Seq<char>, b: Seq<char>) -> nat {
    prefix_distance(a, b, a.len(), b.len())
}

/// The distance between two prefixes never exceeds the longer one.
pub proof fn lemma_prefix_distance_bound(a: Seq<char>, b: Seq<char>, i: nat, j: nat)
    ensures
        prefix_distance(a, b, i, j) <= if i <= j { j } else { i },
    decreases i + j,
{
    if i > 0 && j > 0 {
        lemma_prefix_distance_bound(a, b, (i - 1) as nat, (j - 1) as nat);
    }
}

/// Char-level Levenshtein distance (lines are short; O(n·m) is fine).
pub fn levenshtein(a: &str, b: &str) -> (d: usize)
    ensures
        d == edit_distance(a@, b@),
{
    let av = chars_of(a);
    let bv = chars_of(b);
    let n = av.len();
    let m = bv.len();
    let ghost sa = a@;
    let ghost sb = b@;
    let mut prev: Vec<usize> = Vec::new();
    let mut j: usize = 0;
    while j <= m
        invariant
            m <= isize::MAX,
            j <= m + 1,
            prev.len() == j,
            forall|k: int| 0 <= k < j ==> prev[k] == k,
        decreases m + 1 - j,
    {
        prev.push(j);
        j = j + 1;
    }
    assert forall|k: int| 0 <= k <= m implies prev[k] == prefix_distance(sa, sb, 0, k as nat) by {}
    let mut cur: Vec<usize> = vec![0usize; m + 1];
    let mut i: usize = 0;
    while i < n
        invariant
            n == av.len(),
            m == bv.len(),
            av@ == sa,
            bv@ == sb,
            n <= isize::MAX,
            m <= isize::MAX,
            i <= n,
            prev.len() == m + 1,
            cur.len() == m + 1,
            forall|k: int| 0 <= k <= m ==> prev[k] == prefix_distance(sa, sb, i as nat, k as nat),
        decreases n - i,
    {
        cur.set(0, i + 1);
        let mut j: usize = 0;
        while j < m
            invariant
                n == av.len(),
                m == bv.len(),
                av@ == sa,
                bv@ == sb,
                n <= isize::MAX,
                m <= isize::MAX,
                i < n,
                j <= m,
                prev.len() == m + 1,
                cur.len() == m + 1,
                forall|k: int| 0 <= k <= m ==> prev[k] == prefix_distance(sa, sb, i as nat, k as nat),
                forall|k: int| 0 <= k <= j ==> cur[k] == prefix_distance(sa, sb, (i + 1) as nat, k as nat),
            decreases m - j,
        {
            proof {
                lemma_prefix_distance_bound(sa, sb, i as nat, (j + 1) as nat);
                lemma_prefix_distance_bound(sa, sb, (i + 1) as nat, j as nat);
                lemma_prefix_distance_bound(sa, sb, i as nat, j as nat);
            }
            let del = prev[j + 1] + 1;
            let ins = cur[j] + 1;
            let cost: usize = if av[i] == bv[j] { 0 } else { 1 };
            let sub = prev[j] + cost;
            let best = if del <= ins && del <= sub {
                del
            } else if ins <= sub {
                ins
            } else {
                sub
            };
            cur.set(j + 1, best);
            j = j + 1;
        }
        let tmp = prev;
        prev = cur;
        cur = tmp;
        i = i + 1;
    }
    prev[m]
}

} // verus!

verus! {

/// `b` is `a` with exactly one character replaced (possibly by itself).
pub open spec fn substitution_of(a: Seq<char>, b: Seq<char>) -> bool {
    a.len() == b.len() && exists|k: int| 0 <= k < a.len() && #[trigger] a.update(k, b[k]) == b
}

/// `b` is `a` with exactly one character deleted.
pub open spec fn deletion_of(a: Seq<char>, b: Seq<char>) -> bool {
    a.len() == b.len() + 1 && exists|k: int| 0 <= k < a.len() && #[trigger] a.remove(k) == b
}

/// `a` and `b` differ by at most one insertion, deletion, or substitution.
pub open spec fn one_edit_apart(a: Seq<char>, b: Seq<char>) -> bool {
    ||| a == b
    ||| substitution_of(a, b)
    ||| deletion_of(a, b)
    ||| deletion_of(b, a)
}

/// Walks two sequences of equal length allowing a single mismatch.
fn one_substitution(a: &Vec<char>, b: &Vec<char>) -> (r: bool)
    requires
        a.len() == b.len(),
    ensures
        r == (a@ == b@ || substitution_of(a@, b@)),
{
    let n = a.len();
    let mut i: usize = 0;
    let mut edits: u8 = 0;
    let ghost mut p: int = 0;
    while i < n
        invariant
            n == a.len(),
            n == b.len(),
            i <= n,
            edits <= 1,
            edits == 0 ==> forall|k: int| 0 <= k < i ==> a[k] == b[k],
            edits == 1 ==> 0 <= p < i && a[p] != b[p] && forall|k: int|
                0 <= k < i && k != p ==> a[k] == b[k],
        decreases n - i,
    {
        if a[i] != b[i] {
            if edits == 1 {
                proof {
                    assert(a@ != b@) by {
                        assert(a@[p] != b@[p]);
                    }
                    assert forall|k: int| 0 <= k < a.len() implies #[trigger] a@.update(k, b@[k])
                        != b@ by {
                        if k == p {
                            assert(a@.update(k, b@[k])[i as int] != b@[i as int]);
                        } else {
                            assert(a@.update(k, b@[k])[p] != b@[p]);
                        }
                    }
                }
                return false;
            }
            edits = 1;
            proof {
                p = i as int;
            }
        }
        i = i + 1;
    }
    proof {
        if edits == 0 {
            assert(a@ =~= b@);
        } else {
            assert(a@.update(p, b@[p]) =~= b@);
        }
    }
    true
}

/// `long` is one character longer than `short`: is `short` obtained from
/// `long` by deleting a single character?
fn one_deletion(long: &Vec<char>, short: &Vec<char>) -> (r: bool)
    requires
        long.len() == short.len() + 1,
    ensures
        r == deletion_of(long@, short@),
{
    let la = long.len();
    let lb = short.len();
    let mut i: usize = 0;
    let mut j: usize = 0;
    let mut edits: u8 = 0;
    let ghost mut p: int = 0;
    while i < la && j < lb
        invariant
            la == long.len(),
            lb == short.len(),
            la == lb + 1,
            i <= la,
            j <= lb,
            edits <= 1,
            edits == 0 ==> i == j && forall|k: int| 0 <= k < i ==> long[k] == short[k],
            edits == 1 ==> i == j + 1 && 0 <= p <= j && long[p] != short[p] && (forall|k: int|
                0 <= k < p ==> long[k] == short[k]) && (forall|k: int|
                p <= k < j ==> long[k + 1] == short[k]),
        decreases la + lb - i - j,
    {
        if long[i] == short[j] {
            i = i + 1;
            j = j + 1;
        } else {
            if edits == 1 {
                proof {
                    assert forall|k: int| 0 <= k < long.len() implies #[trigger] long@.remove(k)
                        != short@ by {
                        if k > j {
                            assert(long@.remove(k)[p] != short@[p]);
                        } else {
                            assert(long@.remove(k)[j as int] != short@[j as int]);
                        }
                    }
                }
                return false;
            }
            edits = 1;
            proof {
                p = i as int;
            }
            i = i + 1;
        }
    }
    proof {
        if edits == 0 {
            assert(long@.remove(lb as int) =~= short@);
        } else {
            assert(long@.remove(p) =~= short@);
        }
    }
    true
}

/// True if `a` and `b` differ by at most one insertion, deletion, or
/// substitution. Linear in the word lengths.
pub fn within_one_edit(a: &str, b: &str) -> (r: bool)
    ensures
        r == one_edit_apart(a@, b@),
{
    let av = chars_of(a);
    let bv = chars_of(b);
    let la = av.len();
    let lb = bv.len();
    if la == lb {
        one_substitution(&av, &bv)
    } else if la == lb + 1 {
        one_deletion(&av, &bv)
    } else if lb == la + 1 {
        one_deletion(&bv, &av)
    } else {
        false
    }
}


/// The distance between prefixes is the same in either direction.
pub proof fn lemma_prefix_distance_symmetric(a: Seq<char>, b: Seq<char>, i: nat, j: nat)
    ensures
        prefix_distance(a, b, i, j) == prefix_distance(b, a, j, i),
    decreases i + j,
{
    if i > 0 && j > 0 {
        lemma_prefix_distance_symmetric(a, b, (i - 1) as nat, j);
        lemma_prefix_distance_symmetric(a, b, i, (j - 1) as nat);
        lemma_prefix_distance_symmetric(a, b, (i - 1) as nat, (j - 1) as nat);
    }
}

/// Prefixes that agree character by character are at distance zero.
pub proof fn lemma_agreeing_prefixes(a: Seq<char>, b: Seq<char>, i: nat)
    requires
        i <= a.len(),
        i <= b.len(),
        forall|m: int| 0 <= m < i ==> a[m] == b[m],
    ensures
        prefix_distance(a, b, i, i) == 0,
    decreases i,
{
    if i > 0 {
        lemma_agreeing_prefixes(a, b, (i - 1) as nat);
    }
}

/// Prefixes at distance zero are equal.
pub proof fn lemma_distance_zero(a: Seq<char>, b: Seq<char>, i: nat, j: nat)
    requires
        i <= a.len(),
        j <= b.len(),
        prefix_distance(a, b, i, j) == 0,
    ensures
        i == j,
        a.take(i as int) == b.take(j as int),
    decreases i + j,
{
    if i == 0 || j == 0 {
        assert(a.take(i as int) =~= b.take(j as int));
    } else {
        lemma_distance_zero(a, b, (i - 1) as nat, (j - 1) as nat);
        assert(a.take(i as int) =~= a.take(i - 1).push(a[i - 1]));
        assert(b.take(j as int) =~= b.take(j - 1).push(b[j - 1]));
    }
}

/// Appending the same character to both sides keeps them one edit apart.
pub proof fn lemma_one_edit_push(x: Seq<char>, y: Seq<char>, c: char)
    requires
        one_edit_apart(x, y),
    ensures
        one_edit_apart(x.push(c), y.push(c)),
{
    if x == y {
    } else if substitution_of(x, y) {
        let k = choose|k: int| 0 <= k < x.len() && #[trigger] x.update(k, y[k]) == y;
        assert(x.push(c).update(k, y.push(c)[k]) =~= y.push(c));
    } else if deletion_of(x, y) {
        let k = choose|k: int| 0 <= k < x.len() && #[trigger] x.remove(k) == y;
        assert(x.push(c).remove(k) =~= y.push(c));
    } else {
        let k = choose|k: int| 0 <= k < y.len() && #[trigger] y.remove(k) == x;
        assert(y.push(c).remove(k) =~= x.push(c));
    }
}

/// Prefixes at distance at most one are one edit apart.
pub proof fn lemma_distance_at_most_one(a: Seq<char>, b: Seq<char>, i: nat, j: nat)
    requires
        i <= a.len(),
        j <= b.len(),
        prefix_distance(a, b, i, j) <= 1,
    ensures
        one_edit_apart(a.take(i as int), b.take(j as int)),
    decreases i + j,
{
    let ai = a.take(i as int);
    let bj = b.take(j as int);
    if i == 0 && j == 0 {
        assert(ai =~= bj);
    } else if i == 0 {
        assert(bj.remove(0) =~= ai);
    } else if j == 0 {
        assert(ai.remove(0) =~= bj);
    } else if prefix_distance(a, b, (i - 1) as nat, j) == 0 {
        lemma_distance_zero(a, b, (i - 1) as nat, j);
        assert(ai.remove(i - 1) =~= bj);
    } else if prefix_distance(a, b, i, (j - 1) as nat) == 0 {
        lemma_distance_zero(a, b, i, (j - 1) as nat);
        assert(bj.remove(j - 1) =~= ai);
    } else if a[i - 1] != b[j - 1] {
        lemma_distance_zero(a, b, (i - 1) as nat, (j - 1) as nat);
        assert(ai.update(i - 1, bj[i - 1]) =~= bj);
    } else {
        lemma_distance_at_most_one(a, b, (i - 1) as nat, (j - 1) as nat);
        lemma_one_edit_push(a.take(i - 1), b.take(j - 1), a[i - 1]);
        assert(ai =~= a.take(i - 1).push(a[i - 1]));
        assert(bj =~= b.take(j - 1).push(a[i - 1]));
    }
}

/// A single substitution at `k` costs at most one edit on every longer
/// diagonal prefix.
proof fn lemma_substitution_distance(a: Seq<char>, b: Seq<char>, k: int, i: nat)
    requires
        a.len() == b.len(),
        0 <= k < i <= a.len(),
        forall|m: int| 0 <= m < a.len() && m != k ==> a[m] == b[m],
    ensures
        prefix_distance(a, b, i, i) <= 1,
    decreases i,
{
    if i == k + 1 {
        lemma_agreeing_prefixes(a, b, k as nat);
    } else {
        lemma_substitution_distance(a, b, k, (i - 1) as nat);
    }
}

/// Deleting the character at `k` costs at most one edit on every prefix
/// that contains it.
proof fn lemma_deletion_distance(a: Seq<char>, b: Seq<char>, k: int, i: nat)
    requires
        a.len() == b.len() + 1,
        0 <= k < i <= a.len(),
        a.remove(k) == b,
    ensures
        prefix_distance(a, b, i, (i - 1) as nat) <= 1,
    decreases i,
{
    if i == k + 1 {
        assert forall|m: int| 0 <= m < k implies a[m] == b[m] by {
            assert(a.remove(k)[m] == a[m]);
        }
        lemma_agreeing_prefixes(a, b, k as nat);
    } else {
        lemma_deletion_distance(a, b, k, (i - 1) as nat);
        assert(a.remove(k)[i - 2] == a[i - 1]);
    }
}

/// Two words are within one insertion, deletion or substitution exactly
/// when their Levenshtein distance is at most one: the echo filter's
/// fuzzy word match agrees with the corrector's edit distance.
pub proof fn law_one_edit_iff_distance_at_most_one(a: Seq<char>, b: Seq<char>)
    ensures
        one_edit_apart(a, b) <==> edit_distance(a, b) <= 1,
{
    if edit_distance(a, b) <= 1 {
        lemma_distance_at_most_one(a, b, a.len(), b.len());
        assert(a.take(a.len() as int) =~= a);
        assert(b.take(b.len() as int) =~= b);
    }
    if a == b {
        lemma_agreeing_prefixes(a, b, a.len());
    } else if substitution_of(a, b) {
        let k = choose|k: int| 0 <= k < a.len() && #[trigger] a.update(k, b[k]) == b;
        assert forall|m: int| 0 <= m < a.len() && m != k implies a[m] == b[m] by {
            assert(a.update(k, b[k])[m] == a[m]);
        }
        lemma_substitution_distance(a, b, k, a.len());
    } else if deletion_of(a, b) {
        let k = choose|k: int| 0 <= k < a.len() && #[trigger] a.remove(k) == b;
        lemma_deletion_distance(a, b, k, a.len());
    } else if deletion_of(b, a) {
        let k = choose|k: int| 0 <= k < b.len() && #[trigger] b.remove(k) == a;
        lemma_deletion_distance(b, a, k, b.len());
        lemma_prefix_distance_symmetric(a, b, a.len(), b.len());
    }
}

} // verus!
