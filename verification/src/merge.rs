//! The directional merge/compaction algorithm on one row or column vector.
//!
//! The core operation always compacts toward index 0 of the vector; the four
//! play directions are obtained by the caller's choice of read order.

use vstd::prelude::*;

verus! {

/// The cells of a row as mathematical integers.
pub open spec fn row_view(v: Vec<u128>) -> Seq<int> {
    Seq::new(v@.len() as nat, |i: int| v@[i] as int)
}

/// Sum of a sequence of integers.
pub open spec fn sum(s: Seq<int>) -> int
    decreases s.len(),
{
    if s.len() == 0 {
        0
    } else {
        s[0] + sum(s.skip(1))
    }
}

/// All entries of the sequence are at least `b`.
pub open spec fn all_at_least(s: Seq<int>, b: int) -> bool {
    forall|i: int| 0 <= i < s.len() ==> s[i] >= b
}

/// The compaction step: drop all zero entries, preserving the relative order
/// of the non-zero entries.
pub open spec fn compact(s: Seq<int>) -> Seq<int>
    decreases s.len(),
{
    if s.len() == 0 {
        Seq::empty()
    } else if s[0] == 0 {
        compact(s.skip(1))
    } else {
        seq![s[0]] + compact(s.skip(1))
    }
}

/// The merge step on an already compacted sequence: a single left-to-right
/// pass in which the leftmost equal pair combines into one cell of double the
/// value, and a freshly doubled cell never merges again on the same pass
/// (a chain of three equal values merges only its first pair).
pub open spec fn merge_pairs(s: Seq<int>) -> Seq<int>
    decreases s.len(),
{
    if s.len() <= 1 {
        s
    } else if s[0] == s[1] {
        seq![2 * s[0]] + merge_pairs(s.skip(2))
    } else {
        seq![s[0]] + merge_pairs(s.skip(1))
    }
}

/// The score contributed by one merge pass: the sum of the doubled values.
pub open spec fn merge_score(s: Seq<int>) -> int
    decreases s.len(),
{
    if s.len() <= 1 {
        0
    } else if s[0] == s[1] {
        2 * s[0] + merge_score(s.skip(2))
    } else {
        merge_score(s.skip(1))
    }
}

/// Pad on the right with zeros up to length `n`.
pub open spec fn pad_zeros(s: Seq<int>, n: nat) -> Seq<int> {
    if s.len() >= n {
        s
    } else {
        s + Seq::new((n - s.len()) as nat, |i: int| 0)
    }
}

/// What a whole row of length `n` becomes: compacted, merged once, padded.
pub open spec fn merge_full(s: Seq<int>, n: nat) -> Seq<int> {
    pad_zeros(merge_pairs(compact(s)), n)
}

pub proof fn lemma_sum_empty()
    ensures
        sum(Seq::<int>::empty()) == 0,
{
}

pub proof fn lemma_sum_singleton(x: int)
    ensures
        sum(seq![x]) == x,
{
    assert(seq![x].skip(1) =~= Seq::<int>::empty());
    lemma_sum_empty();
}

/// Unfold the sum over the first two entries.
pub proof fn lemma_sum_two_prefix(s: Seq<int>)
    requires
        s.len() >= 2,
    ensures
        sum(s) == s[0] + s[1] + sum(s.skip(2)),
{
    assert(s.skip(1).skip(1) =~= s.skip(2));
    assert(s.skip(1)[0] == s[1]);
    assert(sum(s.skip(1)) == s.skip(1)[0] + sum(s.skip(1).skip(1)));
}

proof fn lemma_skip_of_push(s: Seq<int>, x: int, k: int)
    requires
        0 <= k <= s.len(),
    ensures
        s.push(x).skip(k) == s.skip(k).push(x),
{
    assert(s.push(x).skip(k) =~= s.skip(k).push(x));
}

/// Compacting a sequence extended by one entry appends that entry when it is
/// non-zero and changes nothing when it is zero.
pub proof fn lemma_compact_push(s: Seq<int>, x: int)
    ensures
        compact(s.push(x)) == if x == 0 {
            compact(s)
        } else {
            compact(s).push(x)
        },
    decreases s.len(),
{
    if s.len() == 0 {
        assert(s.push(x).skip(1) =~= Seq::<int>::empty());
        assert(compact(Seq::<int>::empty()) == Seq::<int>::empty());
        if x != 0 {
            assert(compact(s.push(x)) == seq![x] + Seq::<int>::empty());
            assert(seq![x] + Seq::<int>::empty() =~= compact(s).push(x));
        }
    } else {
        lemma_skip_of_push(s, x, 1);
        lemma_compact_push(s.skip(1), x);
        assert(s.push(x)[0] == s[0]);
        if s[0] == 0 {
            assert(compact(s.push(x)) == compact(s.skip(1).push(x)));
        } else {
            if x == 0 {
                assert(compact(s.push(x)) == seq![s[0]] + compact(s.skip(1)));
            } else {
                assert(seq![s[0]] + compact(s.skip(1)).push(x) =~= (seq![s[0]]
                    + compact(s.skip(1))).push(x));
            }
        }
    }
}

/// Compaction keeps at most as many entries as it was given.
pub proof fn lemma_compact_len(s: Seq<int>)
    ensures
        compact(s).len() <= s.len(),
    decreases s.len(),
{
    if s.len() > 0 {
        lemma_compact_len(s.skip(1));
    }
}

/// Every entry of a compacted sequence of non-negative entries is positive.
pub proof fn lemma_compact_pos(s: Seq<int>)
    requires
        all_at_least(s, 0),
    ensures
        all_at_least(compact(s), 1),
    decreases s.len(),
{
    if s.len() > 0 {
        assert(all_at_least(s.skip(1), 0));
        lemma_compact_pos(s.skip(1));
        if s[0] != 0 {
            assert forall|i: int| 0 <= i < compact(s).len() implies compact(s)[i] >= 1 by {
                if i > 0 {
                    assert(compact(s)[i] == compact(s.skip(1))[i - 1]);
                }
            }
        }
    }
}

pub proof fn lemma_sum_concat(a: Seq<int>, b: Seq<int>)
    ensures
        sum(a + b) == sum(a) + sum(b),
    decreases a.len(),
{
    if a.len() == 0 {
        assert(a + b =~= b);
    } else {
        assert((a + b).skip(1) =~= a.skip(1) + b);
        lemma_sum_concat(a.skip(1), b);
    }
}

/// Compaction conserves the sum of the entries.
pub proof fn lemma_compact_sum(s: Seq<int>)
    ensures
        sum(compact(s)) == sum(s),
    decreases s.len(),
{
    if s.len() > 0 {
        lemma_compact_sum(s.skip(1));
        if s[0] != 0 {
            lemma_sum_concat(seq![s[0]], compact(s.skip(1)));
            lemma_sum_singleton(s[0]);
        }
    }
}

/// One merge pass conserves the sum of the entries: two merged cells of value
/// `k` become one cell of value `2 * k`.
pub proof fn lemma_merge_pairs_sum(s: Seq<int>)
    ensures
        sum(merge_pairs(s)) == sum(s),
    decreases s.len(),
{
    if s.len() <= 1 {
    } else if s[0] == s[1] {
        lemma_merge_pairs_sum(s.skip(2));
        lemma_sum_concat(seq![2 * s[0]], merge_pairs(s.skip(2)));
        lemma_sum_singleton(2 * s[0]);
        lemma_sum_two_prefix(s);
    } else {
        lemma_merge_pairs_sum(s.skip(1));
        lemma_sum_concat(seq![s[0]], merge_pairs(s.skip(1)));
        lemma_sum_singleton(s[0]);
    }
}

/// The score of one merge pass is non-negative and at most the sum of the
/// entries, for non-negative entries.
pub proof fn lemma_merge_score_bounds(s: Seq<int>)
    requires
        all_at_least(s, 0),
    ensures
        0 <= merge_score(s) <= sum(s),
    decreases s.len(),
{
    if s.len() <= 1 {
        if s.len() == 1 {
            assert(s.skip(1) =~= Seq::<int>::empty());
            lemma_sum_empty();
            assert(sum(s) == s[0] + sum(s.skip(1)));
        }
    } else if s[0] == s[1] {
        assert(all_at_least(s.skip(2), 0));
        lemma_merge_score_bounds(s.skip(2));
        lemma_sum_two_prefix(s);
    } else {
        assert(all_at_least(s.skip(1), 0));
        lemma_merge_score_bounds(s.skip(1));
        assert(sum(s) == s[0] + sum(s.skip(1)));
    }
}

/// One merge pass keeps at most as many entries as it was given.
pub proof fn lemma_merge_pairs_len(s: Seq<int>)
    ensures
        merge_pairs(s).len() <= s.len(),
        s.len() > 0 ==> merge_pairs(s).len() > 0,
    decreases s.len(),
{
    if s.len() <= 1 {
    } else if s[0] == s[1] {
        lemma_merge_pairs_len(s.skip(2));
    } else {
        lemma_merge_pairs_len(s.skip(1));
    }
}

/// A value is a power of two reachable in play: `2, 4, 8, ...`.
pub open spec fn is_pow2(v: int) -> bool
    decreases v,
{
    if v < 2 {
        false
    } else if v == 2 {
        true
    } else {
        v % 2 == 0 && is_pow2(v / 2)
    }
}

/// A legal cell value: empty, or a power of two of at least 2.
pub open spec fn is_tile(v: int) -> bool {
    v == 0 || is_pow2(v)
}

/// All entries of the sequence are legal cell values.
pub open spec fn all_tiles(s: Seq<int>) -> bool {
    forall|i: int| 0 <= i < s.len() ==> is_tile(#[trigger] s[i])
}

pub proof fn lemma_pow2_double(v: int)
    requires
        is_pow2(v),
    ensures
        is_pow2(2 * v),
{
    assert(2 * v > 2);
    assert((2 * v) % 2 == 0);
    assert((2 * v) / 2 == v);
}

/// Compaction of legal cells yields powers of two only.
pub proof fn lemma_compact_tiles(s: Seq<int>)
    requires
        all_tiles(s),
    ensures
        forall|i: int| 0 <= i < compact(s).len() ==> is_pow2(#[trigger] compact(s)[i]),
    decreases s.len(),
{
    if s.len() > 0 {
        assert(all_tiles(s.skip(1)));
        lemma_compact_tiles(s.skip(1));
        if s[0] != 0 {
            assert(is_tile(s[0]));
            assert forall|i: int| 0 <= i < compact(s).len() implies is_pow2(compact(s)[i]) by {
                if i > 0 {
                    assert(compact(s)[i] == compact(s.skip(1))[i - 1]);
                }
            }
        }
    }
}

/// A merge pass on powers of two yields powers of two.
pub proof fn lemma_merge_pairs_pow2(s: Seq<int>)
    requires
        forall|i: int| 0 <= i < s.len() ==> is_pow2(#[trigger] s[i]),
    ensures
        forall|i: int| 0 <= i < merge_pairs(s).len() ==> is_pow2(#[trigger] merge_pairs(s)[i]),
    decreases s.len(),
{
    if s.len() <= 1 {
    } else if s[0] == s[1] {
        assert(forall|i: int| 0 <= i < s.skip(2).len() ==> is_pow2(#[trigger] s.skip(2)[i]));
        lemma_merge_pairs_pow2(s.skip(2));
        lemma_pow2_double(s[0]);
        assert forall|i: int| 0 <= i < merge_pairs(s).len() implies is_pow2(merge_pairs(s)[i]) by {
            if i > 0 {
                assert(merge_pairs(s)[i] == merge_pairs(s.skip(2))[i - 1]);
            }
        }
    } else {
        assert(forall|i: int| 0 <= i < s.skip(1).len() ==> is_pow2(#[trigger] s.skip(1)[i]));
        lemma_merge_pairs_pow2(s.skip(1));
        assert forall|i: int| 0 <= i < merge_pairs(s).len() implies is_pow2(merge_pairs(s)[i]) by {
            if i > 0 {
                assert(merge_pairs(s)[i] == merge_pairs(s.skip(1))[i - 1]);
            }
        }
    }
}

/// A full row operation takes legal cells to legal cells.
pub proof fn lemma_merge_full_tiles(s: Seq<int>, n: nat)
    requires
        all_tiles(s),
    ensures
        all_tiles(merge_full(s, n)),
{
    lemma_compact_tiles(s);
    lemma_merge_pairs_pow2(compact(s));
}

pub proof fn lemma_sum_zeros(n: nat)
    ensures
        sum(Seq::new(n, |i: int| 0int)) == 0,
    decreases n,
{
    if n > 0 {
        assert(Seq::new(n, |i: int| 0int).skip(1) =~= Seq::new((n - 1) as nat, |i: int| 0int));
        lemma_sum_zeros((n - 1) as nat);
    }
}

/// The full row operation conserves the sum of the cells: compaction drops
/// only zeros, merges turn `k + k` into `2 * k`, padding adds zeros.
pub proof fn lemma_merge_full_sum(s: Seq<int>, n: nat)
    ensures
        sum(merge_full(s, n)) == sum(s),
{
    lemma_compact_sum(s);
    lemma_merge_pairs_sum(compact(s));
    let m = merge_pairs(compact(s));
    if m.len() < n {
        lemma_sum_concat(m, Seq::new((n - m.len()) as nat, |i: int| 0));
        lemma_sum_zeros((n - m.len()) as nat);
    }
}

/// The length of a full row operation's result: `n` whenever the input is no
/// longer than `n`.
pub proof fn lemma_merge_full_len(s: Seq<int>, n: nat)
    requires
        s.len() <= n,
    ensures
        merge_full(s, n).len() == n,
{
    lemma_compact_len(s);
    lemma_merge_pairs_len(compact(s));
}

/// A row on which a merge pass can do nothing: its zeros form a suffix and no
/// two adjacent non-zero cells are equal.
pub open spec fn is_settled(s: Seq<int>) -> bool {
    (forall|i: int, j: int| 0 <= i < j < s.len() && #[trigger] s[i] == 0 ==> #[trigger] s[j] == 0)
        && (forall|i: int| 0 <= i && i + 1 < s.len() ==> (#[trigger] s[i] == 0 || s[i] != s[i + 1]))
}

/// No two adjacent entries are equal.
pub open spec fn no_adjacent_equal(s: Seq<int>) -> bool {
    forall|i: int| 0 <= i && i + 1 < s.len() ==> #[trigger] s[i] != s[i + 1]
}

proof fn lemma_merge_pairs_no_adjacent(s: Seq<int>)
    requires
        no_adjacent_equal(s),
    ensures
        merge_pairs(s) == s,
        merge_score(s) == 0,
    decreases s.len(),
{
    if s.len() <= 1 {
    } else {
        assert(s[0] != s[1]);
        assert(no_adjacent_equal(s.skip(1)));
        lemma_merge_pairs_no_adjacent(s.skip(1));
        assert(seq![s[0]] + s.skip(1) =~= s);
    }
}

proof fn lemma_compact_all_zero(s: Seq<int>)
    requires
        forall|i: int| 0 <= i < s.len() ==> s[i] == 0,
    ensures
        compact(s) == Seq::<int>::empty(),
    decreases s.len(),
{
    if s.len() > 0 {
        lemma_compact_all_zero(s.skip(1));
    }
}

/// On a settled row, compaction returns the non-zero prefix unchanged and the
/// rest of the row is zero.
#[verifier::rlimit(50)]
proof fn lemma_settled_compact(s: Seq<int>)
    requires
        is_settled(s),
    ensures
        compact(s) == s.take(compact(s).len() as int),
        forall|j: int| compact(s).len() <= j < s.len() ==> s[j] == 0,
    decreases s.len(),
{
    lemma_compact_len(s);
    if s.len() == 0 {
        assert(compact(s) =~= s.take(0));
    } else if s[0] == 0 {
        assert(forall|j: int| 0 <= j < s.len() ==> s[j] == 0);
        lemma_compact_all_zero(s);
        assert(compact(s) =~= s.take(0));
    } else {
        let t = s.skip(1);
        assert(is_settled(t)) by {
            assert forall|i: int, j: int|
                0 <= i < j < t.len() && #[trigger] t[i] == 0 implies #[trigger] t[j] == 0 by {
                assert(t[i] == s[i + 1]);
                assert(t[j] == s[j + 1]);
            }
            assert forall|i: int| 0 <= i && i + 1 < t.len() implies (#[trigger] t[i] == 0 || t[i]
                != t[i + 1]) by {
                assert(t[i] == s[i + 1]);
                assert(t[i + 1] == s[i + 2]);
            }
        }
        lemma_settled_compact(t);
        let m = compact(t).len() as int;
        assert(compact(s) == seq![s[0]] + compact(t));
        assert(compact(s) =~= s.take(m + 1)) by {
            assert(forall|j: int| 0 <= j < m ==> compact(t)[j] == t.take(m)[j]);
            assert(forall|j: int| 0 <= j < m ==> t.take(m)[j] == s[j + 1]);
        }
        assert(forall|j: int| m + 1 <= j < s.len() ==> s[j] == t[j - 1] && t[j - 1] == 0);
    }
}

/// Merge idempotence of compaction: a row that is already fully compacted and
/// has no equal adjacent pair comes back unchanged and scores nothing.
pub proof fn lemma_merge_settled(s: Seq<int>)
    requires
        all_at_least(s, 0),
        is_settled(s),
    ensures
        merge_full(s, s.len()) == s,
        merge_score(compact(s)) == 0,
{
    lemma_settled_compact(s);
    lemma_compact_pos(s);
    lemma_compact_len(s);
    let c = compact(s);
    let m = c.len() as int;
    assert(c == s.take(m));
    assert(no_adjacent_equal(c)) by {
        assert forall|i: int| 0 <= i && i + 1 < c.len() implies #[trigger] c[i] != c[i + 1] by {
            assert(c[i] == s.take(m)[i]);
            assert(c[i + 1] == s.take(m)[i + 1]);
            assert(s.take(m)[i] == s[i]);
            assert(s.take(m)[i + 1] == s[i + 1]);
            assert(c[i] >= 1);
        }
    }
    lemma_merge_pairs_no_adjacent(c);
    assert(pad_zeros(c, s.len()) =~= s) by {
        assert forall|j: int| 0 <= j < s.len() implies pad_zeros(c, s.len())[j] == s[j] by {
            if j < m {
                assert(pad_zeros(c, s.len())[j] == c[j]);
                assert(c[j] == s.take(m)[j]);
                assert(s.take(m)[j] == s[j]);
            } else {
                assert(pad_zeros(c, s.len())[j] == 0);
                assert(s[j] == 0);
            }
        }
    }
}

/// The merge pass read from the right: the rightmost equal pair of each run
/// merges first.
pub open spec fn merge_pairs_right(s: Seq<int>) -> Seq<int>
    decreases s.len(),
{
    if s.len() <= 1 {
        s
    } else if s[s.len() - 1] == s[s.len() - 2] {
        merge_pairs_right(s.take(s.len() - 2)).push(2 * s[s.len() - 1])
    } else {
        merge_pairs_right(s.take(s.len() - 1)).push(s[s.len() - 1])
    }
}

/// Pad on the left with zeros up to length `n`.
pub open spec fn pad_zeros_front(s: Seq<int>, n: nat) -> Seq<int> {
    if s.len() >= n {
        s
    } else {
        Seq::new((n - s.len()) as nat, |i: int| 0int) + s
    }
}

/// What a row of length `n` becomes under a move toward its end.
pub open spec fn merge_full_right(s: Seq<int>, n: nat) -> Seq<int> {
    pad_zeros_front(merge_pairs_right(compact(s)), n)
}

/// Compaction commutes with reversal.
pub proof fn lemma_compact_reverse(s: Seq<int>)
    ensures
        compact(s.reverse()) == compact(s).reverse(),
    decreases s.len(),
{
    if s.len() == 0 {
        assert(s.reverse() =~= s);
        assert(compact(s).reverse() =~= compact(s));
    } else {
        let d = s.drop_last();
        let x = s.last();
        lemma_compact_reverse(d);
        assert(s.reverse() =~= seq![x] + d.reverse());
        assert((seq![x] + d.reverse()).skip(1) =~= d.reverse());
        assert(s =~= d.push(x));
        lemma_compact_push(d, x);
        if x == 0 {
            assert(compact(s.reverse()) == compact(d.reverse()));
        } else {
            assert(compact(s.reverse()) == seq![x] + compact(d.reverse()));
            assert(seq![x] + compact(d).reverse() =~= compact(d).push(x).reverse());
        }
    }
}

/// A merge pass on the reversed row is the right-handed merge pass, reversed.
pub proof fn lemma_merge_pairs_rev_aux(s: Seq<int>)
    ensures
        merge_pairs(s.reverse()) == merge_pairs_right(s).reverse(),
    decreases s.len(),
{
    if s.len() <= 1 {
        assert(s.reverse() =~= s);
        assert(merge_pairs_right(s).reverse() =~= merge_pairs(s.reverse()));
    } else {
        let r = s.reverse();
        assert(r[0] == s[s.len() - 1]);
        assert(r[1] == s[s.len() - 2]);
        if s[s.len() - 1] == s[s.len() - 2] {
            let t = s.take(s.len() - 2);
            assert(r.skip(2) =~= t.reverse());
            lemma_merge_pairs_rev_aux(t);
            assert(merge_pairs(r) == seq![2 * r[0]] + merge_pairs_right(t).reverse());
            assert(seq![2 * r[0]] + merge_pairs_right(t).reverse() =~= merge_pairs_right(
                t,
            ).push(2 * s[s.len() - 1]).reverse());
        } else {
            let t = s.take(s.len() - 1);
            assert(r.skip(1) =~= t.reverse());
            lemma_merge_pairs_rev_aux(t);
            assert(merge_pairs(r) == seq![r[0]] + merge_pairs_right(t).reverse());
            assert(seq![r[0]] + merge_pairs_right(t).reverse() =~= merge_pairs_right(t).push(
                s[s.len() - 1],
            ).reverse());
        }
    }
}

/// The score of a merge pass is the same read from either side.
pub proof fn lemma_merge_score_rev_aux(s: Seq<int>)
    ensures
        merge_score(s.reverse()) == merge_score_right(s),
    decreases s.len(),
{
    if s.len() <= 1 {
        assert(s.reverse() =~= s);
    } else {
        let r = s.reverse();
        assert(r[0] == s[s.len() - 1]);
        assert(r[1] == s[s.len() - 2]);
        if s[s.len() - 1] == s[s.len() - 2] {
            let t = s.take(s.len() - 2);
            assert(r.skip(2) =~= t.reverse());
            lemma_merge_score_rev_aux(t);
        } else {
            let t = s.take(s.len() - 1);
            assert(r.skip(1) =~= t.reverse());
            lemma_merge_score_rev_aux(t);
        }
    }
}

/// The score of the right-handed merge pass.
pub open spec fn merge_score_right(s: Seq<int>) -> int
    decreases s.len(),
{
    if s.len() <= 1 {
        0
    } else if s[s.len() - 1] == s[s.len() - 2] {
        2 * s[s.len() - 1] + merge_score_right(s.take(s.len() - 2))
    } else {
        merge_score_right(s.take(s.len() - 1))
    }
}

/// Left/right symmetry: merging toward the end of a row is exactly
/// reverse, merge toward the start, reverse again — with the same score.
pub proof fn lemma_merge_full_right_by_reversal(s: Seq<int>, n: nat)
    ensures
        merge_full_right(s, n) == merge_full(s.reverse(), n).reverse(),
        merge_score_right(compact(s)) == merge_score(compact(s.reverse())),
{
    lemma_compact_reverse(s);
    lemma_merge_pairs_rev_aux(compact(s));
    lemma_merge_score_rev_aux(compact(s));
    assert(compact(s).reverse().reverse() =~= compact(s));
    let u = merge_pairs_right(compact(s));
    assert(merge_pairs(compact(s.reverse())) == u.reverse());
    assert(pad_zeros(u.reverse(), n).reverse() =~= pad_zeros_front(u, n));
}

/// Decide whether a value is a legal cell value: empty, or a power of two of
/// at least 2.
pub fn tile_is_legal(v: u128) -> (r: bool)
    ensures
        r == is_tile(v as int),
{
    if v == 0 {
        return true;
    }
    let mut x = v;
    while x > 2 && x % 2 == 0
        invariant
            x >= 1,
            is_pow2(v as int) == is_pow2(x as int),
        decreases x,
    {
        proof {
            assert(x as int / 2 == (x / 2) as int);
        }
        x = x / 2;
    }
    x == 2
}

/// Compact a row toward index 0, merge the leftmost equal pair of each run
/// once, pad with zeros on the right, and report the score gained.
///
/// The precondition is a machine limit: the score gained and every doubled
/// cell are bounded by the sum of the entries, so that sum must fit in the
/// score's type.
pub fn merge_row(v: &Vec<u128>) -> (res: (Vec<u128>, u128))
    requires
        sum(row_view(*v)) <= u128::MAX,
    ensures
        row_view(res.0) == merge_full(row_view(*v), v@.len() as nat),
        res.0@.len() == v@.len(),
        res.1 as int == merge_score(compact(row_view(*v))),
{
    let ghost s = row_view(*v);
    let ghost c = compact(s);
    proof {
        assert(all_at_least(s, 0));
        lemma_compact_pos(s);
        lemma_compact_sum(s);
        lemma_compact_len(s);
        lemma_merge_pairs_len(c);
        lemma_merge_score_bounds(c);
        assert(s.skip(0) =~= s);
    }
    let n = v.len();
    let mut out: Vec<u128> = Vec::new();
    let mut delta: u128 = 0;
    let mut merged: bool = false;
    let mut i: usize = 0;
    let ghost mut k: int = 0;

    while i < n
        invariant
            n == s.len(),
            s == row_view(*v),
            c == compact(s),
            all_at_least(c, 1),
            sum(c) <= u128::MAX,
            0 <= merge_score(c) <= sum(c),
            i <= n,
            0 <= k <= c.len(),
            c.skip(k) == compact(s.skip(i as int)),
            merged ==> row_view(out).len() > 0 && merge_pairs(c) == row_view(out) + merge_pairs(
                c.skip(k),
            ) && merge_score(c) == delta + merge_score(c.skip(k)),
            !merged && row_view(out).len() > 0 ==> merge_pairs(c) == row_view(out).drop_last()
                + merge_pairs(seq![row_view(out).last()] + c.skip(k)) && merge_score(c) == delta
                + merge_score(seq![row_view(out).last()] + c.skip(k)),
            row_view(out).len() == 0 ==> !merged && delta == 0 && k == 0,
        decreases n - i,
    {
        let qv = v[i];
        if qv != 0 {
            proof {
                assert(s.skip(i as int)[0] == s[i as int]);
                assert(s[i as int] == qv as int);
                assert(s.skip(i as int).skip(1) =~= s.skip(i as int + 1));
                assert(compact(s.skip(i as int)) == seq![qv as int] + compact(
                    s.skip(i as int + 1),
                ));
                assert(c.skip(k).len() > 0);
                assert(k < c.len());
                assert(c.skip(k)[0] == qv as int);
                assert(c.skip(k).skip(1) =~= c.skip(k + 1));
                assert((seq![qv as int] + compact(s.skip(i as int + 1))).skip(1) =~= compact(
                    s.skip(i as int + 1),
                ));
                assert(c.skip(k + 1) == compact(s.skip(i as int + 1)));
            }
            let mergeable = out.len() > 0 && !merged && out[out.len() - 1] == qv;
            let ghost ov0 = row_view(out);
            let ghost delta0 = delta;
            if mergeable {
                let ghost l = qv as int;
                proof {
                    let ctx = seq![ov0.last()] + c.skip(k);
                    assert(ov0.last() == out@[out@.len() - 1] as int);
                    assert(ov0.last() == l);
                    assert(ctx[0] == l);
                    assert(ctx[1] == c.skip(k)[0]);
                    assert(ctx.skip(2) =~= c.skip(k + 1));
                    assert(merge_pairs(ctx) == seq![2 * l] + merge_pairs(c.skip(k + 1)));
                    assert(merge_score(ctx) == 2 * l + merge_score(c.skip(k + 1)));
                    assert(all_at_least(c.skip(k + 1), 0)) by {
                        assert(forall|j: int|
                            0 <= j < c.skip(k + 1).len() ==> #[trigger] c.skip(k + 1)[j] == c[k + 1
                                + j]);
                    }
                    lemma_merge_score_bounds(c.skip(k + 1));
                    assert(delta0 + 2 * l <= merge_score(c));
                }
                let doubled = qv * 2;
                out.pop();
                out.push(doubled);
                delta = delta + doubled;
                merged = true;
                proof {
                    assert(row_view(out) =~= ov0.drop_last().push(2 * l));
                    assert(row_view(out) + merge_pairs(c.skip(k + 1)) =~= ov0.drop_last() + (seq![2
                        * l] + merge_pairs(c.skip(k + 1))));
                    assert(merge_pairs(c) == row_view(out) + merge_pairs(c.skip(k + 1)));
                    assert(merge_score(c) == delta + merge_score(c.skip(k + 1)));
                    k = k + 1;
                }
            } else {
                let ghost merged0 = merged;
                out.push(qv);
                merged = false;
                proof {
                    assert(row_view(out) =~= ov0.push(qv as int));
                    assert(seq![qv as int] + c.skip(k + 1) =~= c.skip(k));
                    assert(row_view(out).last() == qv as int);
                    assert(row_view(out).drop_last() =~= ov0);
                    if ov0.len() == 0 {
                        assert(k == 0 && delta == 0);
                        assert(c.skip(0) =~= c);
                        assert(row_view(out).drop_last() =~= Seq::<int>::empty());
                        assert(Seq::<int>::empty() + merge_pairs(c) =~= merge_pairs(c));
                        assert(merge_pairs(c) == row_view(out).drop_last() + merge_pairs(
                            seq![row_view(out).last()] + c.skip(k + 1),
                        ));
                        assert(merge_score(c) == delta + merge_score(
                            seq![row_view(out).last()] + c.skip(k + 1),
                        ));
                    } else if merged0 {
                        assert(merge_pairs(c) == ov0 + merge_pairs(c.skip(k)));
                        assert(ov0 + merge_pairs(c.skip(k)) =~= row_view(out).drop_last()
                            + merge_pairs(seq![row_view(out).last()] + c.skip(k + 1)));
                    } else {
                        let l0 = ov0.last();
                        let ctx = seq![l0] + c.skip(k);
                        assert(ctx[0] == l0);
                        assert(ctx[1] == c.skip(k)[0]);
                        assert(ctx[1] == qv as int);
                        assert(l0 == out@[out@.len() - 2] as int);
                        assert(l0 != qv as int);
                        assert(ctx.skip(1) =~= c.skip(k));
                        assert(merge_pairs(ctx) == seq![l0] + merge_pairs(c.skip(k)));
                        assert(merge_score(ctx) == merge_score(c.skip(k)));
                        assert(merge_pairs(c) == ov0.drop_last() + (seq![l0] + merge_pairs(
                            c.skip(k),
                        )));
                        assert(ov0.drop_last() + (seq![l0] + merge_pairs(c.skip(k))) =~= ov0
                            + merge_pairs(c.skip(k)));
                        assert(ov0 + merge_pairs(c.skip(k)) =~= row_view(out).drop_last()
                            + merge_pairs(seq![row_view(out).last()] + c.skip(k + 1)));
                    }
                    k = k + 1;
                }
            }
        } else {
            proof {
                assert(s.skip(i as int)[0] == s[i as int]);
                assert(s[i as int] == 0);
                assert(s.skip(i as int).skip(1) =~= s.skip(i as int + 1));
                assert(compact(s.skip(i as int)) == compact(s.skip(i as int + 1)));
            }
        }
        i = i + 1;
    }
    proof {
        assert(s.skip(n as int) =~= Seq::<int>::empty());
        assert(compact(Seq::<int>::empty()) == Seq::<int>::empty());
        assert(c.skip(k).len() == 0);
        assert(k == c.len());
        assert(c.skip(k) =~= Seq::<int>::empty());
        if merged {
            assert(merge_pairs(c) =~= row_view(out));
        } else if row_view(out).len() > 0 {
            let l0 = row_view(out).last();
            let ctx = seq![l0] + Seq::<int>::empty();
            assert(ctx =~= seq![l0]);
            assert(merge_pairs(seq![l0]) == seq![l0]);
            assert(merge_score(seq![l0]) == 0);
            assert(merge_pairs(c) =~= row_view(out));
        } else {
            assert(c =~= Seq::<int>::empty());
            assert(merge_pairs(c) =~= row_view(out));
        }
        assert(merge_score(c) == delta);
        assert(merge_pairs(c).len() <= n);
    }
    let ghost m = merge_pairs(c);
    proof {
        assert(row_view(out) =~= m + Seq::new((out@.len() - m.len()) as nat, |j: int| 0));
    }
    while out.len() < n
        invariant
            m == merge_pairs(c),
            m.len() <= out@.len() <= n,
            row_view(out) == m + Seq::new((out@.len() - m.len()) as nat, |j: int| 0),
        decreases n - out@.len(),
    {
        let ghost ov0 = row_view(out);
        out.push(0);
        proof {
            assert(row_view(out) =~= ov0.push(0));
            assert(ov0.push(0) =~= m + Seq::new((out@.len() - m.len()) as nat, |j: int| 0));
        }
    }
    proof {
        assert(row_view(out) =~= pad_zeros(m, n as nat));
    }
    (out, delta)
}

} // verus!
