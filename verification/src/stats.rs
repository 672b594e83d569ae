//! Exact aggregation of per-triplet order parameters: sums, truncating
//! averages, and the median of a sequence, all in fixed-point integers.

use vstd::prelude::*;
use vstd::arithmetic::div_mod::{lemma_div_is_ordered, lemma_div_multiples_vanish};
use vstd::seq_lib::lemma_multiset_commutative;

verus! {

/// An exact rational, used for medians: the denominator is `1`, or `2` when
/// two central values are averaged.
#[derive(Clone, Copy, Debug, PartialEq, Eq, Structural)]
pub struct Ratio {
    pub num: i64,
    pub den: i64,
}

/// The sum of a sequence of values, exactly.
pub open spec fn seq_sum(s: Seq<i64>) -> int
    decreases s.len(),
{
    if s.len() == 0 {
        0
    } else {
        seq_sum(s.drop_last()) + s.last()
    }
}

/// Division truncating toward zero, as hardware division does; it agrees
/// with Euclidean division on nonnegative dividends.
pub open spec fn tdiv(a: int, b: int) -> int {
    if a >= 0 {
        a / b
    } else {
        -((-a) / b)
    }
}

/// Sums values that are bounded by one order-parameter unit each.
pub fn sum_values(v: &Vec<i64>) -> (r: i128)
    requires
        forall|i: int| 0 <= i < v@.len() ==> -1_000_000 <= #[trigger] v@[i] <= 1_000_000,
    ensures
        r == seq_sum(v@),
        -1_000_000 * v@.len() <= r <= 1_000_000 * v@.len(),
{
    let mut r: i128 = 0;
    let mut i: usize = 0;
    proof {
        assert(v@.take(0) =~= Seq::<i64>::empty());
    }
    while i < v.len()
        invariant
            i <= v@.len(),
            forall|k: int| 0 <= k < v@.len() ==> -1_000_000 <= #[trigger] v@[k] <= 1_000_000,
            r == seq_sum(v@.take(i as int)),
            -1_000_000 * (i as int) <= r <= 1_000_000 * (i as int),
        decreases v@.len() - i,
    {
        proof {
            assert(v@.take(i as int + 1).drop_last() =~= v@.take(i as int));
            assert(v@.take(i as int + 1).last() == v@[i as int]);
        }
        r = r + v[i] as i128;
        i = i + 1;
    }
    proof {
        assert(v@.take(v@.len() as int) =~= v@);
    }
    r
}

/// The average of `count` summed values bounded by one order-parameter
/// unit each, truncated toward zero.
pub fn average_scaled(sum: i128, count: usize) -> (r: i64)
    requires
        count > 0,
        -1_000_000 * (count as int) <= sum <= 1_000_000 * (count as int),
    ensures
        r == tdiv(sum as int, count as int),
        -1_000_000 <= r <= 1_000_000,
{
    proof {
        if sum >= 0 {
            lemma_div_is_ordered(sum as int, 1_000_000 * (count as int), count as int);
            lemma_div_multiples_vanish(1_000_000, count as int);
            vstd::arithmetic::div_mod::lemma_div_pos_is_pos(sum as int, count as int);
        } else {
            lemma_div_is_ordered(-(sum as int), 1_000_000 * (count as int), count as int);
            lemma_div_multiples_vanish(1_000_000, count as int);
            vstd::arithmetic::div_mod::lemma_div_pos_is_pos(-(sum as int), count as int);
        }
    }
    if sum >= 0 {
        ((sum as u128) / (count as u128)) as i64
    } else {
        -((((-sum) as u128) / (count as u128)) as i64)
    }
}

/// Every run is ascending.
pub open spec fn sorted(s: Seq<i64>) -> bool {
    forall|i: int, j: int| 0 <= i < j < s.len() ==> s[i] <= s[j]
}

/// Insertion of a value into a run kept ascending: before the first larger
/// element.
pub open spec fn insert_sorted(s: Seq<i64>, x: i64) -> Seq<i64>
    decreases s.len(),
{
    if s.len() == 0 {
        seq![x]
    } else if x < s[0] {
        seq![x] + s
    } else {
        seq![s[0]] + insert_sorted(s.drop_first(), x)
    }
}

/// The ascending rearrangement of a sequence, by insertion.
pub open spec fn sort_seq(s: Seq<i64>) -> Seq<i64>
    decreases s.len(),
{
    if s.len() == 0 {
        Seq::empty()
    } else {
        insert_sorted(sort_seq(s.drop_first()), s[0])
    }
}

/// Inserting into an ascending run keeps it ascending, adds the value to
/// the contents, and grows the length by one.
proof fn lemma_insert_sorted_props(s: Seq<i64>, x: i64)
    requires
        sorted(s),
    ensures
        sorted(insert_sorted(s, x)),
        insert_sorted(s, x).to_multiset() == s.to_multiset().insert(x),
        insert_sorted(s, x).len() == s.len() + 1,
    decreases s.len(),
{
    broadcast use vstd::seq_lib::group_to_multiset_ensures;

    let r = insert_sorted(s, x);
    if s.len() == 0 {
        assert(r =~= Seq::<i64>::empty().push(x));
        assert(r.to_multiset() =~= s.to_multiset().insert(x));
    } else if x < s[0] {
        lemma_multiset_commutative(seq![x], s);
        assert(seq![x] =~= Seq::<i64>::empty().push(x));
        assert(r.to_multiset() =~= s.to_multiset().insert(x));
    } else {
        let t = s.drop_first();
        assert forall|i: int, j: int| 0 <= i < j < t.len() implies t[i] <= t[j] by {
            assert(t[i] == s[i + 1] && t[j] == s[j + 1]);
        }
        lemma_insert_sorted_props(t, x);
        let rt = insert_sorted(t, x);
        lemma_multiset_commutative(seq![s[0]], rt);
        lemma_multiset_commutative(seq![s[0]], t);
        assert(seq![s[0]] + t =~= s);
        assert(seq![s[0]] =~= Seq::<i64>::empty().push(s[0]));
        assert(r.to_multiset() =~= s.to_multiset().insert(x));
        // Everything in the tail's insertion is a tail element or `x`,
        // hence at least `s[0]`.
        assert forall|i: int, j: int| 0 <= i < j < r.len() implies r[i] <= r[j] by {
            if i == 0 {
                assert(r[j] == rt[j - 1]);
                assert(rt.contains(rt[j - 1]));
                assert(rt.to_multiset().count(rt[j - 1]) > 0);
                if rt[j - 1] == x {
                    assert(s[0] <= x);
                } else {
                    assert(t.to_multiset().count(rt[j - 1]) > 0);
                    assert(t.contains(rt[j - 1]));
                    let w = choose|w: int| 0 <= w < t.len() && t[w] == rt[j - 1];
                    assert(s[0] <= s[w + 1]);
                }
            } else {
                assert(r[i] == rt[i - 1] && r[j] == rt[j - 1]);
            }
        }
    }
}

/// Sorting yields an ascending run with the same contents and length.
pub proof fn lemma_sort_seq_props(s: Seq<i64>)
    ensures
        sorted(sort_seq(s)),
        sort_seq(s).to_multiset() == s.to_multiset(),
        sort_seq(s).len() == s.len(),
    decreases s.len(),
{
    broadcast use vstd::seq_lib::group_to_multiset_ensures;

    if s.len() > 0 {
        let t = s.drop_first();
        lemma_sort_seq_props(t);
        lemma_insert_sorted_props(sort_seq(t), s[0]);
        lemma_multiset_commutative(seq![s[0]], t);
        assert(seq![s[0]] + t =~= s);
        assert(seq![s[0]] =~= Seq::<i64>::empty().push(s[0]));
        assert(sort_seq(s).to_multiset() =~= s.to_multiset());
    }
}

/// Elements of the sorted run are elements of the input.
proof fn lemma_sort_element_bounds(s: Seq<i64>, lo: int, hi: int)
    requires
        forall|i: int| 0 <= i < s.len() ==> lo <= #[trigger] s[i] <= hi,
    ensures
        forall|i: int| 0 <= i < sort_seq(s).len() ==> lo <= #[trigger] sort_seq(s)[i] <= hi,
{
    broadcast use vstd::seq_lib::group_to_multiset_ensures;

    lemma_sort_seq_props(s);
    let t = sort_seq(s);
    assert forall|i: int| 0 <= i < t.len() implies lo <= #[trigger] t[i] <= hi by {
        assert(t.contains(t[i]));
        assert(t.to_multiset().count(t[i]) > 0);
        assert(s.contains(t[i]));
        let w = choose|w: int| 0 <= w < s.len() && s[w] == t[i];
        assert(lo <= s[w] <= hi);
    }
}

/// Inserting at the first position whose element exceeds the value is the
/// ascending insertion.
proof fn lemma_insert_sorted_at(s: Seq<i64>, x: i64, p: int)
    requires
        0 <= p <= s.len(),
        forall|k: int| 0 <= k < p ==> s[k] <= x,
        p < s.len() ==> x < s[p],
    ensures
        insert_sorted(s, x) == s.insert(p, x),
    decreases s.len(),
{
    if s.len() == 0 {
        assert(insert_sorted(s, x) =~= s.insert(0, x));
    } else if x < s[0] {
        assert(p == 0);
        assert(seq![x] + s =~= s.insert(0, x));
    } else {
        assert(p >= 1);
        let t = s.drop_first();
        assert forall|k: int| 0 <= k < p - 1 implies t[k] <= x by {
            assert(t[k] == s[k + 1]);
        }
        if p - 1 < t.len() {
            assert(t[p - 1] == s[p]);
        }
        lemma_insert_sorted_at(t, x, p - 1);
        assert(seq![s[0]] + t.insert(p - 1, x) =~= s.insert(p, x));
    }
}

/// Inserts a value into an ascending vector, keeping it ascending.
fn insert_value(v: Vec<i64>, x: i64) -> (r: Vec<i64>)
    ensures
        r@ == insert_sorted(v@, x),
{
    let mut v = v;
    let mut p: usize = 0;
    while p < v.len() && v[p] <= x
        invariant
            p <= v@.len(),
            forall|k: int| 0 <= k < p ==> v@[k] <= x,
        decreases v@.len() - p,
    {
        p = p + 1;
    }
    proof {
        lemma_insert_sorted_at(v@, x, p as int);
    }
    v.insert(p, x);
    v
}

/// Sorts the values ascending.
pub fn sort_values(v: &Vec<i64>) -> (r: Vec<i64>)
    ensures
        r@ == sort_seq(v@),
{
    let mut out: Vec<i64> = Vec::new();
    let mut i = v.len();
    proof {
        assert(v@.skip(v@.len() as int) =~= Seq::<i64>::empty());
    }
    while i > 0
        invariant
            i <= v@.len(),
            out@ == sort_seq(v@.skip(i as int)),
        decreases i,
    {
        i = i - 1;
        proof {
            assert(v@.skip(i as int).drop_first() =~= v@.skip(i as int + 1));
            assert(v@.skip(i as int)[0] == v@[i as int]);
        }
        out = insert_value(out, v[i]);
    }
    proof {
        assert(v@.skip(0) =~= v@);
    }
    out
}

/// Numerator of the median: the central element of the ascending
/// rearrangement, or the sum of the two central elements for even lengths;
/// zero for an empty sequence.
pub open spec fn median_num(s: Seq<i64>) -> int {
    let t = sort_seq(s);
    if s.len() == 0 {
        0
    } else if s.len() % 2 == 1 {
        t[s.len() as int / 2] as int
    } else {
        t[s.len() as int / 2 - 1] + t[s.len() as int / 2]
    }
}

/// Denominator of the median: `2` when two central elements are averaged,
/// else `1`.
pub open spec fn median_den(s: Seq<i64>) -> int {
    if s.len() > 0 && s.len() % 2 == 0 {
        2
    } else {
        1
    }
}

/// The median of the values: sort ascending; an empty input yields zero, an
/// even length averages the two central elements, an odd length takes the
/// central one.  The result is exact, with denominator `1` or `2`.
pub fn median(v: &Vec<i64>) -> (r: Ratio)
    requires
        forall|i: int|
            0 <= i < v@.len() ==> -(i64::MAX / 2) <= #[trigger] v@[i] <= i64::MAX / 2,
    ensures
        r.num == median_num(v@),
        r.den == median_den(v@),
{
    let n = v.len();
    if n == 0 {
        return Ratio { num: 0, den: 1 };
    }
    proof {
        lemma_sort_seq_props(v@);
        lemma_sort_element_bounds(v@, -(i64::MAX as int / 2), i64::MAX as int / 2);
    }
    let s = sort_values(v);
    if n % 2 == 1 {
        Ratio { num: s[n / 2], den: 1 }
    } else {
        Ratio { num: s[n / 2 - 1] + s[n / 2], den: 2 }
    }
}

} // verus!
