//! The mathematical model of the engine: merging, dealing, passes and sorted runs.
use vstd::prelude::*;
use vstd::arithmetic::power2::{lemma_pow2_pos, lemma_pow2_strictly_increases, lemma_pow2_unfold, pow2};
use vstd::multiset::Multiset;
use vstd::seq_lib::lemma_multiset_commutative;

use crate::order::SortKey;

verus! {

broadcast use {vstd::multiset::group_multiset_axioms, vstd::seq_lib::group_to_multiset_ensures};

/// Each element comes no later than every element after it.
pub open spec fn sorted<T: SortKey>(s: Seq<T>) -> bool {
    forall|i: int, j: int| 0 <= i < j < s.len() ==> #[trigger] s[i].le(s[j])
}

/// `x` comes no later than any element of `s`.
pub open spec fn bounded_below<T: SortKey>(x: T, s: Seq<T>) -> bool {
    forall|i: int| 0 <= i < s.len() ==> x.le(#[trigger] s[i])
}

/// The left-biased merge of two sequences: on a tie the element of `a` goes first.
pub open spec fn merge_seq<T: SortKey>(a: Seq<T>, b: Seq<T>) -> Seq<T>
    decreases a.len() + b.len(),
{
    if a.len() == 0 {
        b
    } else if b.len() == 0 {
        a
    } else if a[0].le(b[0]) {
        seq![a[0]] + merge_seq(a.drop_first(), b)
    } else {
        seq![b[0]] + merge_seq(a, b.drop_first())
    }
}

/// Round-robin distribution: elements at even positions, then those at odd positions.
pub open spec fn deal<T>(s: Seq<T>) -> (Seq<T>, Seq<T>)
    decreases s.len(),
{
    if s.len() == 0 {
        (Seq::empty(), Seq::empty())
    } else {
        let (a, b) = deal(s.drop_first());
        (seq![s[0]] + b, a)
    }
}

/// How many elements one merge step takes from a side holding `len` of them.
pub open spec fn run_len(len: nat, chunk: nat) -> nat {
    if len < chunk {
        len
    } else {
        chunk
    }
}

/// One merge pass: each step merges the next run of `chunk` elements of either side,
/// and the merged runs go alternately to the first and to the second output.
pub open spec fn merge_pass<T: SortKey>(l: Seq<T>, r: Seq<T>, chunk: nat) -> (Seq<T>, Seq<T>)
    decreases l.len() + r.len(),
{
    let a = run_len(l.len(), chunk);
    let b = run_len(r.len(), chunk);
    let m = merge_seq(l.take(a as int), r.take(b as int));
    if chunk == 0 {
        (Seq::empty(), Seq::empty())
    } else if a == l.len() && b == r.len() {
        (m, Seq::empty())
    } else {
        let (x, y) = merge_pass(l.skip(a as int), r.skip(b as int), chunk);
        (m + y, x)
    }
}

/// Every consecutive block of `chunk` elements (the last one possibly shorter) is sorted.
pub open spec fn runs_sorted<T: SortKey>(s: Seq<T>, chunk: nat) -> bool
    decreases s.len(),
{
    if chunk == 0 || s.len() <= chunk {
        sorted(s)
    } else {
        sorted(s.take(chunk as int)) && runs_sorted(s.skip(chunk as int), chunk)
    }
}

/// The length of the first half when `n` elements are cut into runs of `chunk`
/// that go alternately to the first and to the second half.
pub open spec fn left_len(n: nat, chunk: nat) -> nat
    decreases n,
{
    if chunk == 0 || n <= chunk {
        n
    } else if n <= 2 * chunk {
        chunk
    } else {
        chunk + left_len((n - 2 * chunk) as nat, chunk)
    }
}

pub proof fn lemma_merge_bounded<T: SortKey>(x: T, a: Seq<T>, b: Seq<T>)
    requires
        bounded_below(x, a),
        bounded_below(x, b),
    ensures
        bounded_below(x, merge_seq(a, b)),
    decreases a.len() + b.len(),
{
    if a.len() > 0 && b.len() > 0 {
        let m = merge_seq(a, b);
        if a[0].le(b[0]) {
            let rest = a.drop_first();
            lemma_merge_bounded(x, rest, b);
            assert forall|i: int| 0 <= i < m.len() implies x.le(#[trigger] m[i]) by {
                if i > 0 {
                    assert(m[i] == merge_seq(rest, b)[i - 1]);
                }
            }
        } else {
            let rest = b.drop_first();
            lemma_merge_bounded(x, a, rest);
            assert forall|i: int| 0 <= i < m.len() implies x.le(#[trigger] m[i]) by {
                if i > 0 {
                    assert(m[i] == merge_seq(a, rest)[i - 1]);
                }
            }
        }
    }
}

proof fn lemma_sorted_cons<T: SortKey>(x: T, s: Seq<T>)
    requires
        sorted(s),
        bounded_below(x, s),
    ensures
        sorted(seq![x] + s),
{
    let t = seq![x] + s;
    assert forall|i: int, j: int| 0 <= i < j < t.len() implies #[trigger] t[i].le(t[j]) by {
        assert(t[j] == s[j - 1]);
        if i > 0 {
            assert(t[i] == s[i - 1]);
        }
    }
}

/// Merging two sorted sequences gives a sorted sequence.
pub proof fn lemma_merge_sorted<T: SortKey>(a: Seq<T>, b: Seq<T>)
    requires
        sorted(a),
        sorted(b),
    ensures
        sorted(merge_seq(a, b)),
    decreases a.len() + b.len(),
{
    if a.len() > 0 && b.len() > 0 {
        if a[0].le(b[0]) {
            let rest = a.drop_first();
            lemma_merge_sorted(rest, b);
            assert forall|i: int| 0 <= i < rest.len() implies a[0].le(#[trigger] rest[i]) by {
                assert(rest[i] == a[i + 1]);
            }
            assert forall|i: int| 0 <= i < b.len() implies a[0].le(#[trigger] b[i]) by {
                if i > 0 {
                    T::lemma_transitive(a[0], b[0], b[i]);
                }
            }
            lemma_merge_bounded(a[0], rest, b);
            lemma_sorted_cons(a[0], merge_seq(rest, b));
        } else {
            let rest = b.drop_first();
            T::lemma_total(a[0], b[0]);
            lemma_merge_sorted(a, rest);
            assert forall|i: int| 0 <= i < rest.len() implies b[0].le(#[trigger] rest[i]) by {
                assert(rest[i] == b[i + 1]);
            }
            assert forall|i: int| 0 <= i < a.len() implies b[0].le(#[trigger] a[i]) by {
                if i > 0 {
                    T::lemma_transitive(b[0], a[0], a[i]);
                }
            }
            lemma_merge_bounded(b[0], a, rest);
            lemma_sorted_cons(b[0], merge_seq(a, rest));
        }
    }
}

/// Merging neither creates, drops nor duplicates an element.
pub proof fn lemma_merge_multiset<T: SortKey>(a: Seq<T>, b: Seq<T>)
    ensures
        merge_seq(a, b).to_multiset() =~= a.to_multiset().add(b.to_multiset()),
        merge_seq(a, b).len() == a.len() + b.len(),
    decreases a.len() + b.len(),
{
    if a.len() == 0 {
        assert(a.to_multiset() =~= Multiset::empty());
    } else if b.len() == 0 {
        assert(b.to_multiset() =~= Multiset::empty());
    } else if a[0].le(b[0]) {
        let rest = a.drop_first();
        lemma_merge_multiset(rest, b);
        lemma_multiset_commutative(seq![a[0]], merge_seq(rest, b));
        assert(a =~= seq![a[0]] + rest);
        lemma_multiset_commutative(seq![a[0]], rest);
    } else {
        let rest = b.drop_first();
        lemma_merge_multiset(a, rest);
        lemma_multiset_commutative(seq![b[0]], merge_seq(a, rest));
        assert(b =~= seq![b[0]] + rest);
        lemma_multiset_commutative(seq![b[0]], rest);
    }
}

/// Dealing keeps every element, and the first half is the longer one by at most one.
pub proof fn lemma_deal<T>(s: Seq<T>)
    ensures
        deal(s).0.len() == (s.len() + 1) / 2,
        deal(s).1.len() == s.len() / 2,
        deal(s).0.to_multiset().add(deal(s).1.to_multiset()) =~= s.to_multiset(),
    decreases s.len(),
{
    if s.len() > 0 {
        let rest = s.drop_first();
        lemma_deal(rest);
        lemma_multiset_commutative(seq![s[0]], deal(rest).1);
        assert(s =~= seq![s[0]] + rest);
        lemma_multiset_commutative(seq![s[0]], rest);
    } else {
        assert(s.to_multiset() =~= Multiset::empty());
    }
}

pub proof fn lemma_left_len_bound(n: nat, chunk: nat)
    ensures
        left_len(n, chunk) <= n,
        chunk > 0 && n >= chunk ==> left_len(n, chunk) >= chunk,
    decreases n,
{
    if chunk > 0 && n > 2 * chunk {
        lemma_left_len_bound((n - 2 * chunk) as nat, chunk);
    }
}

/// Past the first run, the second half is laid out as a first half.
pub proof fn lemma_left_right(n: nat, chunk: nat)
    requires
        chunk > 0,
        n >= chunk,
    ensures
        left_len(n, chunk) + left_len((n - chunk) as nat, chunk) == n,
    decreases n,
{
    if n > 2 * chunk {
        let k = (n - 2 * chunk) as nat;
        assert(left_len(n, chunk) == chunk + left_len(k, chunk));
        if n > 3 * chunk {
            lemma_left_right(k, chunk);
            assert(left_len((n - chunk) as nat, chunk) == chunk + left_len(
                (n - 3 * chunk) as nat,
                chunk,
            ));
        } else {
            assert(left_len((n - chunk) as nat, chunk) == chunk);
            assert(left_len(k, chunk) == k);
        }
    }
}

pub proof fn lemma_left_len_one(n: nat)
    ensures
        left_len(n, 1) == (n + 1) / 2,
    decreases n,
{
    if n > 2 {
        lemma_left_len_one((n - 2) as nat);
    }
}

/// Runs of one element are always sorted.
pub proof fn lemma_runs_one<T: SortKey>(s: Seq<T>)
    ensures
        runs_sorted(s, 1),
    decreases s.len(),
{
    if s.len() > 1 {
        lemma_runs_one(s.skip(1));
    }
}

/// A pass keeps every element.
pub proof fn lemma_pass_multiset<T: SortKey>(l: Seq<T>, r: Seq<T>, chunk: nat)
    requires
        chunk > 0,
    ensures
        merge_pass(l, r, chunk).0.to_multiset().add(merge_pass(l, r, chunk).1.to_multiset())
            =~= l.to_multiset().add(r.to_multiset()),
    decreases l.len() + r.len(),
{
    let a = run_len(l.len(), chunk);
    let b = run_len(r.len(), chunk);
    let lt = l.take(a as int);
    let rt = r.take(b as int);
    let ls = l.skip(a as int);
    let rs = r.skip(b as int);
    lemma_merge_multiset(lt, rt);
    assert(l =~= lt + ls);
    assert(r =~= rt + rs);
    lemma_multiset_commutative(lt, ls);
    lemma_multiset_commutative(rt, rs);
    if a == l.len() && b == r.len() {
        assert(ls.to_multiset() =~= Multiset::empty());
        assert(rs.to_multiset() =~= Multiset::empty());
        assert(Seq::<T>::empty().to_multiset() =~= Multiset::empty());
    } else {
        lemma_pass_multiset(ls, rs, chunk);
        let (x, y) = merge_pass(ls, rs, chunk);
        let m = merge_seq(lt, rt);
        assert(merge_pass(l, r, chunk) == (m + y, x));
        lemma_multiset_commutative(m, y);
        assert((m + y).to_multiset().add(x.to_multiset()) =~= m.to_multiset().add(
            x.to_multiset().add(y.to_multiset()),
        ));
    }
}

proof fn lemma_runs_split<T: SortKey>(s: Seq<T>, chunk: nat)
    requires
        chunk > 0,
        runs_sorted(s, chunk),
        s.len() >= chunk,
    ensures
        sorted(s.take(chunk as int)),
        runs_sorted(s.skip(chunk as int), chunk),
{
    if s.len() == chunk {
        assert(s.take(chunk as int) =~= s);
        assert(sorted(s.skip(chunk as int)));
    }
}

proof fn lemma_runs_prepend<T: SortKey>(m: Seq<T>, y: Seq<T>, chunk: nat)
    requires
        chunk > 0,
        m.len() == chunk,
        sorted(m),
        runs_sorted(y, chunk),
    ensures
        runs_sorted(m + y, chunk),
{
    if y.len() == 0 {
        assert(m + y =~= m);
    } else {
        assert((m + y).take(chunk as int) =~= m);
        assert((m + y).skip(chunk as int) =~= y);
    }
}

/// A pass over halves laid out in sorted runs of `chunk` gives halves laid out in
/// sorted runs of twice that length.
pub proof fn lemma_pass_runs<T: SortKey>(l: Seq<T>, r: Seq<T>, chunk: nat)
    requires
        chunk > 0,
        runs_sorted(l, chunk),
        runs_sorted(r, chunk),
        l.len() == left_len(l.len() + r.len(), chunk),
    ensures
        runs_sorted(merge_pass(l, r, chunk).0, 2 * chunk),
        runs_sorted(merge_pass(l, r, chunk).1, 2 * chunk),
        merge_pass(l, r, chunk).0.len() == left_len(l.len() + r.len(), 2 * chunk),
        merge_pass(l, r, chunk).0.len() + merge_pass(l, r, chunk).1.len() == l.len() + r.len(),
    decreases l.len() + r.len(),
{
    let n = l.len() + r.len();
    let a = run_len(l.len(), chunk);
    let b = run_len(r.len(), chunk);
    let lt = l.take(a as int);
    let rt = r.take(b as int);
    let m = merge_seq(lt, rt);
    lemma_merge_multiset(lt, rt);
    if a == l.len() && b == r.len() {
        assert(lt =~= l);
        assert(rt =~= r);
        lemma_merge_sorted(l, r);
        assert(sorted(Seq::<T>::empty()));
    } else {
        lemma_left_right((n - chunk) as nat, chunk);
        lemma_left_len_bound((n - 2 * chunk) as nat, chunk);
        lemma_left_len_bound((n - chunk) as nat, chunk);
        assert(n > 2 * chunk);
        lemma_runs_split(l, chunk);
        lemma_runs_split(r, chunk);
        lemma_merge_sorted(lt, rt);
        let ls = l.skip(chunk as int);
        let rs = r.skip(chunk as int);
        lemma_pass_runs(ls, rs, chunk);
        let (x, y) = merge_pass(ls, rs, chunk);
        lemma_runs_prepend(m, y, 2 * chunk);
        let d = 2 * chunk;
        if n - d > d {
            lemma_left_right((n - d) as nat, d);
        }
    }
}

/// Once a run is at least half the total, each half is a single sorted run.
pub proof fn lemma_halves_sorted<T: SortKey>(l: Seq<T>, r: Seq<T>, chunk: nat)
    requires
        chunk > 0,
        runs_sorted(l, chunk),
        runs_sorted(r, chunk),
        l.len() == left_len(l.len() + r.len(), chunk),
        l.len() + r.len() < 2 * chunk,
    ensures
        sorted(l),
        sorted(r),
{
}

/// Splitting `n` elements gives two halves whose lengths sum to `n` and differ by at most one.
pub proof fn lemma_split_balanced<T>(s: Seq<T>)
    ensures
        deal(s).0.len() + deal(s).1.len() == s.len(),
        deal(s).1.len() <= deal(s).0.len() <= deal(s).1.len() + 1,
{
    lemma_deal(s);
}

proof fn lemma_sorted_remove<T: SortKey>(s: Seq<T>, k: int)
    requires
        sorted(s),
        0 <= k < s.len(),
    ensures
        sorted(s.remove(k)),
{
    let t = s.remove(k);
    assert forall|i: int, j: int| 0 <= i < j < t.len() implies #[trigger] t[i].le(t[j]) by {
        let si = if i < k { i } else { i + 1 };
        let sj = if j < k { j } else { j + 1 };
        assert(t[i] == s[si]);
        assert(t[j] == s[sj]);
    }
}

/// The elements at position `i` of `a` and `b` order as equal.
pub open spec fn equivalent_at<T: SortKey>(a: Seq<T>, b: Seq<T>, i: int) -> bool {
    a[i].le(b[i]) && b[i].le(a[i])
}

proof fn lemma_agree_at<T: SortKey>(a: Seq<T>, b: Seq<T>, k: int, i: int)
    requires
        sorted(a),
        sorted(b),
        a.len() == b.len(),
        0 <= k < b.len(),
        b[k] == a[0],
        a[0].le(b[0]),
        b[0].le(a[0]),
        0 <= i < a.len(),
        forall|j: int| 0 <= j < a.len() - 1 ==> #[trigger] equivalent_at(a.drop_first(), b.remove(k), j),
    ensures
        equivalent_at(a, b, i),
{
    let a1 = a.drop_first();
    let b1 = b.remove(k);
    if i > 0 {
        assert(equivalent_at(a1, b1, i - 1));
        assert(a[i] == a1[i - 1]);
        if i - 1 >= k {
            assert(b1[i - 1] == b[i]);
        } else {
            assert(b1[i - 1] == b[i - 1]);
            assert(b[i - 1].le(b[i]));
            T::lemma_transitive(a[i], b[i - 1], b[i]);
            assert(a[0].le(a[i]));
            if i < k {
                assert(b[i].le(b[k]));
                T::lemma_transitive(b[i], b[k], a[i]);
            }
        }
    }
}

/// Two sorted sequences holding the same elements agree position by position, up
/// to elements that order as equal. So every backend that meets the contract sorts
/// a given input into the same sequence.
pub proof fn lemma_sorted_permutations_agree<T: SortKey>(a: Seq<T>, b: Seq<T>)
    requires
        sorted(a),
        sorted(b),
        a.to_multiset() == b.to_multiset(),
    ensures
        a.len() == b.len(),
        forall|i: int| 0 <= i < a.len() ==> #[trigger] equivalent_at(a, b, i),
    decreases a.len(),
{
    assert(a.to_multiset().len() == a.len());
    assert(b.to_multiset().len() == b.len());
    if a.len() > 0 {
        assert(a.contains(a[0]));
        assert(a.to_multiset().count(a[0]) > 0);
        assert(b.contains(a[0]));
        let k = choose|k: int| 0 <= k < b.len() && b[k] == a[0];
        assert(b.contains(b[0]));
        assert(b.to_multiset().count(b[0]) > 0);
        assert(a.contains(b[0]));
        let j0 = choose|j: int| 0 <= j < a.len() && a[j] == b[0];
        T::lemma_reflexive(a[0]);
        T::lemma_reflexive(b[0]);
        if j0 > 0 {
            assert(a[0].le(a[j0]));
        }
        if k > 0 {
            assert(b[0].le(b[k]));
        }
        assert(a[0].le(b[0]) && b[0].le(a[0]));
        let a1 = a.drop_first();
        let b1 = b.remove(k);
        assert(a1 =~= a.remove(0));
        lemma_sorted_remove(a, 0);
        lemma_sorted_remove(b, k);
        lemma_sorted_permutations_agree(a1, b1);
        assert forall|i: int| 0 <= i < a.len() implies #[trigger] equivalent_at(a, b, i) by {
            lemma_agree_at(a, b, k, i);
        }
    }
}

/// How many merge passes the doubling driver makes on `n` elements when its next
/// pass merges runs of `chunk`: it stops once the doubled run exceeds half of `n`.
pub open spec fn doubling_passes(chunk: nat, n: nat) -> nat
    decreases n + 1 - chunk,
{
    if chunk == 0 || 2 * chunk > n / 2 {
        1
    } else {
        1 + doubling_passes(2 * chunk, n)
    }
}

/// The number of merge passes that sorting `n` elements takes.
pub open spec fn pass_count(n: nat) -> nat {
    doubling_passes(1, n)
}

proof fn lemma_doubling_passes_pow2(j: nat, k: nat)
    requires
        j < k,
    ensures
        doubling_passes(pow2(j), pow2(k)) == k - j,
    decreases k - j,
{
    lemma_pow2_unfold(k);
    lemma_pow2_unfold(j + 1);
    lemma_pow2_pos(j);
    if j + 1 < k {
        if j + 1 < (k - 1) as nat {
            lemma_pow2_strictly_increases(j + 1, (k - 1) as nat);
        }
        lemma_doubling_passes_pow2(j + 1, k);
    } else {
        lemma_pow2_strictly_increases((k - 1) as nat, k);
    }
}

/// Sorting `2^k` elements, for `k >= 1`, takes exactly `k` merge passes.
pub proof fn lemma_pass_count_power_of_two(k: nat)
    requires
        k >= 1,
    ensures
        pass_count(pow2(k)) == k,
{
    assert(pow2(0) == 1) by {
        vstd::arithmetic::power2::lemma2_to64();
    }
    lemma_doubling_passes_pow2(0, k);
}

} // verus!
