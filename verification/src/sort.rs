//! Sorting strings in the natural order.

use crate::order::{
    comes_before, in_order, lemma_in_order_transitive, lemma_same_rank_reflexive,
    lemma_trichotomy, same_rank,
};
use crate::parts::{Overflow, StringParts};
use crate::segment::{representable, segment};
use vstd::prelude::*;
use vstd::seq_lib::{seq_to_set_is_finite, to_multiset_build, to_multiset_insert};
use vstd::set_lib::{lemma_int_range, lemma_subset_equality, set_int_range};

verus! {

/// Every string of `v` can be segmented with numbers of 64 bits.
pub open spec fn all_representable(v: Seq<&str>) -> bool {
    forall|i: int| 0 <= i < v.len() ==> representable(#[trigger] v[i]@)
}

/// No string of `v` comes after a later one in the natural order.
pub open spec fn sorted(v: Seq<&str>) -> bool {
    forall|i: int, j: int| 0 <= i < j < v.len() ==> in_order(#[trigger] v[i]@, #[trigger] v[j]@)
}

/// `p` names every place below its length exactly once.
pub open spec fn is_permutation(p: Seq<int>) -> bool {
    &&& forall|i: int| 0 <= i < p.len() ==> 0 <= #[trigger] p[i] < p.len()
    &&& forall|i: int, j: int| 0 <= i < j < p.len() ==> #[trigger] p[i] != #[trigger] p[j]
}

/// Of the strings at the places `x` and `y` of `inp`, the one at `x` is to
/// stand first: it comes before the other in the natural order, or has the
/// same rank and the earlier place.
pub open spec fn stands_before(inp: Seq<&str>, x: int, y: int) -> bool {
    comes_before(inp[x]@, inp[y]@) || (same_rank(inp[x]@, inp[y]@) && x < y)
}

/// `out` holds the strings of `inp` in another order, the string at place `i`
/// of `out` being the one at place `p[i]` of `inp`, and each stands before
/// the next ones: `out` is sorted in the natural order, and strings of the
/// same rank stand as they stood in `inp`.
pub open spec fn stably_sorts(p: Seq<int>, inp: Seq<&str>, out: Seq<&str>) -> bool {
    &&& p.len() == inp.len()
    &&& out.len() == inp.len()
    &&& is_permutation(p)
    &&& forall|i: int| 0 <= i < out.len() ==> #[trigger] out[i] == inp[p[i]]
    &&& forall|a: int, b: int|
        0 <= a < b < out.len() ==> stands_before(inp, #[trigger] p[a], #[trigger] p[b])
}

/// `out` is `inp` sorted in the natural order, strings of the same rank kept
/// in the order they had.
pub open spec fn is_stable_sort_of(out: Seq<&str>, inp: Seq<&str>) -> bool {
    exists|p: Seq<int>| stably_sorts(p, inp, out)
}

/// Standing before is transitive.
pub proof fn lemma_stands_before_transitive(inp: Seq<&str>, x: int, y: int, z: int)
    requires
        stands_before(inp, x, y),
        stands_before(inp, y, z),
    ensures
        stands_before(inp, x, z),
{
    lemma_trichotomy(inp[x]@, inp[y]@);
    lemma_trichotomy(inp[y]@, inp[z]@);
    lemma_in_order_transitive(inp[x]@, inp[y]@, inp[z]@);
    lemma_trichotomy(inp[x]@, inp[z]@);
}

/// Places that rise from each to the next, and all lie below their number,
/// are each its own.
pub proof fn lemma_rising_is_identity(p: Seq<int>)
    requires
        forall|i: int| 0 <= i < p.len() ==> 0 <= #[trigger] p[i] < p.len(),
        forall|i: int, j: int| 0 <= i < j < p.len() ==> #[trigger] p[i] < #[trigger] p[j],
    ensures
        forall|i: int| 0 <= i < p.len() ==> #[trigger] p[i] == i,
{
    assert forall|i: int| 0 <= i < p.len() implies #[trigger] p[i] == i by {
        lemma_rising_low(p, i);
        lemma_rising_high(p, i);
    }
}

/// Among rising places the one at `i` has at least `i` places below it.
proof fn lemma_rising_low(p: Seq<int>, i: int)
    requires
        0 <= i < p.len(),
        forall|k: int| 0 <= k < p.len() ==> 0 <= #[trigger] p[k] < p.len(),
        forall|a: int, b: int| 0 <= a < b < p.len() ==> #[trigger] p[a] < #[trigger] p[b],
    ensures
        p[i] >= i,
    decreases i,
{
    if i > 0 {
        lemma_rising_low(p, i - 1);
        assert(p[i - 1] < p[i]);
    }
}

/// Among rising places below their number the one at `i` has all later ones
/// above it.
proof fn lemma_rising_high(p: Seq<int>, i: int)
    requires
        0 <= i < p.len(),
        forall|k: int| 0 <= k < p.len() ==> 0 <= #[trigger] p[k] < p.len(),
        forall|a: int, b: int| 0 <= a < b < p.len() ==> #[trigger] p[a] < #[trigger] p[b],
    ensures
        p[i] <= i,
    decreases p.len() - i,
{
    if i + 1 < p.len() {
        lemma_rising_high(p, i + 1);
        assert(p[i] < p[i + 1]);
    }
}

/// What a stable sort gives is sorted.
pub proof fn lemma_stable_sort_is_sorted(out: Seq<&str>, inp: Seq<&str>)
    requires
        is_stable_sort_of(out, inp),
    ensures
        out.len() == inp.len(),
        sorted(out),
{
    let p = choose|p: Seq<int>| stably_sorts(p, inp, out);
    assert forall|i: int, j: int| 0 <= i < j < out.len() implies in_order(
        #[trigger] out[i]@,
        #[trigger] out[j]@,
    ) by {
        assert(stands_before(inp, p[i], p[j]));
        assert(out[i] == inp[p[i]] && out[j] == inp[p[j]]);
        lemma_trichotomy(out[i]@, out[j]@);
    }
}

/// Strings taken from the places that a permutation names are the same
/// strings, each as often.
proof fn lemma_rearranged(p: Seq<int>, inp: Seq<&str>, out: Seq<&str>)
    requires
        p.len() == inp.len(),
        out.len() == inp.len(),
        is_permutation(p),
        forall|i: int| 0 <= i < out.len() ==> #[trigger] out[i] == inp[p[i]],
    ensures
        out.to_multiset() == inp.to_multiset(),
    decreases p.len(),
{
    if p.len() == 0 {
        assert(out =~= inp);
    } else {
        let n = p.len() - 1;
        let k = p[n];
        let fewer_out = out.drop_last();
        let fewer_inp = inp.remove(k);
        let q = Seq::new(
            n as nat,
            |i: int|
                if p[i] > k {
                    p[i] - 1
                } else {
                    p[i]
                },
        );
        assert forall|i: int| 0 <= i < n implies 0 <= #[trigger] q[i] < n by {
            assert(p[i] != p[n]);
        }
        assert forall|i: int, j: int| 0 <= i < j < n implies #[trigger] q[i] != #[trigger] q[j] by {
            assert(p[i] != p[j]);
            assert(p[i] != p[n]);
            assert(p[j] != p[n]);
        }
        assert forall|i: int| 0 <= i < n implies #[trigger] fewer_out[i] == fewer_inp[q[i]] by {
            assert(fewer_out[i] == out[i]);
            assert(p[i] != p[n]);
        }
        lemma_rearranged(q, fewer_inp, fewer_out);
        assert(out =~= fewer_out.push(out[n]));
        assert(inp =~= fewer_inp.insert(k, inp[k]));
        to_multiset_build(fewer_out, out[n]);
        to_multiset_insert(fewer_inp, k, inp[k]);
    }
}

/// A stable sort holds the strings of its input, each as often as the input.
pub proof fn lemma_stable_sort_same_strings(out: Seq<&str>, inp: Seq<&str>)
    requires
        is_stable_sort_of(out, inp),
    ensures
        out.to_multiset() == inp.to_multiset(),
{
    let p = choose|p: Seq<int>| stably_sorts(p, inp, out);
    lemma_rearranged(p, inp, out);
}

/// A stable sort of representable strings holds representable strings.
pub proof fn lemma_stable_sort_representable(out: Seq<&str>, inp: Seq<&str>)
    requires
        all_representable(inp),
        is_stable_sort_of(out, inp),
    ensures
        all_representable(out),
{
    let p = choose|p: Seq<int>| stably_sorts(p, inp, out);
    assert forall|i: int| 0 <= i < out.len() implies representable(#[trigger] out[i]@) by {
        assert(out[i] == inp[p[i]]);
        assert(0 <= p[i] < p.len());
    }
}

/// Sorting what is sorted already changes nothing.
pub proof fn lemma_sort_of_sorted(out: Seq<&str>, inp: Seq<&str>)
    requires
        sorted(inp),
        is_stable_sort_of(out, inp),
    ensures
        out == inp,
{
    let p = choose|p: Seq<int>| stably_sorts(p, inp, out);
    assert forall|i: int, j: int| 0 <= i < j < p.len() implies #[trigger] p[i]
        < #[trigger] p[j] by {
        assert(stands_before(inp, p[i], p[j]));
        if p[j] < p[i] {
            assert(in_order(inp[p[j]]@, inp[p[i]]@));
            lemma_trichotomy(inp[p[i]]@, inp[p[j]]@);
        }
    }
    lemma_rising_is_identity(p);
    assert(out =~= inp) by {
        assert forall|i: int| 0 <= i < out.len() implies out[i] == inp[i] by {
            assert(out[i] == inp[p[i]]);
        }
    }
}

/// Sorting a second time changes nothing.
pub proof fn lemma_sort_idempotent(once: Seq<&str>, twice: Seq<&str>, inp: Seq<&str>)
    requires
        is_stable_sort_of(once, inp),
        is_stable_sort_of(twice, once),
    ensures
        twice == once,
{
    lemma_stable_sort_is_sorted(once, inp);
    lemma_sort_of_sorted(twice, once);
}

/// A permutation names every place: the place `x` stands at some `i`.
pub proof fn lemma_permutation_onto(p: Seq<int>, x: int) -> (i: int)
    requires
        is_permutation(p),
        0 <= x < p.len(),
    ensures
        0 <= i < p.len(),
        p[i] == x,
{
    let n = p.len() as int;
    let places = set_int_range(0, n);
    p.unique_seq_to_set();
    seq_to_set_is_finite(p);
    lemma_int_range(0, n);
    assert(p.to_set().subset_of(places)) by {
        assert forall|y: int| p.to_set().contains(y) implies places.contains(y) by {
            let k = choose|k: int| 0 <= k < p.len() && p[k] == y;
            assert(0 <= p[k] < n);
        }
    }
    lemma_subset_equality(p.to_set(), places);
    assert(places.contains(x));
    assert(p.contains(x));
    choose|i: int| 0 <= i < p.len() && p[i] == x
}

/// Two stable sorts of one input take each place from the same place of the
/// input.
proof fn lemma_witnesses_agree(
    p: Seq<int>,
    q: Seq<int>,
    a: Seq<&str>,
    b: Seq<&str>,
    inp: Seq<&str>,
    i: int,
)
    requires
        stably_sorts(p, inp, a),
        stably_sorts(q, inp, b),
        0 <= i < inp.len(),
    ensures
        p[i] == q[i],
    decreases i,
{
    assert forall|k: int| 0 <= k < i implies p[k] == q[k] by {
        lemma_witnesses_agree(p, q, a, b, inp, k);
    }
    let x = p[i];
    let y = q[i];
    if x != y {
        let j = lemma_permutation_onto(q, x);
        let m = lemma_permutation_onto(p, y);
        if j < i {
            assert(p[j] == q[j]);
        }
        if m < i {
            assert(p[m] == q[m]);
        }
        assert(i < j && i < m);
        assert(stands_before(inp, q[i], q[j]));
        assert(stands_before(inp, p[i], p[m]));
        lemma_trichotomy(inp[x]@, inp[y]@);
    }
}

/// An input has one stable sort only.
pub proof fn lemma_stable_sort_unique(a: Seq<&str>, b: Seq<&str>, inp: Seq<&str>)
    requires
        is_stable_sort_of(a, inp),
        is_stable_sort_of(b, inp),
    ensures
        a == b,
{
    let p = choose|p: Seq<int>| stably_sorts(p, inp, a);
    let q = choose|q: Seq<int>| stably_sorts(q, inp, b);
    assert forall|i: int| 0 <= i < a.len() implies a[i] == b[i] by {
        lemma_witnesses_agree(p, q, a, b, inp, i);
        assert(a[i] == inp[p[i]]);
        assert(b[i] == inp[q[i]]);
    }
    assert(a =~= b);
}

/// A sequence in which no string comes after the next one is sorted.
pub proof fn lemma_sorted_by_neighbours(v: Seq<&str>)
    requires
        forall|i: int| 0 <= i < v.len() - 1 ==> in_order(#[trigger] v[i]@, v[i + 1]@),
    ensures
        sorted(v),
{
    assert forall|i: int, j: int| 0 <= i < j < v.len() implies in_order(
        #[trigger] v[i]@,
        #[trigger] v[j]@,
    ) by {
        lemma_neighbours_reach(v, i, j);
    }
}

/// Where no string comes after the next one, none comes after a later one.
proof fn lemma_neighbours_reach(v: Seq<&str>, i: int, j: int)
    requires
        forall|k: int| 0 <= k < v.len() - 1 ==> in_order(#[trigger] v[k]@, v[k + 1]@),
        0 <= i < j < v.len(),
    ensures
        in_order(v[i]@, v[j]@),
    decreases j - i,
{
    assert(in_order(v[j - 1]@, v[j]@));
    if i < j - 1 {
        lemma_neighbours_reach(v, i, j - 1);
        lemma_in_order_transitive(v[i]@, v[j - 1]@, v[j]@);
    }
}

/// `parts` holds the parts of the strings of `inp`, place by place.
spec fn parts_of(parts: Seq<StringParts>, inp: Seq<&str>) -> bool {
    &&& parts.len() == inp.len()
    &&& forall|k: int| 0 <= k < inp.len() ==> (#[trigger] parts[k])@ == segment(inp[k]@)
}

/// `places` names places of `inp` from `lo` up to `hi`, each to stand before
/// the next ones.
spec fn ranked(places: Seq<usize>, inp: Seq<&str>, lo: int, hi: int) -> bool {
    &&& forall|a: int| 0 <= a < places.len() ==> lo <= #[trigger] places[a] < hi
    &&& forall|a: int, b: int|
        0 <= a < b < places.len() ==> stands_before(
            inp,
            #[trigger] places[a] as int,
            #[trigger] places[b] as int,
        )
}

/// Merges two rankings of adjoining stretches of `inp` into one of both.
fn merge(
    parts: &Vec<StringParts>,
    left: &Vec<usize>,
    right: &Vec<usize>,
    Ghost(inp): Ghost<Seq<&str>>,
    Ghost(lo): Ghost<int>,
    Ghost(mid): Ghost<int>,
    Ghost(hi): Ghost<int>,
) -> (out: Vec<usize>)
    requires
        parts_of(parts@, inp),
        0 <= lo <= mid <= hi <= inp.len(),
        ranked(left@, inp, lo, mid),
        ranked(right@, inp, mid, hi),
        left.len() + right.len() <= usize::MAX,
    ensures
        out.len() == left.len() + right.len(),
        ranked(out@, inp, lo, hi),
{
    let mut out: Vec<usize> = Vec::new();
    let mut i: usize = 0;
    let mut j: usize = 0;
    while i < left.len() || j < right.len()
        invariant
            parts_of(parts@, inp),
            0 <= lo <= mid <= hi <= inp.len(),
            ranked(left@, inp, lo, mid),
            ranked(right@, inp, mid, hi),
            left.len() + right.len() <= usize::MAX,
            i <= left.len(),
            j <= right.len(),
            out.len() == i + j,
            ranked(out@, inp, lo, hi),
            forall|a: int, b: int|
                0 <= a < out.len() && i <= b < left.len() ==> stands_before(
                    inp,
                    #[trigger] out@[a] as int,
                    #[trigger] left@[b] as int,
                ),
            forall|a: int, b: int|
                0 <= a < out.len() && j <= b < right.len() ==> stands_before(
                    inp,
                    #[trigger] out@[a] as int,
                    #[trigger] right@[b] as int,
                ),
        decreases left.len() - i + right.len() - j,
    {
        let ghost held = out@;
        let from_right = if i == left.len() {
            true
        } else if j == right.len() {
            false
        } else {
            parts[right[j]] < parts[left[i]]
        };
        if from_right {
            let y = right[j];
            out.push(y);
            proof {
                assert forall|a: int, b: int| 0 <= a < b < out.len() implies stands_before(
                    inp,
                    #[trigger] out@[a] as int,
                    #[trigger] out@[b] as int,
                ) by {
                    if b < held.len() {
                        assert(out@[a] == held[a] && out@[b] == held[b]);
                    } else {
                        assert(out@[a] == held[a]);
                    }
                }
                assert forall|a: int, b: int|
                    0 <= a < out.len() && i <= b < left.len() implies stands_before(
                    inp,
                    #[trigger] out@[a] as int,
                    #[trigger] left@[b] as int,
                ) by {
                    if a < held.len() {
                        assert(out@[a] == held[a]);
                    } else {
                        let x = left@[i as int];
                        assert(stands_before(inp, y as int, x as int));
                        if i < b {
                            lemma_stands_before_transitive(
                                inp,
                                y as int,
                                x as int,
                                left@[b] as int,
                            );
                        }
                    }
                }
                assert forall|a: int, b: int|
                    0 <= a < out.len() && j + 1 <= b < right.len() implies stands_before(
                    inp,
                    #[trigger] out@[a] as int,
                    #[trigger] right@[b] as int,
                ) by {
                    if a < held.len() {
                        assert(out@[a] == held[a]);
                    }
                }
            }
            j = j + 1;
        } else {
            let x = left[i];
            out.push(x);
            proof {
                assert forall|a: int, b: int| 0 <= a < b < out.len() implies stands_before(
                    inp,
                    #[trigger] out@[a] as int,
                    #[trigger] out@[b] as int,
                ) by {
                    if b < held.len() {
                        assert(out@[a] == held[a] && out@[b] == held[b]);
                    } else {
                        assert(out@[a] == held[a]);
                    }
                }
                assert forall|a: int, b: int|
                    0 <= a < out.len() && j <= b < right.len() implies stands_before(
                    inp,
                    #[trigger] out@[a] as int,
                    #[trigger] right@[b] as int,
                ) by {
                    if a < held.len() {
                        assert(out@[a] == held[a]);
                    } else {
                        let y = right@[j as int];
                        lemma_trichotomy(inp[x as int]@, inp[y as int]@);
                        assert(stands_before(inp, x as int, y as int));
                        if j < b {
                            lemma_stands_before_transitive(
                                inp,
                                x as int,
                                y as int,
                                right@[b] as int,
                            );
                        }
                    }
                }
                assert forall|a: int, b: int|
                    0 <= a < out.len() && i + 1 <= b < left.len() implies stands_before(
                    inp,
                    #[trigger] out@[a] as int,
                    #[trigger] left@[b] as int,
                ) by {
                    if a < held.len() {
                        assert(out@[a] == held[a]);
                    }
                }
            }
            i = i + 1;
        }
    }
    out
}

/// Ranks the places of `inp` from `lo` up to `hi`, by merging the rankings of
/// the two halves of the stretch.
fn rank(
    parts: &Vec<StringParts>,
    lo: usize,
    hi: usize,
    Ghost(inp): Ghost<Seq<&str>>,
) -> (out: Vec<usize>)
    requires
        parts_of(parts@, inp),
        lo <= hi <= parts.len(),
    ensures
        out.len() == hi - lo,
        ranked(out@, inp, lo as int, hi as int),
    decreases hi - lo,
{
    if hi - lo <= 1 {
        let mut out: Vec<usize> = Vec::new();
        if lo < hi {
            out.push(lo);
        }
        out
    } else {
        let mid = lo + (hi - lo) / 2;
        let left = rank(parts, lo, mid, Ghost(inp));
        let right = rank(parts, mid, hi, Ghost(inp));
        merge(
            parts,
            &left,
            &right,
            Ghost(inp),
            Ghost(lo as int),
            Ghost(mid as int),
            Ghost(hi as int),
        )
    }
}

/// Sorts `vals` in the natural order. Strings of which neither comes before
/// the other keep the order they had. Where a run of digits in one of the
/// strings denotes a number that does not fit in 64 bits, nothing is sorted
/// and `vals` is left as it was.
pub fn natural_sort(vals: &mut Vec<&str>) -> (res: Result<(), Overflow>)
    ensures
        res is Ok <==> all_representable(old(vals)@),
        res is Err ==> final(vals)@ == old(vals)@,
        res is Ok ==> is_stable_sort_of(final(vals)@, old(vals)@),
        res is Ok ==> sorted(final(vals)@),
        res is Ok && sorted(old(vals)@) ==> final(vals)@ == old(vals)@,
{
    let n = vals.len();
    let ghost inp = vals@;
    let mut parts: Vec<StringParts> = Vec::new();
    let mut k: usize = 0;
    while k < n
        invariant
            k <= n,
            n == vals.len(),
            vals@ == inp,
            parts.len() == k,
            forall|i: int| 0 <= i < k ==> representable(#[trigger] inp[i]@),
            forall|i: int| 0 <= i < k ==> (#[trigger] parts@[i])@ == segment(inp[i]@),
        decreases n - k,
    {
        match StringParts::split(vals[k]) {
            Ok(cut) => {
                parts.push(cut);
            },
            Err(overflow) => {
                return Err(overflow);
            },
        }
        k = k + 1;
    }
    let places = rank(&parts, 0, n, Ghost(inp));
    let mut sorted_vals: Vec<&str> = Vec::new();
    let mut i: usize = 0;
    while i < n
        invariant
            i <= n,
            n == vals.len(),
            vals@ == inp,
            places.len() == n,
            ranked(places@, inp, 0, n as int),
            sorted_vals.len() == i,
            forall|a: int| 0 <= a < i ==> #[trigger] sorted_vals@[a] == inp[places@[a] as int],
        decreases n - i,
    {
        sorted_vals.push(vals[places[i]]);
        i = i + 1;
    }
    *vals = sorted_vals;
    proof {
        let p = Seq::new(n as nat, |a: int| places@[a] as int);
        assert forall|a: int, b: int| 0 <= a < b < p.len() implies #[trigger] p[a]
            != #[trigger] p[b] by {
            // No place stands before itself.
            assert(stands_before(inp, places@[a] as int, places@[b] as int));
            lemma_trichotomy(inp[p[a]]@, inp[p[a]]@);
            lemma_same_rank_reflexive(inp[p[a]]@);
        }
        assert forall|a: int, b: int| 0 <= a < b < p.len() implies stands_before(
            inp,
            #[trigger] p[a],
            #[trigger] p[b],
        ) by {
            assert(stands_before(inp, places@[a] as int, places@[b] as int));
        }
        assert(stably_sorts(p, inp, vals@));
        lemma_stable_sort_is_sorted(vals@, inp);
        if sorted(inp) {
            lemma_sort_of_sorted(vals@, inp);
        }
    }
    Ok(())
}

} // verus!
