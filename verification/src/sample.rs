use vstd::prelude::*;

verus! {

use vstd::arithmetic::power2::pow2;
use vstd::arithmetic::power2::lemma_pow2_pos;
use vstd::arithmetic::power2::lemma2_to64;
use vstd::arithmetic::mul::lemma_mul_upper_bound;
use vstd::seq_lib::commutative_foldl;
use vstd::seq_lib::lemma_fold_left_permutation;
use vstd::seq_lib::group_to_multiset_ensures;

/// One normalized observation of one pixel from one capture: the intensity
/// rescaled to the reference exposure, and the blend weight of that
/// observation. Both are exact fixed-point numbers: the stored integer is the
/// quantity times 2^16 (the scale that makes every exposure factor in the
/// supported range of plus or minus 16 EV stops an exact integer). Weight 0
/// means the observation is excluded (its 2x2 CFA block was saturated).
#[derive(Clone, Copy, Debug, PartialEq, Eq, Structural)]
pub struct Sample {
    pub value: u64,
    pub weight: u64,
}

/// An exact nonnegative rational, `num / den`. The blended output intensity
/// of one pixel is such a ratio; it is not reduced to lowest terms.
#[derive(Clone, Copy, Debug, PartialEq, Eq, Structural)]
pub struct Ratio {
    pub num: u128,
    pub den: u128,
}

/// The fractions `n1 / d1` and `n2 / d2` denote the same rational number.
pub open spec fn frac_eq(n1: int, d1: int, n2: int, d2: int) -> bool {
    &&& d1 > 0
    &&& d2 > 0
    &&& n1 * d2 == n2 * d1
}

/// A sample as a mathematical (value, weight) pair.
pub open spec fn pair_of(s: Sample) -> (int, int) {
    (s.value as int, s.weight as int)
}

pub open spec fn pairs_of(s: Seq<Sample>) -> Seq<(int, int)> {
    s.map_values(|x: Sample| pair_of(x))
}

/// Bounds that normalization guarantees and that keep the blend of up to
/// 65536 samples inside 128-bit arithmetic: the value is below 2^49 and the
/// weight at most 2^32.
pub open spec fn sample_wf(s: Sample) -> bool {
    &&& s.value < 0x2000000000000
    &&& s.weight <= 0x100000000
}

/// Folding step of the weighted sum of values.
pub open spec fn vw_step() -> spec_fn(int, (int, int)) -> int {
    |acc: int, x: (int, int)| acc + x.0 * x.1
}

/// Folding step of the sum of weights.
pub open spec fn w_step() -> spec_fn(int, (int, int)) -> int {
    |acc: int, x: (int, int)| acc + x.1
}

/// Sum of value times weight over a list of (value, weight) pairs.
pub open spec fn sum_vw(s: Seq<(int, int)>) -> int {
    s.fold_left(0int, vw_step())
}

/// Sum of the weights over a list of (value, weight) pairs.
pub open spec fn sum_w(s: Seq<(int, int)>) -> int {
    s.fold_left(0int, w_step())
}

/// Appending one pair adds its contribution to both sums.
pub proof fn lemma_sums_push(s: Seq<(int, int)>, x: (int, int))
    ensures
        sum_vw(s.push(x)) == sum_vw(s) + x.0 * x.1,
        sum_w(s.push(x)) == sum_w(s) + x.1,
{
    assert(s.push(x).drop_last() =~= s);
    assert(s.push(x).last() == x);
}

/// A sum of nonnegative weights is nonnegative, and vanishes exactly when
/// every weight is zero.
pub proof fn lemma_sum_w_zero(s: Seq<(int, int)>)
    requires
        forall|j: int| 0 <= j < s.len() ==> s[j].1 >= 0,
    ensures
        sum_w(s) >= 0,
        sum_w(s) == 0 <==> (forall|j: int| 0 <= j < s.len() ==> s[j].1 == 0),
    decreases s.len(),
{
    if s.len() == 0 {
    } else {
        let prefix = s.drop_last();
        assert(forall|j: int| 0 <= j < prefix.len() ==> prefix[j] == s[j]);
        lemma_sum_w_zero(prefix);
        assert(sum_w(s) == sum_w(prefix) + s.last().1);
        if sum_w(s) == 0 {
            assert forall|j: int| 0 <= j < s.len() implies s[j].1 == 0 by {
                if j < s.len() - 1 {
                    assert(s[j] == prefix[j]);
                }
            }
        }
    }
}

/// Computes the exposure-weighted mean of the samples: the sum of value
/// times weight over the sum of the weights, as an exact ratio. Returns
/// `None` exactly when the total weight is zero, that is, when every
/// observation of the pixel was excluded: that case has no defined mean, and
/// surfacing it explicitly (rather than emitting an undefined number) is the
/// library's policy for it.
pub fn weighted_mean(samples: &Vec<Sample>) -> (r: Option<Ratio>)
    requires
        samples@.len() <= 0x10000,
        forall|j: int| 0 <= j < samples@.len() ==> sample_wf(#[trigger] samples@[j]),
    ensures
        match r {
            Some(q) => {
                &&& sum_w(pairs_of(samples@)) != 0
                &&& q.num == sum_vw(pairs_of(samples@))
                &&& q.den == sum_w(pairs_of(samples@)) * pow2(16)
                &&& q.den > 0
            },
            None => sum_w(pairs_of(samples@)) == 0,
        },
{
    let mut svw: u128 = 0;
    let mut sw: u128 = 0;
    let mut j: usize = 0;
    while j < samples.len()
        invariant
            0 <= j <= samples@.len(),
            samples@.len() <= 0x10000,
            forall|k: int| 0 <= k < samples@.len() ==> sample_wf(#[trigger] samples@[k]),
            svw == sum_vw(pairs_of(samples@.take(j as int))),
            sw == sum_w(pairs_of(samples@.take(j as int))),
            svw <= (j as int) * 0x200000000000000000000,
            sw <= (j as int) * 0x100000000,
        decreases samples@.len() - j,
    {
        let s = samples[j];
        proof {
            assert(pairs_of(samples@.take(j as int + 1)) =~= pairs_of(
                samples@.take(j as int),
            ).push(pair_of(samples@[j as int])));
            lemma_sums_push(pairs_of(samples@.take(j as int)), pair_of(samples@[j as int]));
            lemma_mul_upper_bound(
                s.value as int,
                0x2000000000000 - 1,
                s.weight as int,
                0x100000000,
            );
        }
        svw = svw + (s.value as u128) * (s.weight as u128);
        sw = sw + (s.weight as u128);
        j = j + 1;
    }
    proof {
        assert(samples@.take(samples@.len() as int) =~= samples@);
    }
    if sw == 0 {
        None
    } else {
        proof {
            lemma2_to64();
        }
        Some(Ratio { num: svw, den: sw * 65536 })
    }
}

/// The weighted sums do not depend on the order of the observations: two
/// lists holding the same multiset of (value, weight) pairs have equal sums.
pub proof fn lemma_sums_permutation(s1: Seq<(int, int)>, s2: Seq<(int, int)>)
    requires
        s1.to_multiset() == s2.to_multiset(),
    ensures
        sum_vw(s1) == sum_vw(s2),
        sum_w(s1) == sum_w(s2),
{
    assert(commutative_foldl(vw_step())) by {
        assert forall|x: (int, int), y: (int, int), v: int|
            #[trigger] vw_step()(vw_step()(v, x), y) == vw_step()(vw_step()(v, y), x) by {
        }
    }
    assert(commutative_foldl(w_step())) by {
        assert forall|x: (int, int), y: (int, int), v: int|
            #[trigger] w_step()(w_step()(v, x), y) == w_step()(w_step()(v, y), x) by {
        }
    }
    lemma_fold_left_permutation(s1, s2, vw_step(), 0int);
    lemma_fold_left_permutation(s1, s2, w_step(), 0int);
}

/// Mapping a function over two sequences that hold the same multiset of
/// elements yields sequences that hold the same multiset of images.
pub proof fn lemma_to_multiset_map<A, B>(s1: Seq<A>, s2: Seq<A>, f: spec_fn(A) -> B)
    requires
        s1.to_multiset() == s2.to_multiset(),
    ensures
        s1.map_values(f).to_multiset() == s2.map_values(f).to_multiset(),
    decreases s1.len(),
{
    broadcast use group_to_multiset_ensures;

    if s1.len() > 0 {
        let a = s1.last();
        assert(s1.contains(a));
        assert(s2.to_multiset().count(a) > 0);
        assert(s2.contains(a));
        let i = choose|i: int| 0 <= i < s2.len() && s2[i] == a;
        assert(s1.drop_last() =~= s1.remove(s1.len() - 1));
        assert(s1.drop_last().to_multiset() == s2.remove(i).to_multiset()) by {
            assert(s1.remove(s1.len() - 1).to_multiset() == s1.to_multiset().remove(a));
            assert(s2.remove(i).to_multiset() == s2.to_multiset().remove(a));
        }
        lemma_to_multiset_map(s1.drop_last(), s2.remove(i), f);
        assert(s1.map_values(f) =~= s1.drop_last().map_values(f).push(f(a)));
        assert(s2.remove(i).map_values(f) =~= s2.map_values(f).remove(i));
        assert(s1.map_values(f).to_multiset() == s1.drop_last().map_values(
            f,
        ).to_multiset().insert(f(a)));
        assert(s2.map_values(f).remove(i).to_multiset() == s2.map_values(f).to_multiset().remove(
            f(a),
        )) by {
            assert(s2.map_values(f)[i] == f(a));
        }
        assert(s2.map_values(f).to_multiset().count(f(a)) > 0) by {
            assert(s2.map_values(f)[i] == f(a));
            assert(s2.map_values(f).contains(f(a)));
        }
        assert(s1.map_values(f).to_multiset() =~= s2.map_values(f).to_multiset());
    } else {
        assert(s2.to_multiset().len() == 0);
        assert(s2.len() == 0);
        assert(s1.map_values(f) =~= Seq::<B>::empty());
        assert(s2.map_values(f) =~= Seq::<B>::empty());
    }
}

/// An excluded observation contributes nothing: blending a two-observation
/// list whose first weight is zero yields exactly the second observation's
/// value (the value is carried at scale 2^16).
pub proof fn lemma_blend_excluded(x: (int, int), y: (int, int))
    requires
        x.1 == 0,
        y.1 > 0,
    ensures
        frac_eq(sum_vw(seq![x, y]), sum_w(seq![x, y]) * pow2(16), y.0, pow2(16) as int),
{
    let s = seq![x, y];
    assert(s =~= Seq::empty().push(x).push(y));
    lemma_sums_push(Seq::empty().push(x), y);
    lemma_sums_push(Seq::empty(), x);
    assert(sum_vw(s) == y.0 * y.1);
    assert(sum_w(s) == y.1);
    lemma_pow2_pos(16);
    let p = pow2(16) as int;
    assert(y.1 * p > 0) by (nonlinear_arith)
        requires
            y.1 > 0,
            p > 0,
    ;
    assert((y.0 * y.1) * p == y.0 * (y.1 * p)) by (nonlinear_arith);
}

/// Blending a single observation returns exactly that observation's value
/// (the value is carried at scale 2^16).
pub proof fn lemma_blend_single(x: (int, int))
    requires
        x.1 > 0,
    ensures
        frac_eq(sum_vw(seq![x]), sum_w(seq![x]) * pow2(16), x.0, pow2(16) as int),
{
    let s = seq![x];
    assert(s =~= Seq::empty().push(x));
    lemma_sums_push(Seq::empty(), x);
    assert(sum_vw(s) == x.0 * x.1);
    assert(sum_w(s) == x.1);
    lemma_pow2_pos(16);
    let p = pow2(16) as int;
    assert(x.1 * p > 0) by (nonlinear_arith)
        requires
            x.1 > 0,
            p > 0,
    ;
    assert((x.0 * x.1) * p == x.0 * (x.1 * p)) by (nonlinear_arith);
}

} // verus!
