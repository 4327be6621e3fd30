//! Mathematical model of record splitting and sequence alignment.
//!
//! A [`Segment`] is the ghost image of one quantified record: its quantity
//! key together with its value attributes, both as unbounded integers. The
//! executable splitters and aligners promise that the records they return are
//! exactly the image of [`split_segment`] and [`align_segments`] applied to
//! the images of their inputs; the laws of the algorithm (quantity
//! conservation, value conservation, refinement of the input partitions) are
//! proved here, once, about those specification functions.

use vstd::prelude::*;

verus! {

use vstd::arithmetic::div_mod::{
    lemma_div_is_ordered,
    lemma_div_multiples_vanish,
    lemma_div_of0,
    lemma_div_pos_is_pos,
};
use vstd::arithmetic::mul::lemma_mul_nonnegative;

/// Ghost image of one quantified record: the quantity key and the ordered
/// list of value attributes.
#[verifier::ext_equal]
pub ghost struct Segment {
    pub key: int,
    pub vals: Seq<int>,
}

/// Division that truncates toward zero, as the native `/` of the machine
/// integer types does. In ghost code plain `/` is Euclidean division, which
/// differs on negative operands.
pub open spec fn trunc_div(a: int, b: int) -> int {
    if a >= 0 && b >= 0 {
        a / b
    } else if a < 0 && b < 0 {
        (-a) / (-b)
    } else if a < 0 {
        -((-a) / b)
    } else {
        -(a / (-b))
    }
}

/// Splits one record at quantity offset `x`: the left half receives
/// quantity `x` and the proportional share `v * x / key` of each value
/// attribute `v` (with truncating division); the right half receives the
/// remaining quantity and, for each value, the exact remainder `v - left`.
/// Computing the right side by subtraction rather than by the symmetric
/// proportion makes `left + right == v` hold whatever the truncation did.
pub open spec fn split_segment(g: Segment, x: int) -> (Segment, Segment) {
    let left = Segment {
        key: x,
        vals: Seq::new(g.vals.len(), |i: int| trunc_div(g.vals[i] * x, g.key)),
    };
    let right = Segment {
        key: g.key - x,
        vals: Seq::new(g.vals.len(), |i: int| g.vals[i] - trunc_div(g.vals[i] * x, g.key)),
    };
    (left, right)
}

/// Walks the two sequences over their shared cumulative-quantity axis and
/// emits matched pairs. When the heads have equal keys both advance; when one
/// head reaches further than the other, it is split at the shorter key, the
/// matching halves are emitted and the remainder stays at the front of its
/// side. The walk stops as soon as either side is exhausted; any remainder of
/// the other side is dropped.
pub open spec fn align_segments(src: Seq<Segment>, dest: Seq<Segment>) -> Seq<(Segment, Segment)>
    decreases src.len() + dest.len(),
{
    if src.len() == 0 || dest.len() == 0 {
        Seq::empty()
    } else {
        let s = src[0];
        let d = dest[0];
        if s.key == d.key {
            seq![(s, d)] + align_segments(src.drop_first(), dest.drop_first())
        } else if s.key > d.key {
            let halves = split_segment(s, d.key);
            seq![(halves.0, d)] + align_segments(src.update(0, halves.1), dest.drop_first())
        } else {
            let halves = split_segment(d, s.key);
            seq![(s, halves.0)] + align_segments(src.drop_first(), dest.update(0, halves.1))
        }
    }
}

/// A record whose key is positive and whose value/key products all lie in
/// `[lo, hi]`. This is what the executable code needs so that every
/// multiplication performed while splitting the record (or any fragment of
/// it) stays within the machine integer range.
pub open spec fn seg_within(g: Segment, lo: int, hi: int) -> bool {
    &&& 0 < g.key
    &&& forall|i: int| 0 <= i < g.vals.len() ==> lo <= #[trigger] g.vals[i] * g.key <= hi
}

/// The share `trunc_div(v * x, k)` of a value `v`, for an offset `0 <= x <= k`,
/// lies between `0` and `v` (on whichever side of zero `v` lies).
pub proof fn lemma_trunc_div_share_bounds(v: int, x: int, k: int)
    requires
        0 < k,
        0 <= x <= k,
    ensures
        v >= 0 ==> 0 <= trunc_div(v * x, k) <= v,
        v < 0 ==> v <= trunc_div(v * x, k) <= 0,
{
    if v >= 0 {
        lemma_mul_nonnegative(v, x);
        lemma_div_pos_is_pos(v * x, k);
        assert(v * x <= k * v) by (nonlinear_arith)
            requires 0 <= v && 0 <= x <= k;
        lemma_div_is_ordered(v * x, k * v, k);
        lemma_div_multiples_vanish(v, k);
    } else {
        let w = -v;
        lemma_mul_nonnegative(w, x);
        assert(v * x == -(w * x)) by (nonlinear_arith)
            requires w == -v;
        if w * x == 0 {
            lemma_div_of0(k);
        } else {
            lemma_div_pos_is_pos(w * x, k);
            assert(w * x <= k * w) by (nonlinear_arith)
                requires 0 <= w && 0 <= x <= k;
            lemma_div_is_ordered(w * x, k * w, k);
            lemma_div_multiples_vanish(w, k);
            assert(trunc_div(v * x, k) == -((w * x) / k));
        }
    }
}

/// If `w` lies between `0` and `v`, and `0 <= x <= k`, then `w * x` lies
/// within any interval around zero that contains `v * k`.
pub proof fn lemma_shrunken_product_within(v: int, w: int, x: int, k: int, lo: int, hi: int)
    requires
        0 <= w <= v || v <= w <= 0,
        0 <= x <= k,
        lo <= v * k <= hi,
        lo <= 0 <= hi,
    ensures
        lo <= w * x <= hi,
{
    if 0 <= v {
        assert(0 <= w * x && w * x <= v * k) by (nonlinear_arith)
            requires 0 <= w <= v && 0 <= x <= k;
    } else {
        assert(w * x <= 0 && v * k <= w * x) by (nonlinear_arith)
            requires v <= w <= 0 && 0 <= x <= k;
    }
}

/// Splitting a record conserves each value attribute exactly — the two
/// halves of every value sum back to the original, whatever the truncation
/// did to the left share — and conserves the quantity key.
pub proof fn lemma_split_segment_conserves(g: Segment, x: int)
    ensures
        split_segment(g, x).0.key + split_segment(g, x).1.key == g.key,
        split_segment(g, x).0.vals.len() == g.vals.len(),
        split_segment(g, x).1.vals.len() == g.vals.len(),
        forall|i: int| 0 <= i < g.vals.len() ==> split_segment(g, x).0.vals[i]
            + split_segment(g, x).1.vals[i] == #[trigger] g.vals[i],
{
}

/// Splitting at offset `0` yields a zero-quantity, zero-valued left half and
/// leaves the record unchanged on the right.
pub proof fn lemma_split_segment_at_zero(g: Segment)
    requires
        0 < g.key,
    ensures
        split_segment(g, 0).0.key == 0,
        split_segment(g, 0).0.vals.len() == g.vals.len(),
        forall|i: int| 0 <= i < g.vals.len() ==> split_segment(g, 0).0.vals[i] == 0,
        split_segment(g, 0).1 == g,
{
    lemma_div_of0(g.key);
    assert forall|i: int| 0 <= i < g.vals.len() implies split_segment(g, 0).0.vals[i] == 0 by {
        assert(g.vals[i] * 0 == 0) by (nonlinear_arith);
    }
    assert(split_segment(g, 0).1 =~= g);
}

/// Splitting at the record's full quantity leaves the record unchanged on
/// the left and yields a zero-quantity, zero-valued right half.
pub proof fn lemma_split_segment_at_key(g: Segment)
    requires
        0 < g.key,
    ensures
        split_segment(g, g.key).0 == g,
        split_segment(g, g.key).1.key == 0,
        split_segment(g, g.key).1.vals.len() == g.vals.len(),
        forall|i: int| 0 <= i < g.vals.len() ==> split_segment(g, g.key).1.vals[i] == 0,
{
    assert forall|i: int| 0 <= i < g.vals.len() implies split_segment(
        g,
        g.key,
    ).0.vals[i] == g.vals[i] by {
        let v = g.vals[i];
        if v >= 0 {
            assert(v * g.key == g.key * v) by (nonlinear_arith);
            lemma_mul_nonnegative(v, g.key);
            lemma_div_multiples_vanish(v, g.key);
        } else {
            let w = -v;
            assert(v * g.key == -(g.key * w)) by (nonlinear_arith)
                requires w == -v;
            lemma_mul_nonnegative(w, g.key);
            lemma_div_multiples_vanish(w, g.key);
        }
    }
    assert(split_segment(g, g.key).0 =~= g);
}

/// Both halves of a record whose value/key products lie within `[lo, hi]`
/// have that same property; so do, therefore, all fragments of fragments.
pub proof fn lemma_split_segment_within(g: Segment, x: int, lo: int, hi: int)
    requires
        seg_within(g, lo, hi),
        0 < x < g.key,
        lo <= 0 <= hi,
    ensures
        seg_within(split_segment(g, x).0, lo, hi),
        seg_within(split_segment(g, x).1, lo, hi),
{
    let (left, right) = split_segment(g, x);
    assert forall|i: int| 0 <= i < left.vals.len() implies lo <= #[trigger] left.vals[i]
        * left.key <= hi by {
        let v = g.vals[i];
        lemma_trunc_div_share_bounds(v, x, g.key);
        lemma_shrunken_product_within(v, left.vals[i], x, g.key, lo, hi);
    }
    assert forall|i: int| 0 <= i < right.vals.len() implies lo <= #[trigger] right.vals[i]
        * right.key <= hi by {
        let v = g.vals[i];
        lemma_trunc_div_share_bounds(v, x, g.key);
        lemma_shrunken_product_within(v, right.vals[i], g.key - x, g.key, lo, hi);
    }
}

/// Quantity conservation: in every pair that the aligner emits, the source
/// segment and the destination segment carry the same quantity key.
pub proof fn lemma_align_segments_keys_match(src: Seq<Segment>, dest: Seq<Segment>)
    ensures
        forall|i: int| 0 <= i < align_segments(src, dest).len() ==> (#[trigger] align_segments(
            src,
            dest,
        )[i]).0.key == align_segments(src, dest)[i].1.key,
    decreases src.len() + dest.len(),
{
    if src.len() == 0 || dest.len() == 0 {
    } else {
        let s = src[0];
        let d = dest[0];
        let res = align_segments(src, dest);
        let (srcr, destr) = if s.key == d.key {
            (src.drop_first(), dest.drop_first())
        } else if s.key > d.key {
            (src.update(0, split_segment(s, d.key).1), dest.drop_first())
        } else {
            (src.drop_first(), dest.update(0, split_segment(d, s.key).1))
        };
        lemma_align_segments_keys_match(srcr, destr);
        let rest = align_segments(srcr, destr);
        assert forall|i: int| 0 <= i < res.len() implies (#[trigger] res[i]).0.key
            == res[i].1.key by {
            if i > 0 {
                assert(res[i] == rest[i - 1]);
            }
        }
    }
}

/// Every record the aligner emits carries a positive quantity key, as every
/// record entering it must.
pub proof fn lemma_align_segments_keys_positive(src: Seq<Segment>, dest: Seq<Segment>)
    requires
        all_keys_positive(src),
        all_keys_positive(dest),
    ensures
        forall|i: int| 0 <= i < align_segments(src, dest).len() ==> 0 < (#[trigger] align_segments(
            src,
            dest,
        )[i]).0.key,
    decreases src.len() + dest.len(),
{
    if src.len() == 0 || dest.len() == 0 {
    } else {
        let s = src[0];
        let d = dest[0];
        let res = align_segments(src, dest);
        let (srcr, destr) = if s.key == d.key {
            (src.drop_first(), dest.drop_first())
        } else if s.key > d.key {
            (src.update(0, split_segment(s, d.key).1), dest.drop_first())
        } else {
            (src.drop_first(), dest.update(0, split_segment(d, s.key).1))
        };
        assert(all_keys_positive(srcr)) by {
            assert(forall|i: int| 0 <= i < srcr.len() ==> srcr[i] == src[i] || srcr[i]
                == src.drop_first()[i] || srcr[i] == split_segment(s, d.key).1);
        }
        assert(all_keys_positive(destr)) by {
            assert(forall|i: int| 0 <= i < destr.len() ==> destr[i] == dest[i] || destr[i]
                == dest.drop_first()[i] || destr[i] == split_segment(d, s.key).1);
        }
        lemma_align_segments_keys_positive(srcr, destr);
        let rest = align_segments(srcr, destr);
        assert forall|i: int| 0 <= i < res.len() implies 0 < (#[trigger] res[i]).0.key by {
            if i > 0 {
                assert(res[i] == rest[i - 1]);
            }
        }
    }
}

/// The total quantity carried by a sequence of segments.
pub open spec fn sum_keys(s: Seq<Segment>) -> int
    decreases s.len(),
{
    if s.len() == 0 {
        0
    } else {
        s[0].key + sum_keys(s.drop_first())
    }
}

/// The total of value attribute `j` over a sequence of segments.
pub open spec fn sum_vals_at(s: Seq<Segment>, j: int) -> int
    decreases s.len(),
{
    if s.len() == 0 {
        0
    } else {
        s[0].vals[j] + sum_vals_at(s.drop_first(), j)
    }
}

/// Every segment of the sequence has a positive quantity key.
pub open spec fn all_keys_positive(s: Seq<Segment>) -> bool {
    forall|i: int| 0 <= i < s.len() ==> 0 < (#[trigger] s[i]).key
}

pub proof fn lemma_sum_keys_cons(g: Segment, s: Seq<Segment>)
    ensures
        sum_keys(seq![g] + s) == g.key + sum_keys(s),
{
    assert((seq![g] + s).drop_first() =~= s);
}

pub proof fn lemma_sum_vals_at_cons(g: Segment, s: Seq<Segment>, j: int)
    ensures
        sum_vals_at(seq![g] + s, j) == g.vals[j] + sum_vals_at(s, j),
{
    assert((seq![g] + s).drop_first() =~= s);
}

pub proof fn lemma_sum_keys_positive(s: Seq<Segment>)
    requires
        all_keys_positive(s),
    ensures
        sum_keys(s) >= 0,
        s.len() > 0 ==> sum_keys(s) > 0,
    decreases s.len(),
{
    if s.len() > 0 {
        assert(all_keys_positive(s.drop_first()));
        lemma_sum_keys_positive(s.drop_first());
    }
}

/// Alignment is symmetric: aligning destination against source yields the
/// same pairs, each with its two sides swapped.
pub proof fn lemma_align_segments_swap(src: Seq<Segment>, dest: Seq<Segment>)
    ensures
        align_segments(dest, src) == align_segments(src, dest).map_values(
            |p: (Segment, Segment)| (p.1, p.0),
        ),
    decreases src.len() + dest.len(),
{
    let swap = |p: (Segment, Segment)| (p.1, p.0);
    if src.len() == 0 || dest.len() == 0 {
        assert(align_segments(dest, src) =~= align_segments(src, dest).map_values(swap));
    } else {
        let s = src[0];
        let d = dest[0];
        if s.key == d.key {
            lemma_align_segments_swap(src.drop_first(), dest.drop_first());
        } else if s.key > d.key {
            lemma_align_segments_swap(src.update(0, split_segment(s, d.key).1),
                dest.drop_first());
        } else {
            lemma_align_segments_swap(src.drop_first(),
                dest.update(0, split_segment(d, s.key).1));
        }
        assert(align_segments(dest, src) =~= align_segments(src, dest).map_values(swap));
    }
}

/// `fine` refines a prefix of `coarse`: reading `fine` in order, consecutive
/// groups sum (by quantity key) to the successive elements of `coarse`,
/// except that the last group may stop short of its element — the aligner
/// drops the tail of the longer side — and `coarse` may have unconsumed
/// elements left after that.
pub open spec fn keys_refine_prefix(fine: Seq<Segment>, coarse: Seq<Segment>) -> bool
    decreases fine.len(),
{
    if fine.len() == 0 {
        true
    } else if coarse.len() == 0 {
        false
    } else {
        exists|k: int|
            1 <= k <= fine.len() && ((sum_keys(#[trigger] fine.take(k)) == coarse[0].key
                && keys_refine_prefix(fine.skip(k), coarse.drop_first())) || (k == fine.len()
                && sum_keys(fine) < coarse[0].key))
    }
}

proof fn lemma_keys_refine_prepend(
    fine: Seq<Segment>,
    g: Segment,
    r: Segment,
    coarse_rest: Seq<Segment>,
    orig: Segment,
)
    requires
        keys_refine_prefix(fine, seq![r] + coarse_rest),
        0 < g.key,
        0 < r.key,
        g.key + r.key == orig.key,
    ensures
        keys_refine_prefix(seq![g] + fine, seq![orig] + coarse_rest),
{
    let fine2 = seq![g] + fine;
    let coarse1 = seq![r] + coarse_rest;
    let coarse2 = seq![orig] + coarse_rest;
    if fine.len() == 0 {
        assert(fine2.take(1) =~= seq![g]);
        lemma_sum_keys_cons(g, Seq::empty());
        assert(sum_keys(seq![g] + Seq::empty()) == sum_keys(fine2)) by {
            assert(seq![g] + Seq::<Segment>::empty() =~= fine2);
        }
        assert(1 == fine2.len() && sum_keys(fine2) < coarse2[0].key);
    } else {
        let k = choose|k: int|
            1 <= k <= fine.len() && ((sum_keys(#[trigger] fine.take(k)) == coarse1[0].key
                && keys_refine_prefix(fine.skip(k), coarse1.drop_first())) || (k == fine.len()
                && sum_keys(fine) < coarse1[0].key));
        assert(fine2.take(k + 1) =~= seq![g] + fine.take(k));
        lemma_sum_keys_cons(g, fine.take(k));
        assert(fine2.skip(k + 1) =~= fine.skip(k));
        assert(coarse1.drop_first() =~= coarse_rest);
        assert(coarse2.drop_first() =~= coarse_rest);
        if sum_keys(fine.take(k)) == r.key && keys_refine_prefix(fine.skip(k), coarse_rest) {
            assert(sum_keys(fine2.take(k + 1)) == coarse2[0].key && keys_refine_prefix(
                fine2.skip(k + 1),
                coarse2.drop_first(),
            ));
        } else {
            assert(fine.take(k) =~= fine);
            assert(k + 1 == fine2.len() && sum_keys(fine2.take(k + 1)) < coarse2[0].key);
        }
    }
}

proof fn lemma_align_refines_keys_src(src: Seq<Segment>, dest: Seq<Segment>)
    requires
        all_keys_positive(src),
        all_keys_positive(dest),
    ensures
        keys_refine_prefix(
            align_segments(src, dest).map_values(|p: (Segment, Segment)| p.0),
            src,
        ),
    decreases src.len() + dest.len(),
{
    let first = |p: (Segment, Segment)| p.0;
    if src.len() == 0 || dest.len() == 0 {
        assert(align_segments(src, dest).map_values(first) =~= Seq::<Segment>::empty());
    } else {
        let s = src[0];
        let d = dest[0];
        let fine = align_segments(src, dest).map_values(first);
        if s.key == d.key {
            let srcr = src.drop_first();
            let destr = dest.drop_first();
            assert(all_keys_positive(srcr) && all_keys_positive(destr));
            lemma_align_refines_keys_src(srcr, destr);
            let restmap = align_segments(srcr, destr).map_values(first);
            assert(fine =~= seq![s] + restmap);
            assert(fine.take(1) =~= seq![s]);
            lemma_sum_keys_cons(s, Seq::empty());
            assert(seq![s] + Seq::<Segment>::empty() =~= seq![s]);
            assert(fine.skip(1) =~= restmap);
            assert(srcr =~= src.drop_first());
            assert(sum_keys(fine.take(1)) == src[0].key && keys_refine_prefix(
                fine.skip(1),
                src.drop_first(),
            ));
        } else if s.key > d.key {
            let cut = split_segment(s, d.key);
            let srcr = src.update(0, cut.1);
            let destr = dest.drop_first();
            assert(all_keys_positive(srcr)) by {
                assert(forall|i: int| 0 < i < srcr.len() ==> srcr[i] == src[i]);
            }
            assert(all_keys_positive(destr));
            lemma_align_refines_keys_src(srcr, destr);
            let restmap = align_segments(srcr, destr).map_values(first);
            assert(fine =~= seq![cut.0] + restmap);
            assert(srcr =~= seq![cut.1] + src.drop_first());
            lemma_keys_refine_prepend(restmap, cut.0, cut.1, src.drop_first(), s);
            assert(seq![s] + src.drop_first() =~= src);
        } else {
            let cut = split_segment(d, s.key);
            let srcr = src.drop_first();
            let destr = dest.update(0, cut.1);
            assert(all_keys_positive(srcr));
            assert(all_keys_positive(destr)) by {
                assert(forall|i: int| 0 < i < destr.len() ==> destr[i] == dest[i]);
            }
            lemma_align_refines_keys_src(srcr, destr);
            let restmap = align_segments(srcr, destr).map_values(first);
            assert(fine =~= seq![s] + restmap);
            assert(fine.take(1) =~= seq![s]);
            lemma_sum_keys_cons(s, Seq::empty());
            assert(seq![s] + Seq::<Segment>::empty() =~= seq![s]);
            assert(fine.skip(1) =~= restmap);
            assert(sum_keys(fine.take(1)) == src[0].key && keys_refine_prefix(
                fine.skip(1),
                src.drop_first(),
            ));
        }
    }
}

/// Order and partition preservation: the quantity keys of the emitted source
/// segments, read in order, refine the source sequence's keys — consecutive
/// output groups sum back to the successive input records, with at most a
/// shortfall at the very end where the walk stopped — and symmetrically for
/// the destination side.
pub proof fn lemma_align_segments_refine_inputs(src: Seq<Segment>, dest: Seq<Segment>)
    requires
        all_keys_positive(src),
        all_keys_positive(dest),
    ensures
        keys_refine_prefix(
            align_segments(src, dest).map_values(|p: (Segment, Segment)| p.0),
            src,
        ),
        keys_refine_prefix(
            align_segments(src, dest).map_values(|p: (Segment, Segment)| p.1),
            dest,
        ),
{
    lemma_align_refines_keys_src(src, dest);
    lemma_align_refines_keys_src(dest, src);
    lemma_align_segments_swap(src, dest);
    assert(align_segments(dest, src).map_values(|p: (Segment, Segment)| p.0)
        =~= align_segments(src, dest).map_values(|p: (Segment, Segment)| p.1));
}

/// The group of segments adds up, key and every value attribute alike,
/// exactly to the original record.
pub open spec fn seg_sum_matches(group: Seq<Segment>, orig: Segment) -> bool {
    &&& sum_keys(group) == orig.key
    &&& forall|i: int| 0 <= i < group.len() ==> (#[trigger] group[i]).vals.len()
        == orig.vals.len()
    &&& forall|j: int| 0 <= j < orig.vals.len() ==> sum_vals_at(group, j) == #[trigger] orig.vals[j]
}

/// `fine` partitions `coarse` exactly: consecutive groups of `fine` sum back
/// to the successive elements of `coarse`, key and every value attribute
/// alike, with nothing left over on either side.
pub open spec fn segments_refine(fine: Seq<Segment>, coarse: Seq<Segment>) -> bool
    decreases fine.len(),
{
    if coarse.len() == 0 {
        fine.len() == 0
    } else if fine.len() == 0 {
        false
    } else {
        exists|k: int|
            1 <= k <= fine.len() && seg_sum_matches(#[trigger] fine.take(k), coarse[0])
                && segments_refine(fine.skip(k), coarse.drop_first())
    }
}

proof fn lemma_segments_refine_prepend(
    fine: Seq<Segment>,
    g: Segment,
    r: Segment,
    coarse_rest: Seq<Segment>,
    orig: Segment,
)
    requires
        segments_refine(fine, seq![r] + coarse_rest),
        g.key + r.key == orig.key,
        g.vals.len() == orig.vals.len(),
        r.vals.len() == orig.vals.len(),
        forall|j: int| 0 <= j < orig.vals.len() ==> g.vals[j] + r.vals[j] == #[trigger] orig.vals[j],
    ensures
        segments_refine(seq![g] + fine, seq![orig] + coarse_rest),
{
    let fine2 = seq![g] + fine;
    let coarse1 = seq![r] + coarse_rest;
    let coarse2 = seq![orig] + coarse_rest;
    assert(coarse1.len() > 0);
    assert(fine.len() > 0);
    let k = choose|k: int|
        1 <= k <= fine.len() && seg_sum_matches(#[trigger] fine.take(k), coarse1[0])
            && segments_refine(fine.skip(k), coarse1.drop_first());
    let grp = fine.take(k);
    let grp2 = fine2.take(k + 1);
    assert(grp2 =~= seq![g] + grp);
    lemma_sum_keys_cons(g, grp);
    assert(forall|i: int| 0 < i < grp2.len() ==> grp2[i] == grp[i - 1]);
    assert forall|j: int| 0 <= j < orig.vals.len() implies sum_vals_at(grp2, j)
        == #[trigger] orig.vals[j] by {
        lemma_sum_vals_at_cons(g, grp, j);
    }
    assert(fine2.skip(k + 1) =~= fine.skip(k));
    assert(coarse1.drop_first() =~= coarse_rest);
    assert(coarse2.drop_first() =~= coarse_rest);
    assert(1 <= k + 1 <= fine2.len() && seg_sum_matches(fine2.take(k + 1), coarse2[0])
        && segments_refine(fine2.skip(k + 1), coarse2.drop_first()));
}

proof fn lemma_align_conserves_src(src: Seq<Segment>, dest: Seq<Segment>)
    requires
        all_keys_positive(src),
        all_keys_positive(dest),
        sum_keys(src) == sum_keys(dest),
    ensures
        segments_refine(
            align_segments(src, dest).map_values(|p: (Segment, Segment)| p.0),
            src,
        ),
    decreases src.len() + dest.len(),
{
    let first = |p: (Segment, Segment)| p.0;
    if src.len() == 0 {
        lemma_sum_keys_positive(dest);
        assert(dest.len() == 0);
        assert(align_segments(src, dest).map_values(first) =~= Seq::<Segment>::empty());
    } else if dest.len() == 0 {
        lemma_sum_keys_positive(src);
        assert(false);
    } else {
        let s = src[0];
        let d = dest[0];
        let fine = align_segments(src, dest).map_values(first);
        if s.key == d.key {
            let srcr = src.drop_first();
            let destr = dest.drop_first();
            assert(all_keys_positive(srcr) && all_keys_positive(destr));
            lemma_align_conserves_src(srcr, destr);
            let restmap = align_segments(srcr, destr).map_values(first);
            assert(fine =~= seq![s] + restmap);
            assert(fine.take(1) =~= seq![s]);
            assert(seq![s] + Seq::<Segment>::empty() =~= seq![s]);
            lemma_sum_keys_cons(s, Seq::empty());
            assert forall|j: int| 0 <= j < s.vals.len() implies sum_vals_at(fine.take(1), j)
                == #[trigger] s.vals[j] by {
                lemma_sum_vals_at_cons(s, Seq::empty(), j);
            }
            assert(fine.skip(1) =~= restmap);
            assert(1 <= 1 <= fine.len() && seg_sum_matches(fine.take(1), src[0])
                && segments_refine(fine.skip(1), src.drop_first()));
        } else if s.key > d.key {
            let cut = split_segment(s, d.key);
            let srcr = src.update(0, cut.1);
            let destr = dest.drop_first();
            assert(all_keys_positive(srcr)) by {
                assert(forall|i: int| 0 < i < srcr.len() ==> srcr[i] == src[i]);
            }
            assert(all_keys_positive(destr));
            assert(srcr =~= seq![cut.1] + src.drop_first());
            assert(src =~= seq![s] + src.drop_first());
            lemma_sum_keys_cons(cut.1, src.drop_first());
            lemma_sum_keys_cons(s, src.drop_first());
            lemma_align_conserves_src(srcr, destr);
            let restmap = align_segments(srcr, destr).map_values(first);
            assert(fine =~= seq![cut.0] + restmap);
            lemma_split_segment_conserves(s, d.key);
            lemma_segments_refine_prepend(restmap, cut.0, cut.1, src.drop_first(), s);
        } else {
            let cut = split_segment(d, s.key);
            let srcr = src.drop_first();
            let destr = dest.update(0, cut.1);
            assert(all_keys_positive(srcr));
            assert(all_keys_positive(destr)) by {
                assert(forall|i: int| 0 < i < destr.len() ==> destr[i] == dest[i]);
            }
            assert(destr =~= seq![cut.1] + dest.drop_first());
            assert(dest =~= seq![d] + dest.drop_first());
            lemma_sum_keys_cons(cut.1, dest.drop_first());
            lemma_sum_keys_cons(d, dest.drop_first());
            lemma_align_conserves_src(srcr, destr);
            let restmap = align_segments(srcr, destr).map_values(first);
            assert(fine =~= seq![s] + restmap);
            assert(fine.take(1) =~= seq![s]);
            assert(seq![s] + Seq::<Segment>::empty() =~= seq![s]);
            lemma_sum_keys_cons(s, Seq::empty());
            assert forall|j: int| 0 <= j < s.vals.len() implies sum_vals_at(fine.take(1), j)
                == #[trigger] s.vals[j] by {
                lemma_sum_vals_at_cons(s, Seq::empty(), j);
            }
            assert(fine.skip(1) =~= restmap);
            assert(1 <= 1 <= fine.len() && seg_sum_matches(fine.take(1), src[0])
                && segments_refine(fine.skip(1), src.drop_first()));
        }
    }
}

/// Value conservation: when the two sequences carry the same total quantity,
/// the emitted source segments partition the source records exactly — for
/// each original record, the quantity keys and every value attribute of the
/// segments derived from it sum back to the original, with no rounding
/// leakage — and symmetrically for the destination side.
pub proof fn lemma_align_segments_conserve_values(src: Seq<Segment>, dest: Seq<Segment>)
    requires
        all_keys_positive(src),
        all_keys_positive(dest),
        sum_keys(src) == sum_keys(dest),
    ensures
        segments_refine(
            align_segments(src, dest).map_values(|p: (Segment, Segment)| p.0),
            src,
        ),
        segments_refine(
            align_segments(src, dest).map_values(|p: (Segment, Segment)| p.1),
            dest,
        ),
{
    lemma_align_conserves_src(src, dest);
    lemma_align_conserves_src(dest, src);
    lemma_align_segments_swap(src, dest);
    assert(align_segments(dest, src).map_values(|p: (Segment, Segment)| p.0)
        =~= align_segments(src, dest).map_values(|p: (Segment, Segment)| p.1));
}

} // verus!
