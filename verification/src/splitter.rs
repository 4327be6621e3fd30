//! Record splitting and sequence alignment over `i64` quantities and values.
//!
//! The [`slicer`](crate::slicer) module carries the same engine over `i32`;
//! both are proved against the one model in [`model`](crate::model).

use vstd::prelude::*;

verus! {

use crate::EmptyInputError;
use crate::model::{
    Segment,
    align_segments,
    all_keys_positive,
    seg_within,
    split_segment,
    trunc_div,
    lemma_split_segment_within,
    lemma_shrunken_product_within,
    lemma_trunc_div_share_bounds,
    lemma_align_segments_keys_match,
    lemma_align_segments_keys_positive,
};
use vstd::arithmetic::div_mod::lemma_div_of0;

/// A quantified record: something carrying an `i64` quantity key and an
/// ordered list of `i64` value attributes. Implementors also say, through the
/// two specification functions, what key and values the contracts of this
/// module speak about; the executable accessors must agree with them.
pub trait SplitItem: Sized {
    /// The quantity key, as the contracts see it. An implementor inside
    /// `verus!` overrides this to name its own key field; an implementor
    /// outside ghost code may leave the default, which promises nothing.
    open spec fn key(&self) -> i64 {
        0
    }

    /// The value attributes, as the contracts see them; see [`Self::key`].
    open spec fn values(&self) -> Seq<i64> {
        Seq::empty()
    }

    /// Returns the quantity key.
    fn get_key(&self) -> (k: i64)
        ensures
            k == self.key(),
    ;

    /// Returns the value attributes, index-aligned with the record.
    fn get_values(&self) -> (v: Vec<i64>)
        ensures
            v@ == self.values(),
    ;

    /// Builds a record like this one, with the quantity key and the value
    /// attributes replaced and everything else carried over.
    fn with_key_values(&self, key: i64, values: Vec<i64>) -> (r: Self)
        ensures
            r.key() == key,
            r.values() == values@,
    ;
}

/// A minimal record carrying nothing but the capability itself: a quantity
/// key and value attributes. It holds the trait's contracts under proof;
/// callers with richer records implement [`SplitItem`] on their own types
/// the same way.
#[derive(Debug, Clone, PartialEq, Eq)]
pub struct SplitRecord {
    pub qty: i64,
    pub vals: Vec<i64>,
}

impl SplitItem for SplitRecord {
    open spec fn key(&self) -> i64 {
        self.qty
    }

    open spec fn values(&self) -> Seq<i64> {
        self.vals@
    }

    fn get_key(&self) -> (k: i64) {
        self.qty
    }

    fn get_values(&self) -> (v: Vec<i64>) {
        let mut v: Vec<i64> = Vec::new();
        let mut i: usize = 0;
        #[verifier::loop_isolation(false)]
        while i < self.vals.len()
            invariant
                i <= self.vals@.len(),
                v@ == self.vals@.take(i as int),
            decreases self.vals@.len() - i,
        {
            let b = self.vals[i];
            v.push(b);
            proof {
                assert(v@ =~= self.vals@.take(i as int + 1));
            }
            i += 1;
        }
        proof {
            assert(self.vals@.take(self.vals@.len() as int) =~= self.vals@);
        }
        v
    }

    fn with_key_values(&self, key: i64, values: Vec<i64>) -> (r: Self) {
        SplitRecord { qty: key, vals: values }
    }
}

/// The ghost image of one record: its key and values as unbounded integers.
pub open spec fn seg_of<T: SplitItem>(t: T) -> Segment {
    Segment { key: t.key() as int, vals: t.values().map_values(|v: i64| v as int) }
}

/// The ghost images of a sequence of records.
pub open spec fn segs_of<T: SplitItem>(s: Seq<T>) -> Seq<Segment> {
    s.map_values(|t: T| seg_of(t))
}

/// The ghost images of a sequence of output pairs.
pub open spec fn pair_segs_of<S: SplitItem, D: SplitItem>(s: Seq<(S, D)>) -> Seq<
    (Segment, Segment),
> {
    s.map_values(|p: (S, D)| (seg_of(p.0), seg_of(p.1)))
}

/// Division truncating toward zero, the semantics of the machine `/`.
/// Relies on `i64::checked_div`, whose result vstd specifies exactly.
fn div_trunc(a: i64, b: i64) -> (r: i64)
    requires
        b != 0,
        i64::MIN <= trunc_div(a as int, b as int) <= i64::MAX,
    ensures
        r == trunc_div(a as int, b as int),
{
    proof {
        if a == 0 {
            lemma_div_of0(if b >= 0 { b as int } else { -(b as int) });
        }
    }
    let q = a.checked_div(b);
    q.unwrap()
}

/// Splits `item` in two at quantity offset `split_x`. The left record takes
/// quantity `split_x` and, for every value attribute `v`, the truncated
/// proportional share `v * split_x / key`; the right record takes the
/// remaining quantity and, for every value, exactly what the left share left
/// over, so that the two halves of each value sum back to the original.
pub fn split_item<T: SplitItem>(item: T, split_x: i64) -> (r: (T, T))
    requires
        0 < item.key(),
        0 <= split_x <= item.key(),
        forall|i: int| 0 <= i < item.values().len() ==> i64::MIN <= (#[trigger] item.values()[i])
            * split_x <= i64::MAX,
    ensures
        seg_of(r.0) == split_segment(seg_of(item), split_x as int).0,
        seg_of(r.1) == split_segment(seg_of(item), split_x as int).1,
{
    let item_x = item.get_key();
    let vals = item.get_values();
    let ghost g = seg_of(item);

    let mut left_vals: Vec<i64> = Vec::new();
    let mut i: usize = 0;
    while i < vals.len()
        invariant
            0 < item_x == item.key(),
            0 <= split_x <= item_x,
            vals@ == item.values(),
            forall|j: int| 0 <= j < vals@.len() ==> i64::MIN <= (#[trigger] vals@[j]) * split_x
                <= i64::MAX,
            i <= vals@.len(),
            left_vals@.len() == i,
            forall|j: int| 0 <= j < i ==> left_vals@[j] == trunc_div(
                (#[trigger] vals@[j]) * split_x as int,
                item_x as int,
            ),
        decreases vals@.len() - i,
    {
        let v = vals[i];
        proof {
            lemma_trunc_div_share_bounds(v as int, split_x as int, item_x as int);
        }
        let q = div_trunc(v * split_x, item_x);
        left_vals.push(q);
        i += 1;
    }

    let mut right_vals: Vec<i64> = Vec::new();
    let mut j: usize = 0;
    while j < vals.len()
        invariant
            0 < item_x == item.key(),
            0 <= split_x <= item_x,
            vals@ == item.values(),
            left_vals@.len() == vals@.len(),
            forall|m: int| 0 <= m < vals@.len() ==> left_vals@[m] == trunc_div(
                (#[trigger] vals@[m]) * split_x as int,
                item_x as int,
            ),
            j <= vals@.len(),
            right_vals@.len() == j,
            forall|m: int| 0 <= m < j ==> right_vals@[m] == (#[trigger] vals@[m]) - left_vals@[m],
        decreases vals@.len() - j,
    {
        let v = vals[j];
        let lv = left_vals[j];
        proof {
            lemma_trunc_div_share_bounds(v as int, split_x as int, item_x as int);
        }
        right_vals.push(v - lv);
        j += 1;
    }

    let left = item.with_key_values(split_x, left_vals);
    let right = item.with_key_values(item_x - split_x, right_vals);
    proof {
        assert(seg_of(left) =~= split_segment(g, split_x as int).0);
        assert(seg_of(right) =~= split_segment(g, split_x as int).1);
    }
    (left, right)
}

/// The ghost images of an optional current record: one segment, or none.
pub open spec fn opt_segs<T: SplitItem>(o: Option<T>) -> Seq<Segment> {
    match o {
        Some(t) => seq![seg_of(t)],
        None => Seq::empty(),
    }
}

/// Aligns the `src` and `dest` sequences over their shared cumulative
/// quantity axis and returns the matched pairs, splitting whichever record
/// straddles a boundary; see [`align_segments`] for the exact image of the
/// result. Walking stops as soon as either side is exhausted, silently
/// dropping any remainder of the other side. Fails if either input is empty.
pub fn split_all<S: SplitItem, D: SplitItem>(src: Vec<S>, dest: Vec<D>) -> (r: Result<
    Vec<(S, D)>,
    EmptyInputError,
>)
    requires
        forall|i: int| 0 <= i < src@.len() ==> seg_within(
            seg_of(#[trigger] src@[i]),
            i64::MIN as int,
            i64::MAX as int,
        ),
        forall|i: int| 0 <= i < dest@.len() ==> seg_within(
            seg_of(#[trigger] dest@[i]),
            i64::MIN as int,
            i64::MAX as int,
        ),
    ensures
        r is Err <==> (src@.len() == 0 || dest@.len() == 0),
        r matches Ok(out) ==> pair_segs_of(out@) == align_segments(segs_of(src@), segs_of(dest@)),
        r matches Ok(out) ==> forall|i: int| 0 <= i < out@.len() ==> (#[trigger] out@[i]).0.key()
            == out@[i].1.key() && 0 < out@[i].0.key(),
{
    let ghost lo = i64::MIN as int;
    let ghost hi = i64::MAX as int;
    let ghost gsrc = segs_of(src@);
    let ghost gdest = segs_of(dest@);
    let mut s = src;
    let mut d = dest;
    if s.len() == 0 || d.len() == 0 {
        return Err(EmptyInputError);
    }
    let mut out: Vec<(S, D)> = Vec::new();
    let mut cur_s: Option<S> = Some(s.remove(0));
    let mut cur_d: Option<D> = Some(d.remove(0));
    proof {
        assert(opt_segs(cur_s) + segs_of(s@) =~= gsrc);
        assert(opt_segs(cur_d) + segs_of(d@) =~= gdest);
        assert(pair_segs_of(out@) + align_segments(gsrc, gdest) =~= align_segments(gsrc, gdest));
    }
    #[verifier::loop_isolation(false)]
    while cur_s.is_some() && cur_d.is_some()
        invariant
            cur_s is None ==> s@.len() == 0,
            cur_d is None ==> d@.len() == 0,
            forall|i: int| 0 <= i < opt_segs(cur_s).len() + segs_of(s@).len() ==> seg_within(
                #[trigger] (opt_segs(cur_s) + segs_of(s@))[i],
                i64::MIN as int,
                i64::MAX as int,
            ),
            forall|i: int| 0 <= i < opt_segs(cur_d).len() + segs_of(d@).len() ==> seg_within(
                #[trigger] (opt_segs(cur_d) + segs_of(d@))[i],
                i64::MIN as int,
                i64::MAX as int,
            ),
            pair_segs_of(out@) + align_segments(
                opt_segs(cur_s) + segs_of(s@),
                opt_segs(cur_d) + segs_of(d@),
            ) == align_segments(gsrc, gdest),
        decreases s@.len() + d@.len() + opt_segs(cur_s).len() + opt_segs(cur_d).len(),
    {
        let ghost all_src = opt_segs(cur_s) + segs_of(s@);
        let ghost all_dest = opt_segs(cur_d) + segs_of(d@);
        let cs = cur_s.unwrap();
        let cd = cur_d.unwrap();
        let ghost gs = seg_of(cs);
        let ghost gd = seg_of(cd);
        proof {
            assert(all_src[0] == gs && seg_within(gs, lo, hi));
            assert(all_dest[0] == gd && seg_within(gd, lo, hi));
        }
        let sk = cs.get_key();
        let dk = cd.get_key();
        let ghost out_pre = pair_segs_of(out@);
        let ghost s_pre = segs_of(s@);
        let ghost d_pre = segs_of(d@);
        if sk == dk {
            proof {
                assert(align_segments(all_src, all_dest) == seq![(gs, gd)] + align_segments(
                    all_src.drop_first(),
                    all_dest.drop_first(),
                ));
                assert(all_src.drop_first() =~= s_pre);
                assert(all_dest.drop_first() =~= d_pre);
            }
            out.push((cs, cd));
            cur_s = if s.len() > 0 {
                Some(s.remove(0))
            } else {
                None
            };
            cur_d = if d.len() > 0 {
                Some(d.remove(0))
            } else {
                None
            };
            proof {
                assert(opt_segs(cur_s) + segs_of(s@) =~= s_pre);
                assert(opt_segs(cur_d) + segs_of(d@) =~= d_pre);
                assert(pair_segs_of(out@) =~= out_pre + seq![(gs, gd)]);
                assert((out_pre + seq![(gs, gd)]) + align_segments(s_pre, d_pre) =~= out_pre
                    + align_segments(all_src, all_dest));
            }
        } else if sk > dk {
            proof {
                assert forall|i: int| 0 <= i < cs.values().len() implies i64::MIN <= (
                #[trigger] cs.values()[i]) * dk <= i64::MAX by {
                    let v = gs.vals[i];
                    assert(v == cs.values()[i] as int);
                    lemma_shrunken_product_within(v, v, dk as int, gs.key, lo, hi);
                }
                lemma_split_segment_within(gs, dk as int, lo, hi);
            }
            let halves = split_item(cs, dk);
            proof {
                let cut = split_segment(gs, gd.key);
                assert(align_segments(all_src, all_dest) == seq![(cut.0, gd)] + align_segments(
                    all_src.update(0, cut.1),
                    all_dest.drop_first(),
                ));
                assert(all_src.update(0, cut.1) =~= seq![seg_of(halves.1)] + s_pre);
                assert(all_dest.drop_first() =~= d_pre);
            }
            out.push((halves.0, cd));
            cur_s = Some(halves.1);
            cur_d = if d.len() > 0 {
                Some(d.remove(0))
            } else {
                None
            };
            proof {
                let cut = split_segment(gs, gd.key);
                assert(opt_segs(cur_s) + segs_of(s@) =~= seq![seg_of(cur_s->Some_0)] + s_pre);
                assert(opt_segs(cur_d) + segs_of(d@) =~= d_pre);
                assert(pair_segs_of(out@) =~= out_pre + seq![(cut.0, gd)]);
                assert((out_pre + seq![(cut.0, gd)]) + align_segments(
                    seq![seg_of(cur_s->Some_0)] + s_pre,
                    d_pre,
                ) =~= out_pre + align_segments(all_src, all_dest));
            }
        } else {
            proof {
                assert forall|i: int| 0 <= i < cd.values().len() implies i64::MIN <= (
                #[trigger] cd.values()[i]) * sk <= i64::MAX by {
                    let v = gd.vals[i];
                    assert(v == cd.values()[i] as int);
                    lemma_shrunken_product_within(v, v, sk as int, gd.key, lo, hi);
                }
                lemma_split_segment_within(gd, sk as int, lo, hi);
            }
            let halves = split_item(cd, sk);
            proof {
                let cut = split_segment(gd, gs.key);
                assert(align_segments(all_src, all_dest) == seq![(gs, cut.0)] + align_segments(
                    all_src.drop_first(),
                    all_dest.update(0, cut.1),
                ));
                assert(all_dest.update(0, cut.1) =~= seq![seg_of(halves.1)] + d_pre);
                assert(all_src.drop_first() =~= s_pre);
            }
            out.push((cs, halves.0));
            cur_s = if s.len() > 0 {
                Some(s.remove(0))
            } else {
                None
            };
            cur_d = Some(halves.1);
            proof {
                let cut = split_segment(gd, gs.key);
                assert(opt_segs(cur_s) + segs_of(s@) =~= s_pre);
                assert(opt_segs(cur_d) + segs_of(d@) =~= seq![seg_of(cur_d->Some_0)] + d_pre);
                assert(pair_segs_of(out@) =~= out_pre + seq![(gs, cut.0)]);
                assert((out_pre + seq![(gs, cut.0)]) + align_segments(
                    s_pre,
                    seq![seg_of(cur_d->Some_0)] + d_pre,
                ) =~= out_pre + align_segments(all_src, all_dest));
            }
        }
    }
    proof {
        assert(align_segments(opt_segs(cur_s) + segs_of(s@), opt_segs(cur_d) + segs_of(d@))
            =~= Seq::<(Segment, Segment)>::empty());
        assert(pair_segs_of(out@) =~= align_segments(gsrc, gdest));
        lemma_align_segments_keys_match(gsrc, gdest);
        assert(all_keys_positive(gsrc)) by {
            assert(forall|i: int| 0 <= i < gsrc.len() ==> #[trigger] gsrc[i] == seg_of(src@[i]));
        }
        assert(all_keys_positive(gdest)) by {
            assert(forall|i: int| 0 <= i < gdest.len() ==> #[trigger] gdest[i] == seg_of(dest@[i]));
        }
        lemma_align_segments_keys_positive(gsrc, gdest);
        assert forall|i: int| 0 <= i < out@.len() implies (#[trigger] out@[i]).0.key()
            == out@[i].1.key() && 0 < out@[i].0.key() by {
            assert(pair_segs_of(out@)[i] == align_segments(gsrc, gdest)[i]);
            assert(pair_segs_of(out@)[i].0 == seg_of(out@[i].0));
            assert(pair_segs_of(out@)[i].1 == seg_of(out@[i].1));
        }
    }
    Ok(out)
}

} // verus!
