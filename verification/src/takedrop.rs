//! Take and drop: prefix/suffix selection per axis, leading axis first.
//! Positive counts work from the front, negative ones from the back; `take`
//! beyond the rows pads with the fill value or fails, `drop` beyond the rows
//! simply empties the axis.

use vstd::prelude::*;

use crate::array::{copy_range, extend_range, row_at, Array};
use crate::elem::ArrayElem;
use crate::error::ArrayError;
use crate::shape::{
    lemma_prod_nonneg, lemma_suffix_fits_skip, prod, suffix_fits, suffix_product, try_prod,
};
use crate::structure::fill_rep;

verus! {

/// Magnitude of a signed count.
pub open spec fn abs_sp(x: isize) -> int {
    if x >= 0 {
        x as int
    } else {
        -(x as int)
    }
}

/// The shape `take` produces: the count's magnitude on each taken axis.
pub open spec fn take_shape(index: Seq<isize>, s: Seq<usize>) -> Seq<usize> {
    Seq::new(s.len(), |i: int| if i < index.len() {
        abs_sp(index[i]) as usize
    } else {
        s[i]
    })
}

/// The shape `drop` produces: each dropped axis loses the count's magnitude,
/// bottoming out at zero.
pub open spec fn drop_shape(index: Seq<isize>, s: Seq<usize>) -> Seq<usize> {
    Seq::new(s.len(), |i: int| if i < index.len() {
        (if abs_sp(index[i]) <= s[i] {
            s[i] - abs_sp(index[i])
        } else {
            0
        }) as usize
    } else {
        s[i]
    })
}

/// The first taken axis whose count overruns the axis (meaningful only when
/// one exists).
pub open spec fn first_too_far(index: Seq<isize>, s: Seq<usize>) -> int
    decreases index.len(),
{
    if index.len() == 0 {
        0
    } else if abs_sp(index[0]) > s[0] {
        0
    } else {
        1 + first_too_far(index.skip(1), s.skip(1))
    }
}

/// Does some taken axis overrun its length?
pub open spec fn take_needs_fill(index: Seq<isize>, s: Seq<usize>) -> bool {
    exists|i: int| 0 <= i < index.len() && abs_sp(index[i]) > s[i]
}

/// The data `take` produces: the first (or last, for a negative count)
/// `|count|` rows, each taken in turn by the remaining counts, padded with
/// fill rows where the count overruns the axis.
pub open spec fn take_data<T>(index: Seq<isize>, s: Seq<usize>, d: Seq<T>, fill: Option<T>) -> Seq<
    T,
>
    decreases index.len(), s[0] + 2, 1int,
{
    if index.len() == 0 || s.len() == 0 {
        d
    } else {
        let t = index[0];
        let rc = s[0] as int;
        let a = abs_sp(t);
        let kept: int = if a <= rc {
            a
        } else {
            rc
        };
        let orl = prod(take_shape(index.skip(1), s.skip(1)).skip(0));
        if t >= 0 {
            take_cat(index, s, d, fill, 0, kept) + fill_rep(fill, (a - kept) * orl)
        } else {
            fill_rep(fill, (a - kept) * orl) + take_cat(index, s, d, fill, rc - kept, rc)
        }
    }
}

/// Rows `i..end`, each taken by the remaining counts, concatenated.
pub open spec fn take_cat<T>(
    index: Seq<isize>,
    s: Seq<usize>,
    d: Seq<T>,
    fill: Option<T>,
    i: int,
    end: int,
) -> Seq<T>
    decreases index.len(), end - i + 1, 0int,
{
    if index.len() == 0 || s.len() == 0 || !(0 <= i < end) || end > s[0] {
        Seq::empty()
    } else {
        let rl = prod(s.skip(1));
        take_data(index.skip(1), s.skip(1), row_at(d, rl, i), fill) + take_cat(
            index,
            s,
            d,
            fill,
            i + 1,
            end,
        )
    }
}

/// The data `drop` produces: the rows that remain once the first (or last)
/// `|count|` are gone, each dropped in turn by the remaining counts.
pub open spec fn drop_data<T>(index: Seq<isize>, s: Seq<usize>, d: Seq<T>) -> Seq<T>
    decreases index.len(), s[0] + 2, 1int,
{
    if index.len() == 0 || s.len() == 0 {
        d
    } else {
        let t = index[0];
        let rc = s[0] as int;
        let a = abs_sp(t);
        let gone: int = if a <= rc {
            a
        } else {
            rc
        };
        if t >= 0 {
            drop_cat(index, s, d, gone, rc)
        } else {
            drop_cat(index, s, d, 0, rc - gone)
        }
    }
}

/// Rows `i..end`, each dropped by the remaining counts, concatenated.
pub open spec fn drop_cat<T>(
    index: Seq<isize>,
    s: Seq<usize>,
    d: Seq<T>,
    i: int,
    end: int,
) -> Seq<T>
    decreases index.len(), end - i + 1, 0int,
{
    if index.len() == 0 || s.len() == 0 || !(0 <= i < end) || end > s[0] {
        Seq::empty()
    } else {
        let rl = prod(s.skip(1));
        drop_data(index.skip(1), s.skip(1), row_at(d, rl, i)) + drop_cat(index, s, d, i + 1, end)
    }
}

/// Taken data fills the taken shape.
pub proof fn lemma_take_data_len<T>(index: Seq<isize>, s: Seq<usize>, d: Seq<T>, fill: Option<T>)
    requires
        index.len() <= s.len(),
        d.len() == prod(s),
    ensures
        take_data(index, s, d, fill).len() == prod(take_shape(index, s)),
    decreases index.len(), s[0] + 2, 1int,
{
    let ts = take_shape(index, s);
    if index.len() == 0 || s.len() == 0 {
        assert(ts =~= s);
    } else {
        let t = index[0];
        let rc = s[0] as int;
        let a = abs_sp(t);
        let kept: int = if a <= rc {
            a
        } else {
            rc
        };
        assert(take_shape(index.skip(1), s.skip(1)).skip(0) =~= take_shape(
            index.skip(1),
            s.skip(1),
        ));
        let orl = prod(take_shape(index.skip(1), s.skip(1)));
        lemma_prod_nonneg(take_shape(index.skip(1), s.skip(1)));
        if t >= 0 {
            lemma_take_cat_len(index, s, d, fill, 0, kept);
        } else {
            lemma_take_cat_len(index, s, d, fill, rc - kept, rc);
        }
        assert(ts.skip(1) =~= take_shape(index.skip(1), s.skip(1)));
        assert(prod(ts) == a * orl);
        assert(kept * orl + (a - kept) * orl == a * orl) by (nonlinear_arith);
    }
}

pub proof fn lemma_take_cat_len<T>(
    index: Seq<isize>,
    s: Seq<usize>,
    d: Seq<T>,
    fill: Option<T>,
    i: int,
    end: int,
)
    requires
        1 <= index.len() <= s.len(),
        d.len() == prod(s),
        0 <= i <= end <= s[0],
    ensures
        take_cat(index, s, d, fill, i, end).len() == (end - i) * prod(
            take_shape(index.skip(1), s.skip(1)),
        ),
    decreases index.len(), end - i + 1, 0int,
{
    let rl = prod(s.skip(1));
    let orl = prod(take_shape(index.skip(1), s.skip(1)));
    lemma_prod_nonneg(s.skip(1));
    lemma_prod_nonneg(take_shape(index.skip(1), s.skip(1)));
    if i >= end {
        assert((end - i) * orl == 0) by (nonlinear_arith)
            requires
                end == i,
        ;
    } else {
        lemma_take_cat_len(index, s, d, fill, i + 1, end);
        assert(prod(s) == s[0] * rl);
        crate::array::mul_le_mono(i, s[0] as int - 1, rl);
        assert((s[0] - 1) * rl + rl == s[0] * rl) by (nonlinear_arith);
        crate::array::mul_le_mono(0, i, rl);
        assert(row_at(d, rl, i).len() == rl);
        lemma_take_data_len(index.skip(1), s.skip(1), row_at(d, rl, i), fill);
        assert(orl + (end - i - 1) * orl == (end - i) * orl) by (nonlinear_arith);
    }
}

/// Dropped data fills the dropped shape.
pub proof fn lemma_drop_data_len<T>(index: Seq<isize>, s: Seq<usize>, d: Seq<T>)
    requires
        index.len() <= s.len(),
        d.len() == prod(s),
    ensures
        drop_data(index, s, d).len() == prod(drop_shape(index, s)),
    decreases index.len(), s[0] + 2, 1int,
{
    let ds = drop_shape(index, s);
    if index.len() == 0 || s.len() == 0 {
        assert(ds =~= s);
    } else {
        let t = index[0];
        let rc = s[0] as int;
        let a = abs_sp(t);
        let gone: int = if a <= rc {
            a
        } else {
            rc
        };
        assert(ds.skip(1) =~= drop_shape(index.skip(1), s.skip(1)));
        if t >= 0 {
            lemma_drop_cat_len(index, s, d, gone, rc);
        } else {
            lemma_drop_cat_len(index, s, d, 0, rc - gone);
        }
        assert(prod(ds) == (rc - gone) * prod(drop_shape(index.skip(1), s.skip(1))));
    }
}

pub proof fn lemma_drop_cat_len<T>(index: Seq<isize>, s: Seq<usize>, d: Seq<T>, i: int, end: int)
    requires
        1 <= index.len() <= s.len(),
        d.len() == prod(s),
        0 <= i <= end <= s[0],
    ensures
        drop_cat(index, s, d, i, end).len() == (end - i) * prod(
            drop_shape(index.skip(1), s.skip(1)),
        ),
    decreases index.len(), end - i + 1, 0int,
{
    let rl = prod(s.skip(1));
    let orl = prod(drop_shape(index.skip(1), s.skip(1)));
    lemma_prod_nonneg(s.skip(1));
    lemma_prod_nonneg(drop_shape(index.skip(1), s.skip(1)));
    if i >= end {
        assert((end - i) * orl == 0) by (nonlinear_arith)
            requires
                end == i,
        ;
    } else {
        lemma_drop_cat_len(index, s, d, i + 1, end);
        assert(prod(s) == s[0] * rl);
        crate::array::mul_le_mono(i, s[0] as int - 1, rl);
        assert((s[0] - 1) * rl + rl == s[0] * rl) by (nonlinear_arith);
        crate::array::mul_le_mono(0, i, rl);
        assert(row_at(d, rl, i).len() == rl);
        lemma_drop_data_len(index.skip(1), s.skip(1), row_at(d, rl, i));
        assert(orl + (end - i - 1) * orl == (end - i) * orl) by (nonlinear_arith);
    }
}

/// Shrinking dimensions pointwise shrinks every suffix product.
pub proof fn lemma_suffix_fits_pointwise(a: Seq<usize>, b: Seq<usize>)
    requires
        a.len() == b.len(),
        forall|i: int| 0 <= i < a.len() ==> #[trigger] a[i] <= b[i],
        suffix_fits(b),
    ensures
        suffix_fits(a),
        prod(a) <= prod(b),
{
    assert forall|q: int| 0 <= q <= a.len() implies prod(#[trigger] a.skip(q)) <= usize::MAX by {
        lemma_prod_le_pointwise(a.skip(q), b.skip(q));
        assert(prod(b.skip(q)) <= usize::MAX);
    }
    lemma_prod_le_pointwise(a.skip(0), b.skip(0));
    assert(a.skip(0) =~= a);
    assert(b.skip(0) =~= b);
}

pub proof fn lemma_prod_le_pointwise(a: Seq<usize>, b: Seq<usize>)
    requires
        a.len() == b.len(),
        forall|i: int| 0 <= i < a.len() ==> #[trigger] a[i] <= b[i],
    ensures
        prod(a) <= prod(b),
    decreases a.len(),
{
    if a.len() > 0 {
        assert(forall|i: int|
            0 <= i < a.skip(1).len() ==> #[trigger] a.skip(1)[i] == a[i + 1] && b.skip(1)[i] == b[i
                + 1]);
        lemma_prod_le_pointwise(a.skip(1), b.skip(1));
        lemma_prod_nonneg(a.skip(1));
        assert(a[0] * prod(a.skip(1)) <= b[0] * prod(b.skip(1))) by (nonlinear_arith)
            requires
                0 <= a[0] <= b[0],
                0 <= prod(a.skip(1)) <= prod(b.skip(1)),
        ;
    }
}

/// Build the taken data for the block of shape `shape[si..]`.
fn take_block<T: ArrayElem>(
    index: &Vec<isize>,
    ii: usize,
    shape: &Vec<usize>,
    si: usize,
    ns: &Vec<usize>,
    d: &Vec<T>,
    fill: Option<T>,
) -> (r: Vec<T>)
    requires
        ii <= index@.len(),
        index@.len() - ii <= shape@.len() - si,
        si <= shape@.len(),
        suffix_fits(shape@),
        suffix_fits(ns@),
        ns@.len() == shape@.len() - si,
        ns@ == take_shape(index@.skip(ii as int), shape@.skip(si as int)),
        d@.len() == prod(shape@.skip(si as int)),
        fill is None ==> !take_needs_fill(index@.skip(ii as int), shape@.skip(si as int)),
    ensures
        r@ == take_data(index@.skip(ii as int), shape@.skip(si as int), d@, fill),
        r@.len() == prod(ns@),
    decreases index@.len() - ii,
{
    let ghost gidx = index@.skip(ii as int);
    let ghost gs = shape@.skip(si as int);
    proof {
        lemma_take_data_len(gidx, gs, d@, fill);
    }
    let dlen = d.len();
    if ii == index.len() {
        let r = copy_range(d, 0, dlen);
        proof {
            assert(r@ =~= d@);
            assert(ns@ =~= gs);
        }
        return r;
    }
    let t = index[ii];
    let slen_e = shape.len();
    let ilen_e = index.len();
    let rc = shape[si];
    proof {
        assert(gs.skip(1) =~= shape@.skip(si + 1));
        assert(gidx.skip(1) =~= index@.skip(ii + 1));
        assert(prod(gs) == rc * prod(gs.skip(1)));
        lemma_prod_nonneg(gs.skip(1));
        lemma_suffix_fits_skip(shape@, si + 1);
        lemma_suffix_fits_skip(ns@, 1);
        assert(ns@.skip(1) =~= take_shape(gidx.skip(1), gs.skip(1)));
    }
    let rl = suffix_product(shape, si + 1);
    let orl = suffix_product(ns, 1);
    let a = crate::shape::abs_isize(t);
    let kept: usize = if a <= rc {
        a
    } else {
        rc
    };
    proof {
        // The whole output fits: it is the product of the taken shape.
        assert(prod(ns@) == a * orl);
        assert(ns@.skip(0) =~= ns@);
        assert(prod(ns@) <= usize::MAX);
        assert(kept * orl + (a - kept) * orl == a * orl) by (nonlinear_arith);
        crate::array::mul_le_mono(kept as int, a as int, orl as int);
        lemma_prod_nonneg(ns@.skip(1));
        if fill is None {
            // Without a fill value no axis overruns, so nothing is padded.
            if a > rc {
                assert(abs_sp(gidx[0]) > gs[0]);
                assert(take_needs_fill(gidx, gs));
            }
        }
    }
    let mut out: Vec<T> = Vec::new();
    let lo: usize = if t >= 0 {
        0
    } else {
        rc - kept
    };
    let hi: usize = if t >= 0 {
        kept
    } else {
        rc
    };
    if t < 0 && a > kept {
        match fill {
            Some(f) => {
                crate::array::extend_repeat(&mut out, f, (a - kept) * orl);
                proof {
                    assert(out@ =~= fill_rep(fill, ((a - kept) * orl) as int));
                }
            },
            None => {
                proof {
                    assert(false);
                }
            },
        }
    }
    proof {
        if t < 0 && a <= kept {
            assert(((a - kept) * orl) as int == 0) by (nonlinear_arith)
                requires
                    a == kept,
            ;
            assert(out@ =~= fill_rep(fill, (a - kept) * orl));
        }
    }
    let ghost head = out@;
    let mut i: usize = lo;
    while i < hi
        invariant
            lo <= i <= hi <= rc,
            ii < index@.len() <= usize::MAX,
            index@.len() - ii <= shape@.len() - si,
            si < shape@.len() <= usize::MAX,
            suffix_fits(shape@),
            suffix_fits(ns@),
            ns@.len() == shape@.len() - si,
            gidx == index@.skip(ii as int),
            gs == shape@.skip(si as int),
            ns@ == take_shape(gidx, gs),
            ns@.skip(1) == take_shape(gidx.skip(1), gs.skip(1)),
            gidx.skip(1) == index@.skip(ii + 1),
            gs.skip(1) == shape@.skip(si + 1),
            rc == gs[0],
            t == gidx[0],
            rl == prod(gs.skip(1)),
            orl == prod(ns@.skip(1)),
            d@.len() == prod(gs) == rc * rl,
            fill is None ==> !take_needs_fill(gidx, gs),
            (hi - lo) * orl <= prod(ns@) <= usize::MAX,
            head.len() + (hi - lo) * orl <= prod(ns@),
            out@.len() == head.len() + (i - lo) * orl,
            out@ =~= head + take_cat(gidx, gs, d@, fill, lo as int, i as int),
        decreases hi - i,
    {
        proof {
            crate::array::mul_le_mono(i as int, rc as int - 1, rl as int);
            assert((rc - 1) * rl + rl == rc * rl) by (nonlinear_arith);
            crate::array::mul_le_mono(0, i as int, rl as int);
            assert(d@.len() <= usize::MAX);
            lemma_suffix_fits_skip(ns@, 1);
            if fill is None {
                assert forall|q: int|
                    0 <= q < gidx.skip(1).len() implies abs_sp(#[trigger] gidx.skip(1)[q])
                    <= gs.skip(1)[q] by {
                    assert(gidx[q + 1] == gidx.skip(1)[q]);
                    assert(gs[q + 1] == gs.skip(1)[q]);
                    if abs_sp(gidx[q + 1]) > gs[q + 1] {
                        assert(take_needs_fill(gidx, gs));
                    }
                }
            }
        }
        let row = copy_range(d, i * rl, rl);
        let sub = take_block(index, ii + 1, shape, si + 1, &row_shape_tail(ns), &row, fill);
        proof {
            assert(row@ == row_at(d@, rl as int, i as int));
            crate::array::mul_le_mono(i as int + 1 - lo, hi as int - lo, orl as int);
            assert((i + 1 - lo) * orl == (i - lo) * orl + orl) by (nonlinear_arith);
            lemma_take_cat_snoc(gidx, gs, d@, fill, lo as int, i as int);
        }
        let slen = sub.len();
        extend_range(&mut out, &sub, 0, slen);
        proof {
            assert(sub@.subrange(0, slen as int) =~= sub@);
        }
        i = i + 1;
    }
    if t >= 0 && a > kept {
        match fill {
            Some(f) => {
                proof {
                    crate::array::mul_le_mono((a - kept) as int, a as int, orl as int);
                }
                crate::array::extend_repeat(&mut out, f, (a - kept) * orl);
            },
            None => {
                proof {
                    assert(false);
                }
            },
        }
    }
    proof {
        if t >= 0 {
            if a <= kept {
                assert(((a - kept) * orl) as int == 0) by (nonlinear_arith)
                    requires
                        a == kept,
                ;
            }
            assert(out@ =~= take_cat(gidx, gs, d@, fill, 0, kept as int) + fill_rep(
                fill,
                (a - kept) * orl,
            ));
        } else {
            assert(out@ =~= fill_rep(fill, (a - kept) * orl) + take_cat(
                gidx,
                gs,
                d@,
                fill,
                rc - kept,
                rc as int,
            ));
        }
        assert(take_shape(gidx.skip(1), gs.skip(1)).skip(0) =~= take_shape(
            gidx.skip(1),
            gs.skip(1),
        ));
        lemma_take_data_len(gidx, gs, d@, fill);
    }
    out
}

/// Appending one more row to a row concatenation.
proof fn lemma_take_cat_snoc<T>(
    index: Seq<isize>,
    s: Seq<usize>,
    d: Seq<T>,
    fill: Option<T>,
    lo: int,
    i: int,
)
    requires
        1 <= index.len() <= s.len(),
        d.len() == prod(s),
        0 <= lo <= i < s[0],
    ensures
        take_cat(index, s, d, fill, lo, i + 1) =~= take_cat(index, s, d, fill, lo, i) + take_data(
            index.skip(1),
            s.skip(1),
            row_at(d, prod(s.skip(1)), i),
            fill,
        ),
    decreases i - lo,
{
    let rl = prod(s.skip(1));
    if lo == i {
        assert(take_cat(index, s, d, fill, lo, lo) =~= Seq::<T>::empty());
        assert(take_cat(index, s, d, fill, lo + 1, lo + 1) =~= Seq::<T>::empty());
    } else {
        lemma_take_cat_snoc(index, s, d, fill, lo + 1, i);
        assert(take_cat(index, s, d, fill, lo, i + 1) == take_data(
            index.skip(1),
            s.skip(1),
            row_at(d, rl, lo),
            fill,
        ) + take_cat(index, s, d, fill, lo + 1, i + 1));
        assert(take_cat(index, s, d, fill, lo, i) == take_data(
            index.skip(1),
            s.skip(1),
            row_at(d, rl, lo),
            fill,
        ) + take_cat(index, s, d, fill, lo + 1, i));
    }
}

/// A shape vector's tail.
pub fn row_shape_tail(ns: &Vec<usize>) -> (r: Vec<usize>)
    requires
        ns@.len() >= 1,
    ensures
        r@ == ns@.skip(1),
{
    let n = ns.len();
    let r = copy_range(ns, 1, n - 1);
    proof {
        assert(r@ =~= ns@.skip(1));
    }
    r
}

/// A shape vector's tail from the given depth.
pub fn row_shape_tail_from(ns: &Vec<usize>, dep: usize) -> (r: Vec<usize>)
    requires
        dep <= ns@.len(),
    ensures
        r@ == ns@.skip(dep as int),
{
    let n = ns.len();
    let r = copy_range(ns, dep, n - dep);
    proof {
        assert(r@ =~= ns@.skip(dep as int));
    }
    r
}

} // verus!
// The public take and drop, and the drop builder.

verus! {

/// Build the dropped data for the block of shape `shape[si..]`.
fn drop_block<T: ArrayElem>(
    index: &Vec<isize>,
    ii: usize,
    shape: &Vec<usize>,
    si: usize,
    d: &Vec<T>,
) -> (r: Vec<T>)
    requires
        ii <= index@.len(),
        index@.len() - ii <= shape@.len() - si,
        si <= shape@.len(),
        suffix_fits(shape@),
        d@.len() == prod(shape@.skip(si as int)),
    ensures
        r@ == drop_data(index@.skip(ii as int), shape@.skip(si as int), d@),
        r@.len() == prod(drop_shape(index@.skip(ii as int), shape@.skip(si as int))),
    decreases index@.len() - ii,
{
    let ghost gidx = index@.skip(ii as int);
    let ghost gs = shape@.skip(si as int);
    proof {
        lemma_drop_data_len(gidx, gs, d@);
    }
    let dlen = d.len();
    if ii == index.len() {
        let r = copy_range(d, 0, dlen);
        proof {
            assert(r@ =~= d@);
            assert(drop_shape(gidx, gs) =~= gs);
        }
        return r;
    }
    let t = index[ii];
    let slen_e = shape.len();
    let rc = shape[si];
    proof {
        assert(gs.skip(1) =~= shape@.skip(si + 1));
        assert(gidx.skip(1) =~= index@.skip(ii + 1));
        assert(prod(gs) == rc * prod(gs.skip(1)));
        lemma_prod_nonneg(gs.skip(1));
        lemma_suffix_fits_skip(shape@, si + 1);
    }
    let rl = suffix_product(shape, si + 1);
    let a = crate::shape::abs_isize(t);
    let gone: usize = if a <= rc {
        a
    } else {
        rc
    };
    let lo: usize = if t >= 0 {
        gone
    } else {
        0
    };
    let hi: usize = if t >= 0 {
        rc
    } else {
        rc - gone
    };
    let ghost orl = prod(drop_shape(gidx.skip(1), gs.skip(1)));
    proof {
        lemma_prod_nonneg(drop_shape(gidx.skip(1), gs.skip(1)));
        // Each remaining row shrinks or keeps its length, so the output fits.
        assert forall|q: int|
            0 <= q < drop_shape(gidx.skip(1), gs.skip(1)).len() implies #[trigger] drop_shape(
            gidx.skip(1),
            gs.skip(1),
        )[q] <= gs.skip(1)[q] by {}
        crate::takedrop::lemma_prod_le_pointwise(drop_shape(gidx.skip(1), gs.skip(1)), gs.skip(1));
        crate::array::mul_le_mono(hi as int - lo, rc as int, prod(gs.skip(1)));
        assert((hi - lo) * orl <= (hi - lo) * prod(gs.skip(1))) by (nonlinear_arith)
            requires
                orl <= prod(gs.skip(1)),
                hi >= lo,
        ;
    }
    let mut out: Vec<T> = Vec::new();
    let mut i: usize = lo;
    proof {
        assert(((i as int) - (lo as int)) * orl == 0) by (nonlinear_arith)
            requires
                i == lo,
        ;
    }
    while i < hi
        invariant
            lo <= i <= hi <= rc,
            ii < index@.len() <= usize::MAX,
            index@.len() - ii <= shape@.len() - si,
            si < shape@.len() <= usize::MAX,
            suffix_fits(shape@),
            gidx == index@.skip(ii as int),
            gs == shape@.skip(si as int),
            gidx.skip(1) == index@.skip(ii + 1),
            gs.skip(1) == shape@.skip(si + 1),
            rc == gs[0],
            t == gidx[0],
            rl == prod(gs.skip(1)),
            orl == prod(drop_shape(gidx.skip(1), gs.skip(1))),
            0 <= orl,
            d@.len() == prod(gs) == rc * rl,
            (hi - lo) * orl <= rc * rl <= usize::MAX,
            out@.len() == (i - lo) * orl,
            out@ =~= drop_cat(gidx, gs, d@, lo as int, i as int),
        decreases hi - i,
    {
        proof {
            crate::array::mul_le_mono(i as int, rc as int - 1, rl as int);
            assert((rc - 1) * rl + rl == rc * rl) by (nonlinear_arith);
            crate::array::mul_le_mono(0, i as int, rl as int);
            assert(d@.len() <= usize::MAX);
        }
        let row = copy_range(d, i * rl, rl);
        let sub = drop_block(index, ii + 1, shape, si + 1, &row);
        proof {
            assert(row@ == row_at(d@, rl as int, i as int));
            crate::array::mul_le_mono(i as int + 1 - lo, hi as int - lo, orl);
            assert((i + 1 - lo) * orl == (i - lo) * orl + orl) by (nonlinear_arith);
            lemma_drop_cat_snoc(gidx, gs, d@, lo as int, i as int);
        }
        let slen = sub.len();
        extend_range(&mut out, &sub, 0, slen);
        proof {
            assert(sub@.subrange(0, slen as int) =~= sub@);
        }
        i = i + 1;
    }
    proof {
        if t >= 0 {
            assert(out@ =~= drop_cat(gidx, gs, d@, gone as int, rc as int));
        } else {
            assert(out@ =~= drop_cat(gidx, gs, d@, 0, rc - gone));
        }
        lemma_drop_data_len(gidx, gs, d@);
    }
    out
}

proof fn lemma_drop_cat_snoc<T>(index: Seq<isize>, s: Seq<usize>, d: Seq<T>, lo: int, i: int)
    requires
        1 <= index.len() <= s.len(),
        d.len() == prod(s),
        0 <= lo <= i < s[0],
    ensures
        drop_cat(index, s, d, lo, i + 1) =~= drop_cat(index, s, d, lo, i) + drop_data(
            index.skip(1),
            s.skip(1),
            row_at(d, prod(s.skip(1)), i),
        ),
    decreases i - lo,
{
    if lo == i {
        assert(drop_cat(index, s, d, lo, lo) =~= Seq::<T>::empty());
        assert(drop_cat(index, s, d, lo + 1, lo + 1) =~= Seq::<T>::empty());
    } else {
        lemma_drop_cat_snoc(index, s, d, lo + 1, i);
    }
}

/// Everything `take` promises of its result.
pub open spec fn take_post<T: ArrayElem>(
    index: Seq<isize>,
    fill: Option<T>,
    s: Seq<usize>,
    d: Seq<T>,
    r: Result<Array<T>, ArrayError>,
) -> bool {
    &&& index.len() > s.len() ==> r == Err::<Array<T>, ArrayError>(
        ArrayError::IndexRank { rank: s.len() as usize, index_len: index.len() as usize },
    )
    &&& index.len() <= s.len() && fill is None && take_needs_fill(index, s) ==> r == Err::<
        Array<T>,
        ArrayError,
    >(
        ArrayError::TakeTooFar {
            taking: abs_sp(index[first_too_far(index, s)]) as usize,
            row_count: s[first_too_far(index, s)] as usize,
        },
    )
    &&& index.len() <= s.len() && (fill is Some || !take_needs_fill(index, s)) && !suffix_fits(
        take_shape(index, s),
    ) ==> r == Err::<Array<T>, ArrayError>(ArrayError::TooLarge)
    &&& index.len() <= s.len() && (fill is Some || !take_needs_fill(index, s)) && suffix_fits(
        take_shape(index, s),
    ) ==> r is Ok && r->Ok_0.wf() && r->Ok_0.shape@ == take_shape(index, s) && r->Ok_0.data@
        == take_data(index, s, d, fill)
}

/// Everything `drop` promises of its result.
pub open spec fn drop_post<T: ArrayElem>(
    index: Seq<isize>,
    s: Seq<usize>,
    d: Seq<T>,
    r: Result<Array<T>, ArrayError>,
) -> bool {
    &&& index.len() > s.len() ==> r == Err::<Array<T>, ArrayError>(
        ArrayError::IndexRank { rank: s.len() as usize, index_len: index.len() as usize },
    )
    &&& index.len() <= s.len() ==> r is Ok && r->Ok_0.wf() && r->Ok_0.shape@ == drop_shape(
        index,
        s,
    ) && r->Ok_0.data@ == drop_data(index, s, d)
}

impl<T: ArrayElem> Array<T> {
    /// `take` from this array: one signed count per leading axis. A count
    /// beyond the rows pads with the fill value, or fails when none is in
    /// scope.
    pub fn take(self, index: &Vec<isize>, fill: Option<T>) -> (r: Result<Array<T>, ArrayError>)
        requires
            self.wf(),
        ensures
            take_post(index@, fill, self.shape@, self.data@, r),
    {
        if index.len() > self.shape.len() {
            return Err(ArrayError::IndexRank { rank: self.shape.len(), index_len: index.len() });
        }
        // Find the first axis the take overruns; without a fill value that
        // is an error.
        if fill.is_none() {
            let mut i: usize = 0;
            while i < index.len()
                invariant
                    i <= index@.len() <= self.shape@.len(),
                    fill is None,
                    self.wf(),
                    forall|q: int| 0 <= q < i ==> abs_sp(index@[q]) <= self.shape@[q],
                decreases index@.len() - i,
            {
                let a = crate::shape::abs_isize(index[i]);
                if a > self.shape[i] {
                    proof {
                        lemma_first_too_far(index@, self.shape@, i as int);
                    }
                    return Err(
                        ArrayError::TakeTooFar { taking: a, row_count: self.shape[i] },
                    );
                }
                i = i + 1;
            }
        }
        // Resolve the result shape and make sure it is addressable.
        let mut ns: Vec<usize> = Vec::new();
        let mut i: usize = 0;
        while i < self.shape.len()
            invariant
                i <= self.shape@.len(),
                index@.len() <= self.shape@.len(),
                ns@ =~= take_shape(index@, self.shape@).take(i as int),
            decreases self.shape@.len() - i,
        {
            if i < index.len() {
                ns.push(crate::shape::abs_isize(index[i]));
            } else {
                ns.push(self.shape[i]);
            }
            i = i + 1;
        }
        proof {
            assert(ns@ =~= take_shape(index@, self.shape@));
        }
        match try_prod(&ns) {
            None => Err(ArrayError::TooLarge),
            Some(_) => {
                proof {
                    assert(index@.skip(0) =~= index@);
                    assert(self.shape@.skip(0) =~= self.shape@);
                }
                let data = take_block(index, 0, &self.shape, 0, &ns, &self.data, fill);
                Ok(Array { shape: ns, data })
            },
        }
    }

    /// `drop` from this array: one signed count per leading axis. A count
    /// beyond the rows simply empties the axis.
    pub fn drop(self, index: &Vec<isize>) -> (r: Result<Array<T>, ArrayError>)
        requires
            self.wf(),
        ensures
            drop_post(index@, self.shape@, self.data@, r),
    {
        if index.len() > self.shape.len() {
            return Err(ArrayError::IndexRank { rank: self.shape.len(), index_len: index.len() });
        }
        let mut ns: Vec<usize> = Vec::new();
        let mut i: usize = 0;
        while i < self.shape.len()
            invariant
                i <= self.shape@.len(),
                index@.len() <= self.shape@.len(),
                ns@ =~= drop_shape(index@, self.shape@).take(i as int),
            decreases self.shape@.len() - i,
        {
            if i < index.len() {
                let a = crate::shape::abs_isize(index[i]);
                let si = self.shape[i];
                if a <= si {
                    ns.push(si - a);
                } else {
                    ns.push(0);
                }
            } else {
                ns.push(self.shape[i]);
            }
            i = i + 1;
        }
        proof {
            assert(ns@ =~= drop_shape(index@, self.shape@));
            assert forall|q: int| 0 <= q < ns@.len() implies #[trigger] ns@[q]
                <= self.shape@[q] by {}
            lemma_suffix_fits_pointwise(ns@, self.shape@);
            assert(index@.skip(0) =~= index@);
            assert(self.shape@.skip(0) =~= self.shape@);
        }
        let data = drop_block(index, 0, &self.shape, 0, &self.data);
        Ok(Array { shape: ns, data })
    }
}

/// The scan for an overrunning axis finds the first one.
proof fn lemma_first_too_far(index: Seq<isize>, s: Seq<usize>, i: int)
    requires
        0 <= i < index.len() <= s.len(),
        abs_sp(index[i]) > s[i],
        forall|q: int| 0 <= q < i ==> abs_sp(index[q]) <= s[q],
    ensures
        take_needs_fill(index, s),
        first_too_far(index, s) == i,
        abs_sp(index[first_too_far(index, s)]) == abs_sp(index[i]),
        s[first_too_far(index, s)] == s[i],
    decreases i,
{
    assert(take_needs_fill(index, s));
    if i == 0 {
    } else {
        assert(forall|q: int|
            0 <= q < i - 1 ==> abs_sp(#[trigger] index.skip(1)[q]) == abs_sp(index[q + 1]));
        lemma_first_too_far(index.skip(1), s.skip(1), i - 1);
    }
}

} // verus!
// Undoing take and drop: splice the edited section back over the rows or
// positions it came from, recursing axis by axis.

verus! {

/// The reconstruction `untake` produces: the edited section's rows replace
/// the leading (or trailing, for a negative count) rows of the restore
/// target, axis by axis.
pub open spec fn untake_data<T>(index: Seq<isize>, s: Seq<usize>, fd: Seq<T>, id: Seq<T>) -> Seq<
    T,
>
    decreases index.len(), 1int, 0int,
{
    if index.len() == 0 || s.len() == 0 {
        id
    } else {
        let t = index[0];
        let rc = s[0] as int;
        let rl = prod(s.skip(1));
        let a = abs_sp(t);
        if index.len() == 1 {
            if t >= 0 {
                fd + id.skip(a * rl)
            } else {
                id.take((rc - a) * rl) + fd
            }
        } else {
            if t >= 0 {
                untake_cat(index, s, fd, id, 0, a, 0) + id.skip(a * rl)
            } else {
                id.take((rc - a) * rl) + untake_cat(index, s, fd, id, 0, a, rc - a)
            }
        }
    }
}

/// Rows `i..end`: the edited section's row `i` spliced over the target's row
/// `off + i`, concatenated.
pub open spec fn untake_cat<T>(
    index: Seq<isize>,
    s: Seq<usize>,
    fd: Seq<T>,
    id: Seq<T>,
    i: int,
    end: int,
    off: int,
) -> Seq<T>
    decreases index.len(), 0int, end - i,
{
    if index.len() == 0 || s.len() == 0 || !(0 <= i < end) {
        Seq::empty()
    } else {
        let rl = prod(s.skip(1));
        let frl = prod(take_shape(index.skip(1), s.skip(1)));
        untake_data(
            index.skip(1),
            s.skip(1),
            row_at(fd, frl, i),
            row_at(id, rl, off + i),
        ) + untake_cat(index, s, fd, id, i + 1, end, off)
    }
}

/// The reconstruction keeps the target's element count.
pub proof fn lemma_untake_data_len<T>(index: Seq<isize>, s: Seq<usize>, fd: Seq<T>, id: Seq<T>)
    requires
        index.len() <= s.len(),
        id.len() == prod(s),
        fd.len() == prod(take_shape(index, s)),
        !take_needs_fill(index, s),
    ensures
        untake_data(index, s, fd, id).len() == id.len(),
    decreases index.len(), 1int, 0int,
{
    if index.len() == 0 || s.len() == 0 {
    } else {
        let t = index[0];
        let rc = s[0] as int;
        let rl = prod(s.skip(1));
        let a = abs_sp(t);
        assert(a <= rc) by {
            if a > rc {
                assert(abs_sp(index[0]) > s[0]);
            }
        }
        lemma_prod_nonneg(s.skip(1));
        assert(prod(s) == rc * rl);
        assert(take_shape(index, s).skip(1) =~= take_shape(index.skip(1), s.skip(1)));
        let frl = prod(take_shape(index.skip(1), s.skip(1)));
        lemma_prod_nonneg(take_shape(index.skip(1), s.skip(1)));
        assert(prod(take_shape(index, s)) == a * frl);
        crate::array::mul_le_mono(a, rc, rl);
        if index.len() == 1 {
            assert(take_shape(index.skip(1), s.skip(1)) =~= s.skip(1));
            assert(fd.len() == a * rl);
            if t >= 0 {
                assert(a * rl + (rc * rl - a * rl) == rc * rl);
            } else {
                assert((rc - a) * rl == rc * rl - a * rl) by (nonlinear_arith);
            }
        } else {
            if t >= 0 {
                lemma_untake_cat_len(index, s, fd, id, 0, a, 0);
                assert(a * rl + (rc * rl - a * rl) == rc * rl);
            } else {
                lemma_untake_cat_len(index, s, fd, id, 0, a, rc - a);
                assert((rc - a) * rl == rc * rl - a * rl) by (nonlinear_arith);
            }
        }
    }
}

pub proof fn lemma_untake_cat_len<T>(
    index: Seq<isize>,
    s: Seq<usize>,
    fd: Seq<T>,
    id: Seq<T>,
    i: int,
    end: int,
    off: int,
)
    requires
        2 <= index.len() <= s.len(),
        id.len() == prod(s),
        fd.len() == prod(take_shape(index, s)),
        !take_needs_fill(index, s),
        0 <= i <= end <= abs_sp(index[0]),
        abs_sp(index[0]) <= s[0],
        0 <= off,
        off + end <= s[0],
    ensures
        untake_cat(index, s, fd, id, i, end, off).len() == (end - i) * prod(s.skip(1)),
    decreases index.len(), 0int, end - i,
{
    let rl = prod(s.skip(1));
    let rc = s[0] as int;
    let a = abs_sp(index[0]);
    lemma_prod_nonneg(s.skip(1));
    if i >= end {
        assert((end - i) * rl == 0) by (nonlinear_arith)
            requires
                end == i,
        ;
    } else {
        lemma_untake_cat_len(index, s, fd, id, i + 1, end, off);
        assert(take_shape(index, s).skip(1) =~= take_shape(index.skip(1), s.skip(1)));
        let frl = prod(take_shape(index.skip(1), s.skip(1)));
        lemma_prod_nonneg(take_shape(index.skip(1), s.skip(1)));
        assert(prod(take_shape(index, s)) == a * frl);
        assert(prod(s) == rc * rl);
        // Both row reads are in bounds.
        crate::array::mul_le_mono(i, a - 1, frl);
        assert((a - 1) * frl + frl == a * frl) by (nonlinear_arith);
        crate::array::mul_le_mono(0, i, frl);
        crate::array::mul_le_mono(off + i, rc - 1, rl);
        assert((rc - 1) * rl + rl == rc * rl) by (nonlinear_arith);
        crate::array::mul_le_mono(0, off + i, rl);
        assert(row_at(id, rl, off + i).len() == rl);
        assert(row_at(fd, frl, i).len() == frl);
        assert forall|q: int|
            0 <= q < index.skip(1).len() implies !(abs_sp(#[trigger] index.skip(1)[q]) > s.skip(
            1,
        )[q]) by {
            if abs_sp(index[q + 1]) > s[q + 1] {
                assert(take_needs_fill(index, s));
            }
        }
        lemma_untake_data_len(
            index.skip(1),
            s.skip(1),
            row_at(fd, frl, i),
            row_at(id, rl, off + i),
        );
        assert(rl + (end - i - 1) * rl == (end - i) * rl) by (nonlinear_arith);
    }
}

/// Build the reconstruction for the block of shape `shape[si..]`.
fn untake_block<T: ArrayElem>(
    index: &Vec<isize>,
    ii: usize,
    shape: &Vec<usize>,
    si: usize,
    fd: &Vec<T>,
    id: &Vec<T>,
) -> (r: Vec<T>)
    requires
        ii <= index@.len(),
        index@.len() - ii <= shape@.len() - si,
        si <= shape@.len(),
        suffix_fits(shape@),
        id@.len() == prod(shape@.skip(si as int)),
        fd@.len() == prod(take_shape(index@.skip(ii as int), shape@.skip(si as int))),
        !take_needs_fill(index@.skip(ii as int), shape@.skip(si as int)),
    ensures
        r@ == untake_data(index@.skip(ii as int), shape@.skip(si as int), fd@, id@),
        r@.len() == id@.len(),
    decreases index@.len() - ii,
{
    let ghost gidx = index@.skip(ii as int);
    let ghost gs = shape@.skip(si as int);
    proof {
        lemma_untake_data_len(gidx, gs, fd@, id@);
    }
    let idlen = id.len();
    if ii == index.len() {
        let r = copy_range(id, 0, idlen);
        proof {
            assert(r@ =~= id@);
        }
        return r;
    }
    let t = index[ii];
    let slen_e = shape.len();
    let rc = shape[si];
    proof {
        assert(gs.skip(1) =~= shape@.skip(si + 1));
        assert(gidx.skip(1) =~= index@.skip(ii + 1));
        assert(prod(gs) == rc * prod(gs.skip(1)));
        lemma_prod_nonneg(gs.skip(1));
        lemma_suffix_fits_skip(shape@, si + 1);
    }
    let rl = suffix_product(shape, si + 1);
    let a = crate::shape::abs_isize(t);
    proof {
        assert(a <= rc) by {
            if a > rc {
                assert(abs_sp(gidx[0]) > gs[0]);
            }
        }
        crate::array::mul_le_mono(a as int, rc as int, rl as int);
        assert(id@.len() <= usize::MAX) by {
            assert(gs.skip(0) =~= gs);
            assert(prod(gs) <= usize::MAX);
        }
        assert(take_shape(gidx, gs).skip(1) =~= take_shape(gidx.skip(1), gs.skip(1)));
        lemma_prod_nonneg(take_shape(gidx.skip(1), gs.skip(1)));
        assert(fd@.len() == a * prod(take_shape(gidx.skip(1), gs.skip(1))));
    }
    if ii + 1 == index.len() {
        // Last axis: the section replaces the leading or trailing rows.
        proof {
            assert(take_shape(gidx.skip(1), gs.skip(1)) =~= gs.skip(1));
            assert(fd@.len() == a * rl);
        }
        let fdlen = fd.len();
        let mut out: Vec<T> = Vec::new();
        if t >= 0 {
            out = copy_range(fd, 0, fdlen);
            extend_range(&mut out, id, a * rl, idlen - a * rl);
            proof {
                assert(id@.subrange((a * rl) as int, idlen as int) =~= id@.skip((a * rl) as int));
                assert(out@ =~= fd@ + id@.skip((a * rl) as int));
            }
        } else {
            proof {
                assert(((rc - a) * rl) as int == rc * rl - a * rl) by (nonlinear_arith);
            }
            out = copy_range(id, 0, (rc - a) * rl);
            extend_range(&mut out, fd, 0, fdlen);
            proof {
                assert(id@.subrange(0, ((rc - a) * rl) as int) =~= id@.take(((rc - a) * rl) as int));
                assert(fd@.subrange(0, fdlen as int) =~= fd@);
                assert(out@ =~= id@.take(((rc - a) * rl) as int) + fd@);
            }
        }
        return out;
    }
    // More axes: splice row by row.
    let ilen_e = index.len();
    let ghost frl_sp = prod(take_shape(gidx.skip(1), gs.skip(1)));
    let off: usize = if t >= 0 {
        0
    } else {
        rc - a
    };
    let mut out: Vec<T> = Vec::new();
    if t < 0 {
        proof {
            crate::array::mul_le_mono(rc as int - a, rc as int, rl as int);
        }
        out = copy_range(id, 0, (rc - a) * rl);
        proof {
            assert(((rc - a) * rl) as int == rc * rl - a * rl) by (nonlinear_arith);
            assert(id@.subrange(0, ((rc - a) * rl) as int) =~= id@.take(((rc - a) * rl) as int));
        }
    }
    let ghost head = out@;
    let fdlen_e = fd.len();
    let mut i: usize = 0;
    while i < a
        invariant
            i <= a <= rc,
            ii + 1 < index@.len() <= usize::MAX,
            index@.len() - ii <= shape@.len() - si,
            si < shape@.len() <= usize::MAX,
            suffix_fits(shape@),
            gidx == index@.skip(ii as int),
            gs == shape@.skip(si as int),
            gidx.skip(1) == index@.skip(ii + 1),
            gs.skip(1) == shape@.skip(si + 1),
            rc == gs[0],
            t == gidx[0],
            a == abs_sp(t),
            off == (if t >= 0 {
                0int
            } else {
                rc - a
            }),
            rl == prod(gs.skip(1)),
            frl_sp == prod(take_shape(gidx.skip(1), gs.skip(1))),
            0 <= frl_sp,
            id@.len() == prod(gs) == rc * rl <= usize::MAX,
            fd@.len() == a * frl_sp,
            !take_needs_fill(gidx, gs),
            head.len() == off * rl,
            out@.len() == head.len() + i * rl,
            out@ =~= head + untake_cat(gidx, gs, fd@, id@, 0, i as int, off as int),
        decreases a - i,
    {
        proof {
            crate::array::mul_le_mono(off + i, rc as int - 1, rl as int);
            assert((rc - 1) * rl + rl == rc * rl) by (nonlinear_arith);
            crate::array::mul_le_mono(0, off + i, rl as int);
            crate::array::mul_le_mono(i as int, a as int - 1, frl_sp);
            assert((a - 1) * frl_sp + frl_sp == a * frl_sp) by (nonlinear_arith);
            crate::array::mul_le_mono(0, i as int, frl_sp);
            assert forall|q: int|
                0 <= q < gidx.skip(1).len() implies !(abs_sp(#[trigger] gidx.skip(1)[q]) > gs.skip(
                1,
            )[q]) by {
                if abs_sp(gidx[q + 1]) > gs[q + 1] {
                    assert(take_needs_fill(gidx, gs));
                }
            }
            assert(fd@.len() <= usize::MAX) by {
                lemma_take_le_rows(gidx.skip(1), gs.skip(1));
                assert(a * frl_sp <= a * rl) by (nonlinear_arith)
                    requires
                        frl_sp <= rl,
                        a >= 0,
                ;
                crate::array::mul_le_mono(a as int, rc as int, rl as int);
            }
            assert((off + i) * rl == off * rl + i * rl) by (nonlinear_arith);
            assert((off + i) * rl + rl <= rc * rl);
            assert((i + 1) * rl == i * rl + rl) by (nonlinear_arith);
            lemma_untake_cat_snoc(gidx, gs, fd@, id@, 0, i as int, off as int);
        }
        let ghost frl_bound = frl_sp;
        let frl_e = suffix_product_of_take(index, ii + 1, shape, si + 1);
        let frow = copy_range(fd, i * frl_e, frl_e);
        let irow = copy_range(id, (off + i) * rl, rl);
        let sub = untake_block(index, ii + 1, shape, si + 1, &frow, &irow);
        proof {
            assert(frow@ == row_at(fd@, frl_sp, i as int));
            assert(irow@ == row_at(id@, rl as int, off + i));
            lemma_untake_data_len(gidx.skip(1), gs.skip(1), frow@, irow@);
        }
        let sublen = sub.len();
        extend_range(&mut out, &sub, 0, sublen);
        proof {
            assert(sub@.subrange(0, sublen as int) =~= sub@);
        }
        i = i + 1;
    }
    if t >= 0 {
        proof {
            crate::array::mul_le_mono(a as int, rc as int, rl as int);
        }
        extend_range(&mut out, id, a * rl, idlen - a * rl);
        proof {
            assert(id@.subrange((a * rl) as int, idlen as int) =~= id@.skip((a * rl) as int));
            assert(out@ =~= untake_cat(gidx, gs, fd@, id@, 0, a as int, 0) + id@.skip(
                (a * rl) as int,
            ));
        }
    } else {
        proof {
            assert(out@ =~= id@.take(((rc - a) * rl) as int) + untake_cat(
                gidx,
                gs,
                fd@,
                id@,
                0,
                a as int,
                rc - a,
            ));
        }
    }
    out
}

/// The taken shape never outgrows the source rows when no axis overruns.
proof fn lemma_take_le_rows(index: Seq<isize>, s: Seq<usize>)
    requires
        index.len() <= s.len(),
        forall|q: int| 0 <= q < index.len() ==> !(abs_sp(#[trigger] index[q]) > s[q]),
    ensures
        prod(take_shape(index, s)) <= prod(s),
{
    assert forall|q: int| 0 <= q < take_shape(index, s).len() implies #[trigger] take_shape(
        index,
        s,
    )[q] <= s[q] by {}
    lemma_prod_le_pointwise(take_shape(index, s), s);
}

proof fn lemma_untake_cat_snoc<T>(
    index: Seq<isize>,
    s: Seq<usize>,
    fd: Seq<T>,
    id: Seq<T>,
    lo: int,
    i: int,
    off: int,
)
    requires
        2 <= index.len() <= s.len(),
        0 <= lo <= i,
    ensures
        untake_cat(index, s, fd, id, lo, i + 1, off) =~= untake_cat(index, s, fd, id, lo, i, off)
            + untake_data(
            index.skip(1),
            s.skip(1),
            row_at(fd, prod(take_shape(index.skip(1), s.skip(1))), i),
            row_at(id, prod(s.skip(1)), off + i),
        ),
    decreases i - lo,
{
    if lo == i {
        assert(untake_cat(index, s, fd, id, lo, lo, off) =~= Seq::<T>::empty());
        assert(untake_cat(index, s, fd, id, lo + 1, lo + 1, off) =~= Seq::<T>::empty());
    } else {
        lemma_untake_cat_snoc(index, s, fd, id, lo + 1, i, off);
    }
}

/// The row length of the taken sub-shape at depth `si`.
fn suffix_product_of_take(index: &Vec<isize>, ii: usize, shape: &Vec<usize>, si: usize) -> (r:
    usize)
    requires
        ii <= index@.len(),
        index@.len() - ii <= shape@.len() - si,
        si <= shape@.len(),
        suffix_fits(shape@),
        forall|q: int|
            0 <= q < index@.skip(ii as int).len() ==> !(abs_sp(
                #[trigger] index@.skip(ii as int)[q],
            ) > shape@.skip(si as int)[q]),
    ensures
        r == prod(take_shape(index@.skip(ii as int), shape@.skip(si as int))),
{
    // Build the sub-shape and multiply it out; it never outgrows the source
    // suffix, which is addressable.
    let ghost gidx = index@.skip(ii as int);
    let ghost gs = shape@.skip(si as int);
    let ilen_e = index.len();
    let slen_e = shape.len();
    let mut ns: Vec<usize> = Vec::new();
    let mut q: usize = si;
    while q < shape.len()
        invariant
            si <= q <= shape@.len(),
            ii <= index@.len() <= usize::MAX,
            index@.len() - ii <= shape@.len() - si,
            gidx == index@.skip(ii as int),
            gs == shape@.skip(si as int),
            forall|p: int| 0 <= p < gidx.len() ==> !(abs_sp(#[trigger] gidx[p]) > gs[p]),
            ns@ =~= take_shape(gidx, gs).take(q - si),
        decreases shape@.len() - q,
    {
        if q - si < index.len() - ii {
            ns.push(crate::shape::abs_isize(index[ii + (q - si)]));
        } else {
            ns.push(shape[q]);
        }
        q = q + 1;
    }
    proof {
        assert(ns@ =~= take_shape(gidx, gs));
        lemma_take_le_rows(gidx, gs);
        crate::shape::lemma_suffix_fits_skip(shape@, si as int);
        assert forall|p: int| 0 <= p < ns@.len() implies #[trigger] ns@[p] <= gs[p] by {}
        lemma_suffix_fits_pointwise(ns@, gs);
    }
    let nslen = ns.len();
    let r = crate::shape::suffix_product(&ns, 0);
    proof {
        assert(ns@.skip(0) =~= ns@);
    }
    r
}

/// Everything `untake` promises of its result: `fs`/`fd` are the edited
/// section's shape and data, `is_`/`id` the restore target's.
pub open spec fn untake_post<T: ArrayElem>(
    index: Seq<isize>,
    fs: Seq<usize>,
    fd: Seq<T>,
    is_: Seq<usize>,
    id: Seq<T>,
    r: Result<Array<T>, ArrayError>,
) -> bool {
    &&& index.len() > is_.len() ==> r == Err::<Array<T>, ArrayError>(
        ArrayError::IndexRank { rank: is_.len() as usize, index_len: index.len() as usize },
    )
    &&& index.len() <= is_.len() && take_needs_fill(index, is_) ==> r == Err::<
        Array<T>,
        ArrayError,
    >(ArrayError::UndoShapeChanged)
    &&& index.len() <= is_.len() && !take_needs_fill(index, is_) && fs != take_shape(index, is_)
        ==> r == Err::<Array<T>, ArrayError>(ArrayError::UndoShapeChanged)
    &&& index.len() <= is_.len() && !take_needs_fill(index, is_) && fs == take_shape(index, is_)
        ==> r is Ok && r->Ok_0.wf() && r->Ok_0.shape@ == is_ && r->Ok_0.data@ == untake_data(
        index,
        is_,
        fd,
        id,
    )
}

/// Everything `undrop` promises of its result.
pub open spec fn undrop_post<T: ArrayElem>(
    index: Seq<isize>,
    fs: Seq<usize>,
    fd: Seq<T>,
    is_: Seq<usize>,
    id: Seq<T>,
    r: Result<Array<T>, ArrayError>,
) -> bool {
    let undo = undrop_index(index, is_);
    {
        &&& index.len() > is_.len() ==> r == Err::<Array<T>, ArrayError>(
            ArrayError::IndexRank { rank: is_.len() as usize, index_len: index.len() as usize },
        )
        &&& index.len() <= is_.len() && !undrop_fits(index, is_) ==> r == Err::<
            Array<T>,
            ArrayError,
        >(ArrayError::TooLarge)
        &&& index.len() <= is_.len() && undrop_fits(index, is_) && fs != take_shape(undo, is_)
            ==> r == Err::<Array<T>, ArrayError>(ArrayError::UndoShapeChanged)
        &&& index.len() <= is_.len() && undrop_fits(index, is_) && fs == take_shape(undo, is_)
            ==> r is Ok && r->Ok_0.wf() && r->Ok_0.shape@ == is_ && r->Ok_0.data@ == untake_data(
            undo,
            is_,
            fd,
            id,
        )
    }
}

impl<T: ArrayElem> Array<T> {
    /// Undo a take: splice this (the taken, possibly edited) section back
    /// over the rows it came from in `into`. The section's shape must be
    /// exactly what the take produced, and a take that padded with fill
    /// values cannot be undone.
    pub fn untake(self, index: &Vec<isize>, into: Array<T>) -> (r: Result<Array<T>, ArrayError>)
        requires
            self.wf(),
            into.wf(),
        ensures
            untake_post(index@, self.shape@, self.data@, into.shape@, into.data@, r),
    {
        if index.len() > into.shape.len() {
            return Err(
                ArrayError::IndexRank { rank: into.shape.len(), index_len: index.len() },
            );
        }
        // Reject overruns and shape drift.
        let mut q: usize = 0;
        while q < index.len()
            invariant
                q <= index@.len() <= into.shape@.len(),
                into.wf(),
                self.wf(),
                forall|p: int| 0 <= p < q ==> !(abs_sp(#[trigger] index@[p]) > into.shape@[p]),
            decreases index@.len() - q,
        {
            let a = crate::shape::abs_isize(index[q]);
            if a > into.shape[q] {
                proof {
                    assert(abs_sp(index@[q as int]) > into.shape@[q as int]);
                    assert(take_needs_fill(index@, into.shape@));
                }
                return Err(ArrayError::UndoShapeChanged);
            }
            q = q + 1;
        }
        proof {
            assert(!take_needs_fill(index@, into.shape@)) by {
                if take_needs_fill(index@, into.shape@) {
                    let p = choose|p: int|
                        0 <= p < index@.len() && abs_sp(#[trigger] index@[p]) > into.shape@[p];
                    assert(false);
                }
            }
        }
        // The edited section must have exactly the taken shape.
        let mut ok = self.shape.len() == into.shape.len();
        let mut q: usize = 0;
        while q < self.shape.len() && ok
            invariant
                q <= self.shape@.len(),
                into.wf(),
                self.wf(),
                index@.len() <= into.shape@.len(),
                ok ==> self.shape@.len() == into.shape@.len() && forall|p: int|
                    0 <= p < q ==> self.shape@[p] == take_shape(index@, into.shape@)[p],
                !ok ==> self.shape@ != take_shape(index@, into.shape@),
            decreases self.shape@.len() - q,
        {
            let want: usize = if q < index.len() {
                crate::shape::abs_isize(index[q])
            } else {
                into.shape[q]
            };
            if self.shape[q] != want {
                ok = false;
            }
            q = q + 1;
        }
        if !ok {
            return Err(ArrayError::UndoShapeChanged);
        }
        proof {
            assert(self.shape@ =~= take_shape(index@, into.shape@));
            assert(index@.skip(0) =~= index@);
            assert(into.shape@.skip(0) =~= into.shape@);
        }
        let data = untake_block(index, 0, &into.shape, 0, &self.data, &into.data);
        Ok(Array { shape: into.shape, data })
    }

    /// Undo a drop: splice this (the dropped-to remainder, possibly edited)
    /// section back over the positions it kept in `into`.
    pub fn undrop(self, index: &Vec<isize>, into: Array<T>) -> (r: Result<Array<T>, ArrayError>)
        requires
            self.wf(),
            into.wf(),
        ensures
            undrop_post(index@, self.shape@, self.data@, into.shape@, into.data@, r),
    {
        if index.len() > into.shape.len() {
            return Err(
                ArrayError::IndexRank { rank: into.shape.len(), index_len: index.len() },
            );
        }
        // A drop of `i` kept the complementary rows; undoing it is undoing a
        // take of the complement.
        let mut undo: Vec<isize> = Vec::new();
        let mut q: usize = 0;
        while q < index.len()
            invariant
                q <= index@.len() <= into.shape@.len(),
                into.wf(),
                self.wf(),
                forall|p: int| 0 <= p < q ==> undrop_fits_at(index@, into.shape@, p),
                undo@ =~= undrop_index(index@, into.shape@).take(q as int),
            decreases index@.len() - q,
        {
            let i = index[q];
            let sa = into.shape[q];
            let m = crate::shape::abs_isize(i);
            if m < sa && sa - m > (isize::MAX as usize) {
                proof {
                    assert(!undrop_fits_at(index@, into.shape@, q as int));
                    assert(!undrop_fits(index@, into.shape@));
                }
                return Err(ArrayError::TooLarge);
            }
            if i >= 0 {
                if m >= sa {
                    undo.push(0);
                } else {
                    undo.push(-((sa - m) as isize));
                }
            } else {
                if m >= sa {
                    undo.push(0);
                } else {
                    undo.push((sa - m) as isize);
                }
            }
            proof {
                assert(undrop_fits_at(index@, into.shape@, q as int));
                assert(undo@ =~= undrop_index(index@, into.shape@).take(q + 1));
            }
            q = q + 1;
        }
        proof {
            assert forall|p: int| 0 <= p < index@.len() implies undrop_fits_at(
                index@,
                into.shape@,
                p,
            ) by {}
        }
        proof {
            assert(undo@ =~= undrop_index(index@, into.shape@));
            lemma_undrop_no_fill(index@, into.shape@);
        }
        self.untake(&undo, into)
    }
}

/// The take counts that undo a drop: the complement of the dropped counts,
/// negated so that the splice lands on the kept side.
pub open spec fn undrop_index(index: Seq<isize>, s: Seq<usize>) -> Seq<isize> {
    Seq::new(index.len(), |q: int| {
        let m = abs_sp(index[q]);
        if index[q] >= 0 {
            if m >= s[q] {
                0isize
            } else {
                (-((s[q] - m) as int)) as isize
            }
        } else {
            if m >= s[q] {
                0isize
            } else {
                ((s[q] - m) as int) as isize
            }
        }
    })
}

/// The complementary count at axis `q` is representable.
pub open spec fn undrop_fits_at(index: Seq<isize>, s: Seq<usize>, q: int) -> bool {
    abs_sp(index[q]) < s[q] ==> s[q] - abs_sp(index[q]) <= isize::MAX
}

/// Every complementary count is representable.
pub open spec fn undrop_fits(index: Seq<isize>, s: Seq<usize>) -> bool {
    forall|q: int| 0 <= q < index.len() ==> undrop_fits_at(index, s, q)
}

/// The undo counts never overrun their axes.
proof fn lemma_undrop_no_fill(index: Seq<isize>, s: Seq<usize>)
    requires
        index.len() <= s.len(),
    ensures
        !take_needs_fill(undrop_index(index, s), s),
{
    let u = undrop_index(index, s);
    assert forall|q: int| 0 <= q < u.len() implies !(abs_sp(#[trigger] u[q]) > s[q]) by {}
}

} // verus!
