//! Rotate: cyclic rotation along the leading axes, one signed offset per
//! axis; with a fill value in scope the wrapped-around boundary is overwritten
//! instead, turning the rotation into a directional shift.

use vstd::prelude::*;

use crate::array::{copy_range, extend_range, row_at, Array};
use crate::elem::ArrayElem;
use crate::error::ArrayError;
use crate::shape::{emod, prod, suffix_fits, suffix_product, wrap_offset};
use vstd::arithmetic::div_mod::{
    lemma_add_mod_noop_right, lemma_mod_bound, lemma_mod_multiples_vanish, lemma_small_mod,
};

verus! {

/// Cyclic rotation of `d` (shape `s`) by one offset per leading axis: row `i`
/// of the result is row `(i + by[0]) mod row_count` of the input, rotated in
/// turn by the remaining offsets.
pub open spec fn rotate_spec<T>(by: Seq<isize>, s: Seq<usize>, d: Seq<T>) -> Seq<T>
    decreases s.len(), s[0] + 2, 1int,
{
    if by.len() == 0 || s.len() == 0 || s[0] == 0 {
        d
    } else {
        rotate_cat(by, s, d, 0)
    }
}

/// Rows `i..` of the rotation, concatenated.
pub open spec fn rotate_cat<T>(by: Seq<isize>, s: Seq<usize>, d: Seq<T>, i: int) -> Seq<T>
    decreases s.len(), s[0] + 1 - i, 0int,
{
    if s.len() == 0 || !(0 <= i < s[0]) {
        Seq::empty()
    } else {
        let rl = prod(s.skip(1));
        rotate_spec(by.skip(1), s.skip(1), row_at(d, rl, emod(i + by[0], s[0] as int)))
            + rotate_cat(by, s, d, i + 1)
    }
}

/// The overwrite region of a directional shift: with offset `off`, the
/// `|off| * rl` wrapped-around cells (clamped to the block), at the back for
/// a positive offset and at the front for a negative one.
pub open spec fn shift_overwritten<T>(d: Seq<T>, off: int, rl: int, fill: T) -> Seq<T> {
    let a: int = if 0 <= off * rl <= d.len() || 0 <= (-off) * rl <= d.len() {
        if off >= 0 {
            off * rl
        } else {
            (-off) * rl
        }
    } else {
        d.len() as int
    };
    if off > 0 {
        Seq::new(d.len(), |k: int| if k >= d.len() - a {
            fill
        } else {
            d[k]
        })
    } else if off < 0 {
        Seq::new(d.len(), |k: int| if k < a {
            fill
        } else {
            d[k]
        })
    } else {
        d
    }
}

/// The boundary overwrite of a directional shift: the rows that wrapped
/// around are replaced by the fill value, and the remaining offsets shift
/// each row in turn.
pub open spec fn fill_shift_spec<T>(by: Seq<isize>, s: Seq<usize>, d: Seq<T>, fill: T) -> Seq<T>
    decreases s.len(), s[0] + 2, 1int,
{
    if by.len() == 0 || s.len() == 0 || s[0] == 0 {
        d
    } else {
        let rl = prod(s.skip(1));
        let d1 = shift_overwritten(d, by[0] as int, rl, fill);
        if by.len() >= 2 && s.len() >= 2 {
            fill_shift_cat(by, s, d1, fill, 0)
        } else {
            d1
        }
    }
}

/// Rows `i..` of the boundary-overwritten block, each shifted by the
/// remaining offsets, concatenated.
pub open spec fn fill_shift_cat<T>(
    by: Seq<isize>,
    s: Seq<usize>,
    d1: Seq<T>,
    fill: T,
    i: int,
) -> Seq<T>
    decreases s.len(), s[0] + 1 - i, 0int,
{
    if s.len() == 0 || !(0 <= i < s[0]) {
        Seq::empty()
    } else {
        let rl = prod(s.skip(1));
        fill_shift_spec(by.skip(1), s.skip(1), row_at(d1, rl, i), fill)
            + fill_shift_cat(by, s, d1, fill, i + 1)
    }
}

/// Rotation preserves the element count.
pub proof fn lemma_rotate_spec_len<T>(by: Seq<isize>, s: Seq<usize>, d: Seq<T>)
    requires
        d.len() == prod(s),
    ensures
        rotate_spec(by, s, d).len() == d.len(),
    decreases s.len(), s[0] + 2, 1int,
{
    if by.len() == 0 || s.len() == 0 || s[0] == 0 {
    } else {
        lemma_rotate_cat_len(by, s, d, 0);
        crate::shape::lemma_prod_nonneg(s.skip(1));
        assert(prod(s) == s[0] * prod(s.skip(1)));
    }
}

/// The concatenated rows `i..` have `(row_count - i) * row_len` elements.
pub proof fn lemma_rotate_cat_len<T>(by: Seq<isize>, s: Seq<usize>, d: Seq<T>, i: int)
    requires
        s.len() > 0,
        d.len() == prod(s),
        0 <= i <= s[0],
    ensures
        rotate_cat(by, s, d, i).len() == (s[0] - i) * prod(s.skip(1)),
    decreases s.len(), s[0] + 1 - i, 0int,
{
    let rc = s[0] as int;
    let rl = prod(s.skip(1));
    crate::shape::lemma_prod_nonneg(s.skip(1));
    if i >= rc {
        assert((rc - i) * rl == 0) by (nonlinear_arith)
            requires
                rc == i,
        ;
    } else {
        lemma_rotate_cat_len(by, s, d, i + 1);
        let m = emod(i + by[0], rc);
        lemma_mod_bound(i + by[0], rc);
        crate::array::mul_le_mono(m, rc - 1, rl);
        assert((rc - 1) * rl + rl == rc * rl) by (nonlinear_arith);
        crate::array::mul_le_mono(0, m, rl);
        assert(prod(s) == rc * rl);
        assert(row_at(d, rl, m).len() == rl);
        lemma_rotate_spec_len(by.skip(1), s.skip(1), row_at(d, rl, m));
        assert(rl + (rc - i - 1) * rl == (rc - i) * rl) by (nonlinear_arith);
    }
}

/// The boundary overwrite preserves the element count.
pub proof fn lemma_fill_shift_spec_len<T>(by: Seq<isize>, s: Seq<usize>, d: Seq<T>, fill: T)
    requires
        d.len() == prod(s),
    ensures
        fill_shift_spec(by, s, d, fill).len() == d.len(),
    decreases s.len(), s[0] + 2, 1int,
{
    if by.len() == 0 || s.len() == 0 || s[0] == 0 {
    } else {
        let rl = prod(s.skip(1));
        let d1 = shift_overwritten(d, by[0] as int, rl, fill);
        assert(d1.len() == d.len());
        if by.len() >= 2 && s.len() >= 2 {
            lemma_fill_shift_cat_len(by, s, d1, fill, 0);
            crate::shape::lemma_prod_nonneg(s.skip(1));
            assert(prod(s) == s[0] * prod(s.skip(1)));
        }
    }
}

pub proof fn lemma_fill_shift_cat_len<T>(by: Seq<isize>, s: Seq<usize>, d1: Seq<T>, fill: T, i: int)
    requires
        s.len() > 0,
        d1.len() == prod(s),
        0 <= i <= s[0],
    ensures
        fill_shift_cat(by, s, d1, fill, i).len() == (s[0] - i) * prod(s.skip(1)),
    decreases s.len(), s[0] + 1 - i, 0int,
{
    let rc = s[0] as int;
    let rl = prod(s.skip(1));
    crate::shape::lemma_prod_nonneg(s.skip(1));
    if i >= rc {
        assert((rc - i) * rl == 0) by (nonlinear_arith)
            requires
                rc == i,
        ;
    } else {
        lemma_fill_shift_cat_len(by, s, d1, fill, i + 1);
        crate::array::mul_le_mono(i, rc - 1, rl);
        assert((rc - 1) * rl + rl == rc * rl) by (nonlinear_arith);
        crate::array::mul_le_mono(0, i, rl);
        assert(prod(s) == rc * rl);
        assert(row_at(d1, rl, i).len() == rl);
        lemma_fill_shift_spec_len(by.skip(1), s.skip(1), row_at(d1, rl, i), fill);
        assert(rl + (rc - i - 1) * rl == (rc - i) * rl) by (nonlinear_arith);
    }
}

/// Rotate the block `d` of shape `shape[si..]` by the offsets `by[bi..]`.
pub fn rotate_block<T: ArrayElem>(
    by: &Vec<isize>,
    bi: usize,
    shape: &Vec<usize>,
    si: usize,
    d: &Vec<T>,
) -> (r: Vec<T>)
    requires
        bi <= by@.len(),
        si <= shape@.len(),
        suffix_fits(shape@),
        d@.len() == prod(shape@.skip(si as int)),
    ensures
        r@ == rotate_spec(by@.skip(bi as int), shape@.skip(si as int), d@),
        r@.len() == d@.len(),
    decreases shape@.len() - si,
{
    let ghost gby = by@.skip(bi as int);
    let ghost gs = shape@.skip(si as int);
    proof {
        lemma_rotate_spec_len(gby, gs, d@);
    }
    let dlen = d.len();
    if bi == by.len() || si == shape.len() {
        let r = copy_range(d, 0, dlen);
        proof {
            assert(r@ =~= d@);
        }
        return r;
    }
    let rc = shape[si];
    if rc == 0 {
        let r = copy_range(d, 0, dlen);
        proof {
            assert(r@ =~= d@);
        }
        return r;
    }
    proof {
        crate::shape::lemma_suffix_fits_skip(shape@, si as int);
        assert(gs.skip(1) =~= shape@.skip(si + 1));
        assert(prod(gs) == rc * prod(gs.skip(1)));
        crate::shape::lemma_prod_nonneg(gs.skip(1));
    }
    let rl = suffix_product(shape, si + 1);
    let shift = wrap_offset(by[bi], rc);
    let mut out: Vec<T> = Vec::new();
    let mut i: usize = 0;
    while i < rc
        invariant
            i <= rc,
            rc == gs[0],
            shift == emod(gby[0] as int, rc as int),
            0 <= shift < rc,
            bi < by@.len() <= usize::MAX,
            si < shape@.len() <= usize::MAX,
            suffix_fits(shape@),
            gby == by@.skip(bi as int),
            gs == shape@.skip(si as int),
            rl == prod(gs.skip(1)),
            gs.skip(1) == shape@.skip(si + 1),
            d@.len() == prod(gs) == rc * rl,
            out@ + rotate_cat(gby, gs, d@, i as int) =~= rotate_cat(gby, gs, d@, 0),
            out@.len() == i * rl,
        decreases rc - i,
    {
        let src: usize = if i < rc - shift {
            i + shift
        } else {
            i - (rc - shift)
        };
        proof {
            // `src` is the source row's index: (i + by[0]) mod rc.
            let t = i + shift;
            lemma_add_mod_noop_right(i as int, gby[0] as int, rc as int);
            if t < rc {
                lemma_small_mod(t as nat, rc as nat);
            } else {
                lemma_mod_multiples_vanish(1, t - rc, rc as int);
                lemma_small_mod((t - rc) as nat, rc as nat);
            }
            assert(src == emod(i + gby[0], rc as int));
            crate::array::mul_le_mono(src as int, rc as int - 1, rl as int);
            assert((rc - 1) * rl + rl == rc * rl) by (nonlinear_arith);
            crate::array::mul_le_mono(0, src as int, rl as int);
            assert(d@.len() <= usize::MAX);
        }
        let row = copy_range(d, src * rl, rl);
        let sub = rotate_block(by, bi + 1, shape, si + 1, &row);
        proof {
            assert(by@.skip(bi + 1) =~= gby.skip(1));
            assert(row@ == row_at(d@, rl as int, src as int));
            assert(rotate_cat(gby, gs, d@, i as int) == rotate_spec(gby.skip(1), gs.skip(1), row@)
                + rotate_cat(gby, gs, d@, i + 1));
            lemma_rotate_spec_len(gby.skip(1), gs.skip(1), row@);
            crate::array::mul_le_mono(i as int + 1, rc as int, rl as int);
            assert((i + 1) * rl == i * rl + rl) by (nonlinear_arith);
            assert(out@.len() + sub@.len() <= usize::MAX);
        }
        let sublen = sub.len();
        extend_range(&mut out, &sub, 0, sublen);
        proof {
            assert(sub@.subrange(0, sublen as int) =~= sub@);
        }
        i = i + 1;
    }
    proof {
        assert(rotate_cat(gby, gs, d@, rc as int) =~= Seq::<T>::empty());
        assert(out@ =~= rotate_cat(gby, gs, d@, 0));
    }
    out
}

/// Overwrite the shift boundary of the block `d` of shape `shape[si..]`.
fn fill_shift_block<T: ArrayElem>(
    by: &Vec<isize>,
    bi: usize,
    shape: &Vec<usize>,
    si: usize,
    d: &Vec<T>,
    fill: T,
) -> (r: Vec<T>)
    requires
        bi <= by@.len(),
        si <= shape@.len(),
        suffix_fits(shape@),
        d@.len() == prod(shape@.skip(si as int)),
    ensures
        r@ == fill_shift_spec(by@.skip(bi as int), shape@.skip(si as int), d@, fill),
        r@.len() == d@.len(),
    decreases shape@.len() - si,
{
    let ghost gby = by@.skip(bi as int);
    let ghost gs = shape@.skip(si as int);
    proof {
        lemma_fill_shift_spec_len(gby, gs, d@, fill);
    }
    let dlen = d.len();
    if bi == by.len() || si == shape.len() {
        let r = copy_range(d, 0, dlen);
        proof {
            assert(r@ =~= d@);
        }
        return r;
    }
    let rc = shape[si];
    if rc == 0 {
        let r = copy_range(d, 0, dlen);
        proof {
            assert(r@ =~= d@);
        }
        return r;
    }
    proof {
        crate::shape::lemma_suffix_fits_skip(shape@, si as int);
        assert(gs.skip(1) =~= shape@.skip(si + 1));
        assert(prod(gs) == rc * prod(gs.skip(1)));
        crate::shape::lemma_prod_nonneg(gs.skip(1));
    }
    let rl = suffix_product(shape, si + 1);
    let off = by[bi];
    let a: usize = {
        let mag = crate::shape::abs_isize(off);
        if mag >= rc {
            proof {
                crate::array::mul_le_mono(rc as int, mag as int, rl as int);
            }
            dlen
        } else {
            proof {
                crate::array::mul_le_mono(mag as int, rc as int, rl as int);
            }
            mag * rl
        }
    };
    let ghost d1_spec = shift_overwritten(d@, gby[0] as int, rl as int, fill);
    proof {
        // The clamp chosen above matches the one in the specification.
        let offi = gby[0] as int;
        let mag: int = if offi >= 0 {
            offi
        } else {
            -offi
        };
        assert(mag * rl >= 0) by (nonlinear_arith)
            requires
                mag >= 0,
                rl >= 0,
        ;
        if mag >= rc {
            crate::array::mul_le_mono(rc as int, mag, rl as int);
        } else {
            crate::array::mul_le_mono(mag, rc as int, rl as int);
        }
    }
    let mut d1: Vec<T> = copy_range(d, 0, dlen);
    proof {
        assert(d1@ =~= d@);
    }
    if off > 0 {
        let mut k: usize = dlen - a;
        while k < dlen
            invariant
                dlen - a <= k <= dlen,
                dlen == d@.len(),
                d1@.len() == dlen,
                a <= dlen,
                forall|q: int| 0 <= q < k ==> d1@[q] == (if q >= dlen - a {
                    fill
                } else {
                    d@[q]
                }),
                forall|q: int| k <= q < dlen ==> d1@[q] == d@[q],
            decreases dlen - k,
        {
            d1.set(k, fill);
            k = k + 1;
        }
        proof {
            assert(d1@ =~= d1_spec);
        }
    } else if off < 0 {
        let mut k: usize = 0;
        while k < a
            invariant
                k <= a <= dlen,
                dlen == d@.len(),
                d1@.len() == dlen,
                forall|q: int| 0 <= q < k ==> d1@[q] == fill,
                forall|q: int| k <= q < dlen ==> d1@[q] == d@[q],
            decreases a - k,
        {
            d1.set(k, fill);
            k = k + 1;
        }
        proof {
            assert(d1@ =~= d1_spec);
        }
    } else {
        proof {
            assert(d1@ == d1_spec);
        }
    }
    if bi + 1 < by.len() && si + 1 < shape.len() {
        let mut out: Vec<T> = Vec::new();
        let mut i: usize = 0;
        while i < rc
            invariant
                i <= rc,
                rc == gs[0],
                bi + 1 < by@.len(),
                si + 1 < shape@.len(),
                by@.len() <= usize::MAX,
                shape@.len() <= usize::MAX,
                suffix_fits(shape@),
                gby == by@.skip(bi as int),
                gs == shape@.skip(si as int),
                rl == prod(gs.skip(1)),
                gs.skip(1) == shape@.skip(si + 1),
                d1@ == d1_spec,
                d1@.len() == prod(gs) == rc * rl,
                out@ + fill_shift_cat(gby, gs, d1_spec, fill, i as int) =~= fill_shift_cat(
                    gby,
                    gs,
                    d1_spec,
                    fill,
                    0,
                ),
                out@.len() == i * rl,
            decreases rc - i,
        {
            proof {
                crate::array::mul_le_mono(i as int, rc as int - 1, rl as int);
                assert((rc - 1) * rl + rl == rc * rl) by (nonlinear_arith);
                crate::array::mul_le_mono(0, i as int, rl as int);
                assert(d1@.len() <= usize::MAX);
            }
            let row = copy_range(&d1, i * rl, rl);
            let sub = fill_shift_block(by, bi + 1, shape, si + 1, &row, fill);
            proof {
                assert(by@.skip(bi + 1) =~= gby.skip(1));
                assert(row@ == row_at(d1_spec, rl as int, i as int));
                assert(fill_shift_cat(gby, gs, d1_spec, fill, i as int) == fill_shift_spec(
                    gby.skip(1),
                    gs.skip(1),
                    row@,
                    fill,
                ) + fill_shift_cat(gby, gs, d1_spec, fill, i + 1));
                lemma_fill_shift_spec_len(gby.skip(1), gs.skip(1), row@, fill);
                crate::array::mul_le_mono(i as int + 1, rc as int, rl as int);
                assert((i + 1) * rl == i * rl + rl) by (nonlinear_arith);
                assert(out@.len() + sub@.len() <= usize::MAX);
            }
            let sublen = sub.len();
            extend_range(&mut out, &sub, 0, sublen);
            proof {
                assert(sub@.subrange(0, sublen as int) =~= sub@);
            }
            i = i + 1;
        }
        proof {
            assert(fill_shift_cat(gby, gs, d1_spec, fill, rc as int) =~= Seq::<T>::empty());
            assert(out@ =~= fill_shift_cat(gby, gs, d1_spec, fill, 0));
            assert(out@ == fill_shift_spec(gby, gs, d@, fill));
        }
        out
    } else {
        proof {
            assert(!(gby.len() >= 2 && gs.len() >= 2));
            assert(d1@ == fill_shift_spec(gby, gs, d@, fill));
        }
        d1
    }
}

impl<T: ArrayElem> Array<T> {
    /// `rotate` this array by one signed offset per leading axis. With a fill
    /// value in scope, the wrapped-around boundary region is overwritten with
    /// the fill value: a directional shift rather than a pure rotation.
    pub fn rotate(&mut self, by: &Vec<isize>, fill: Option<T>) -> (r: Result<(), ArrayError>)
        requires
            old(self).wf(),
        ensures
            final(self).wf(),
            final(self).shape@ == old(self).shape@,
            by@.len() > old(self).shape@.len() ==> r == Err::<(), ArrayError>(
                ArrayError::RotateRank {
                    rank: old(self).shape@.len() as usize,
                    offsets: by@.len() as usize,
                },
            ) && final(self).data@ == old(self).data@,
            by@.len() <= old(self).shape@.len() ==> r is Ok && final(self).data@ == (
            match fill {
                Some(f) => fill_shift_spec(
                    by@,
                    old(self).shape@,
                    rotate_spec(by@, old(self).shape@, old(self).data@),
                    f,
                ),
                None => rotate_spec(by@, old(self).shape@, old(self).data@),
            }),
    {
        if by.len() > self.shape.len() {
            return Err(ArrayError::RotateRank { rank: self.shape.len(), offsets: by.len() });
        }
        proof {
            assert(by@.skip(0) =~= by@);
            assert(self.shape@.skip(0) =~= self.shape@);
        }
        let rotated = rotate_block(by, 0, &self.shape, 0, &self.data);
        self.data = rotated;
        match fill {
            Some(f) => {
                let shifted = fill_shift_block(by, 0, &self.shape, 0, &self.data, f);
                self.data = shifted;
            },
            None => {},
        }
        Ok(())
    }
}

} // verus!
