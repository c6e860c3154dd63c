//! Depth-prefix reconciliation: align two arrays' leading dimensions by
//! dropping length-1 axes and broadcasting one operand, so that depth-wise
//! combination can walk matching chunks. The one reusable alignment routine
//! sits here; the depth-parametrized rotation builds on it.

use vstd::prelude::*;

use crate::array::{extend_repeat_range, Array};
use crate::elem::ArrayElem;
use crate::error::ArrayError;
use crate::shape::{lemma_prod_nonneg, lemma_repeat_seq_len, prod, repeat_seq, suffix_fits};

verus! {

/// Do two shapes agree on their first `k` axes?
pub open spec fn prefix_eq(a: Seq<usize>, b: Seq<usize>, k: int) -> bool {
    forall|i: int| 0 <= i < k ==> a[i] == #[trigger] b[i]
}

/// The smaller of two depths.
pub open spec fn min_depth(a: int, b: int) -> int {
    if a <= b {
        a
    } else {
        b
    }
}

/// How many leading length-1 axes a shape gives up, capped at the depth.
pub open spec fn lead_ones(s: Seq<usize>, cap: int) -> int
    decreases s.len(),
{
    if cap <= 0 || s.len() == 0 || s[0] != 1 {
        0
    } else {
        1 + lead_ones(s.skip(1), cap - 1)
    }
}

/// Data broadcast under a prepended prefix: the innermost prefix dimension
/// replicates first.
pub open spec fn bcast_data<T>(dims: Seq<usize>, d: Seq<T>) -> Seq<T>
    decreases dims.len(),
{
    if dims.len() == 0 {
        d
    } else {
        repeat_seq(bcast_data(dims.skip(1), d), dims[0] as int)
    }
}

/// The broadcast length after each replication step.
pub open spec fn bcast_len(dims: Seq<usize>, l: int) -> int
    decreases dims.len(),
{
    if dims.len() == 0 {
        l
    } else {
        dims[0] * bcast_len(dims.skip(1), l)
    }
}

/// Every replication step stays addressable.
pub open spec fn bcast_fits(dims: Seq<usize>, l: int) -> bool {
    forall|j: int| 0 <= j <= dims.len() ==> bcast_len(#[trigger] dims.skip(j), l) <= usize::MAX
}

pub proof fn lemma_bcast_data_len<T>(dims: Seq<usize>, d: Seq<T>)
    ensures
        bcast_data(dims, d).len() == bcast_len(dims, d.len() as int),
        bcast_len(dims, d.len() as int) >= 0,
    decreases dims.len(),
{
    if dims.len() > 0 {
        lemma_bcast_data_len(dims.skip(1), d);
        lemma_repeat_seq_len(bcast_data(dims.skip(1), d), dims[0] as int);
        let inner = bcast_len(dims.skip(1), d.len() as int);
        assert(dims[0] * inner >= 0) by (nonlinear_arith)
            requires
                dims[0] >= 0,
                inner >= 0,
        ;
    }
}

/// Leading length-1 axes carry no cells: dropping them keeps the product.
pub proof fn lemma_prod_drop_ones(s: Seq<usize>, k: int)
    requires
        0 <= k <= s.len(),
        forall|i: int| 0 <= i < k ==> s[i] == 1,
    ensures
        prod(s.skip(k)) == prod(s),
    decreases k,
{
    if k == 0 {
        assert(s.skip(0) =~= s);
    } else {
        assert(prod(s) == s[0] * prod(s.skip(1)));
        assert(s[0] == 1);
        assert(1 * prod(s.skip(1)) == prod(s.skip(1)));
        assert(forall|i: int| 0 <= i < k - 1 ==> s.skip(1)[i] == s[i + 1]);
        lemma_prod_drop_ones(s.skip(1), k - 1);
        assert(s.skip(1).skip(k - 1) =~= s.skip(k));
    }
}

/// The stripped leading-ones counts of the two shapes; zero when the
/// prefixes already agree.
pub open spec fn strip_counts(as_: Seq<usize>, ad0: int, bs: Seq<usize>, bd0: int) -> (int, int) {
    if prefix_eq(as_, bs, min_depth(ad0, bd0)) {
        (0, 0)
    } else {
        (lead_ones(as_, ad0), lead_ones(bs, bd0))
    }
}

/// The outcome of depth alignment: the two stripped-and-broadcast shapes,
/// the aligned data, and the common depth — or the exact failure.
pub open spec fn align_spec<T>(
    as_: Seq<usize>,
    ad: Seq<T>,
    a_depth: int,
    bs: Seq<usize>,
    bd: Seq<isize>,
    b_depth: int,
) -> Result<(Seq<usize>, Seq<T>, Seq<usize>, Seq<isize>, int), ArrayError> {
    let ad0 = min_depth(a_depth, as_.len() as int);
    let bd0 = min_depth(b_depth, bs.len() as int);
    let (sa, sb) = strip_counts(as_, ad0, bs, bd0);
    let as1 = as_.skip(sa);
    let bs1 = bs.skip(sb);
    let ad1 = ad0 - sa;
    let bd1 = bd0 - sb;
    if !prefix_eq(as1, bs1, min_depth(ad1, bd1)) {
        Err(ArrayError::PrefixMismatch)
    } else if ad1 < bd1 {
        let ext = bs1.take(bd1 - ad1);
        if !bcast_fits(ext, ad.len() as int) {
            Err(ArrayError::TooLarge)
        } else {
            Ok((ext + as1, bcast_data(ext, ad), bs1, bd, bd1))
        }
    } else if ad1 > bd1 {
        let ext = as1.take(ad1 - bd1);
        if !bcast_fits(ext, bd.len() as int) {
            Err(ArrayError::TooLarge)
        } else {
            Ok((as1, ad, ext + bs1, bcast_data(ext, bd), ad1))
        }
    } else {
        Ok((as1, ad, bs1, bd, ad1))
    }
}

impl<T: ArrayElem> Array<T> {
    /// Align this array's leading dimensions with an integer array's, as
    /// depth-wise combination needs: clamp both depths to the ranks; where
    /// the depth prefixes disagree, drop leading length-1 axes from both
    /// sides; reject prefixes that still disagree; then broadcast the
    /// shallower operand up to the deeper one's depth by replicating it
    /// under the missing dimensions. Returns the common depth.
    #[verifier::rlimit(100)]
    pub fn align_depths(
        &mut self,
        a_depth: usize,
        b_shape: &mut Vec<usize>,
        b_data: &mut Vec<isize>,
        b_depth: usize,
    ) -> (r: Result<usize, ArrayError>)
        requires
            old(self).wf(),
            suffix_fits(old(b_shape)@),
            old(b_data)@.len() == prod(old(b_shape)@),
        ensures
            final(self).wf(),
            suffix_fits(final(b_shape)@),
            final(b_data)@.len() == prod(final(b_shape)@),
            match align_spec(
                old(self).shape@,
                old(self).data@,
                a_depth as int,
                old(b_shape)@,
                old(b_data)@,
                b_depth as int,
            ) {
                Ok((nas, nad, nbs, nbd, dep)) => r matches Ok(d) && d == dep && 0 <= dep
                    <= nas.len() && dep <= nbs.len() && final(self).shape@ == nas
                    && final(self).data@ == nad && final(b_shape)@ == nbs
                    && final(b_data)@ == nbd,
                Err(e) => r == Err::<usize, ArrayError>(e),
            },
            ({
                // On failure both operands keep their data, with only the
                // length-1 axes already stripped.
                let ad0 = min_depth(a_depth as int, old(self).shape@.len() as int);
                let bd0 = min_depth(b_depth as int, old(b_shape)@.len() as int);
                let (sa, sb) = strip_counts(old(self).shape@, ad0, old(b_shape)@, bd0);
                r is Err ==> final(self).shape@ == old(self).shape@.skip(sa)
                    && final(self).data@ == old(self).data@
                    && final(b_shape)@ == old(b_shape)@.skip(sb)
                    && final(b_data)@ == old(b_data)@
            }),
    {
        let ghost gas = self.shape@;
        let ghost gad = self.data@;
        let ghost gbs = b_shape@;
        let ghost gbd = b_data@;
        let mut ad0: usize = a_depth;
        if ad0 > self.shape.len() {
            ad0 = self.shape.len();
        }
        let mut bd0: usize = b_depth;
        if bd0 > b_shape.len() {
            bd0 = b_shape.len();
        }
        let m0 = if ad0 <= bd0 {
            ad0
        } else {
            bd0
        };
        // Where the prefixes disagree, drop leading length-1 axes.
        let mut sa: usize = 0;
        let mut sb: usize = 0;
        if !prefixes_agree(&self.shape, b_shape, m0) {
            sa = count_lead_ones(&self.shape, ad0);
            sb = count_lead_ones(b_shape, bd0);
            let mut i: usize = 0;
            while i < sa
                invariant
                    i <= sa,
                    sa <= gas.len(),
                    self.shape@ =~= gas.skip(i as int),
                    self.data@ == gad,
                decreases sa - i,
            {
                self.shape.remove(0);
                proof {
                    assert(gas.skip(i as int).remove(0) =~= gas.skip(i + 1));
                }
                i = i + 1;
            }
            let mut i: usize = 0;
            while i < sb
                invariant
                    i <= sb,
                    sb <= gbs.len(),
                    b_shape@ =~= gbs.skip(i as int),
                    b_data@ == gbd,
                decreases sb - i,
            {
                b_shape.remove(0);
                proof {
                    assert(gbs.skip(i as int).remove(0) =~= gbs.skip(i + 1));
                }
                i = i + 1;
            }
            proof {
                lemma_lead_ones_are_ones(gas, ad0 as int);
                lemma_prod_drop_ones(gas, sa as int);
                crate::shape::lemma_suffix_fits_skip(gas, sa as int);
                lemma_lead_ones_are_ones(gbs, bd0 as int);
                lemma_prod_drop_ones(gbs, sb as int);
                crate::shape::lemma_suffix_fits_skip(gbs, sb as int);
            }
        }
        proof {
            assert(gas.skip(0) =~= gas);
            assert(gbs.skip(0) =~= gbs);
            assert(self.shape@ == gas.skip(sa as int));
            assert(b_shape@ == gbs.skip(sb as int));
            assert(self.data@ == gad);
            assert(b_data@ == gbd);
        }
        let ad1 = ad0 - sa;
        let bd1 = bd0 - sb;
        let m1 = if ad1 <= bd1 {
            ad1
        } else {
            bd1
        };
        if !prefixes_agree(&self.shape, b_shape, m1) {
            return Err(ArrayError::PrefixMismatch);
        }
        if ad1 < bd1 {
            // Broadcast this array under the other's extra dimensions.
            let ghost ext = b_shape@.take(bd1 - ad1);
            let ghost base_s = self.shape@;
            let ghost base_d = self.data@;
            let alen = self.data.len();
            if !bcast_space(b_shape, bd1 - ad1, alen) {
                return Err(ArrayError::TooLarge);
            }
            let mut j: usize = bd1 - ad1;
            proof {
                assert(ext.skip(j as int) =~= Seq::<usize>::empty());
            }
            while j > 0
                invariant
                    j <= bd1 - ad1 <= b_shape@.len(),
                    ext == b_shape@.take((bd1 - ad1) as int),
                    self.wf(),
                    bcast_fits(ext, base_d.len() as int),
                    self.shape@ == ext.skip(j as int) + base_s,
                    self.data@ == bcast_data(ext.skip(j as int), base_d),
                    self.data@.len() == bcast_len(ext.skip(j as int), base_d.len() as int),
                decreases j,
            {
                j = j - 1;
                let c = b_shape[j];
                proof {
                    assert(ext.skip(j as int).skip(1) =~= ext.skip(j + 1));
                    assert(ext.skip(j as int)[0] == b_shape@[j as int]);
                    lemma_bcast_data_len(ext.skip(j + 1), base_d);
                    assert(bcast_len(ext.skip(j as int), base_d.len() as int) <= usize::MAX);
                }
                let ghost before_len = self.data@.len();
                self.reshape_scalar(c);
                proof {
                    assert(self.shape@ =~= ext.skip(j as int) + base_s);
                    assert(self.data@ == bcast_data(ext.skip(j as int), base_d));
                    lemma_repeat_seq_len(bcast_data(ext.skip(j + 1), base_d), c as int);
                }
            }
            proof {
                assert(ext.skip(0) =~= ext);
            }
            Ok(bd1)
        } else if ad1 > bd1 {
            // Broadcast the integer array under this one's extra dimensions.
            let ghost ext = self.shape@.take(ad1 - bd1);
            let ghost base_s = b_shape@;
            let ghost base_d = b_data@;
            let blen = b_data.len();
            if !bcast_space(&self.shape, ad1 - bd1, blen) {
                return Err(ArrayError::TooLarge);
            }
            let mut j: usize = ad1 - bd1;
            proof {
                assert(ext.skip(j as int) =~= Seq::<usize>::empty());
            }
            while j > 0
                invariant
                    j <= ad1 - bd1 <= self.shape@.len(),
                    ext == self.shape@.take((ad1 - bd1) as int),
                    suffix_fits(b_shape@),
                    bcast_fits(ext, base_d.len() as int),
                    b_shape@ == ext.skip(j as int) + base_s,
                    b_data@ == bcast_data(ext.skip(j as int), base_d),
                    b_data@.len() == prod(b_shape@),
                    b_data@.len() == bcast_len(ext.skip(j as int), base_d.len() as int),
                decreases j,
            {
                j = j - 1;
                let c = self.shape[j];
                proof {
                    assert(ext.skip(j as int).skip(1) =~= ext.skip(j + 1));
                    assert(ext.skip(j as int)[0] == self.shape@[j as int]);
                    lemma_bcast_data_len(ext.skip(j + 1), base_d);
                    assert(bcast_len(ext.skip(j as int), base_d.len() as int) <= usize::MAX);
                    crate::array::mul_le_mono(0, c as int, b_data@.len() as int);
                }
                let n = b_data.len();
                let ghost old_bs = b_shape@;
                let mut out: Vec<isize> = Vec::new();
                extend_repeat_range(&mut out, b_data, 0, n, c);
                proof {
                    assert(b_data@.subrange(0, n as int) =~= b_data@);
                    lemma_repeat_seq_len(b_data@, c as int);
                }
                *b_data = out;
                b_shape.insert(0, c);
                proof {
                    assert(b_shape@ =~= ext.skip(j as int) + base_s);
                    assert(b_data@ == bcast_data(ext.skip(j as int), base_d));
                    assert(c * prod(old_bs) <= usize::MAX);
                    crate::shape::lemma_suffix_fits_cons(c, old_bs);
                    assert(old_bs =~= ext.skip(j + 1) + base_s);
                    assert(seq![c as usize] + old_bs =~= b_shape@);
                }
            }
            proof {
                assert(ext.skip(0) =~= ext);
            }
            Ok(ad1)
        } else {
            Ok(ad1)
        }
    }
}

/// The counted leading axes really are length 1.
proof fn lemma_lead_ones_are_ones(s: Seq<usize>, cap: int)
    ensures
        lead_ones(s, cap) <= s.len(),
        lead_ones(s, cap) <= cap || lead_ones(s, cap) == 0,
        0 <= lead_ones(s, cap),
        forall|i: int| 0 <= i < lead_ones(s, cap) ==> s[i] == 1,
    decreases s.len(),
{
    if !(cap <= 0 || s.len() == 0 || s[0] != 1) {
        lemma_lead_ones_are_ones(s.skip(1), cap - 1);
        assert forall|i: int| 0 <= i < lead_ones(s, cap) implies s[i] == 1 by {
            if i > 0 {
                assert(s.skip(1)[i - 1] == s[i]);
            }
        }
    }
}

/// Decide whether two shapes agree on their first `k` axes.
fn prefixes_agree(a: &Vec<usize>, b: &Vec<usize>, k: usize) -> (r: bool)
    requires
        k <= a@.len(),
        k <= b@.len(),
    ensures
        r == prefix_eq(a@, b@, k as int),
{
    let mut i: usize = 0;
    while i < k
        invariant
            i <= k <= a@.len(),
            k <= b@.len(),
            forall|q: int| 0 <= q < i ==> a@[q] == #[trigger] b@[q],
        decreases k - i,
    {
        if a[i] != b[i] {
            return false;
        }
        i = i + 1;
    }
    true
}

/// Decide whether replicating a block of `l` cells under the first `k`
/// dimensions of `dims` stays addressable at every step.
fn bcast_space(dims: &Vec<usize>, k: usize, l: usize) -> (r: bool)
    requires
        k <= dims@.len(),
    ensures
        r == bcast_fits(dims@.take(k as int), l as int),
{
    let ghost ext = dims@.take(k as int);
    let mut acc: usize = l;
    let mut j: usize = k;
    proof {
        assert(ext.skip(j as int) =~= Seq::<usize>::empty());
    }
    while j > 0
        invariant
            j <= k <= dims@.len(),
            ext == dims@.take(k as int),
            acc == bcast_len(ext.skip(j as int), l as int),
            forall|q: int|
                j <= q <= ext.len() ==> bcast_len(#[trigger] ext.skip(q), l as int) <= usize::MAX,
        decreases j,
    {
        j = j - 1;
        proof {
            assert(ext.skip(j as int).skip(1) =~= ext.skip(j + 1));
            assert(ext.skip(j as int)[0] == dims@[j as int]);
        }
        match dims[j].checked_mul(acc) {
            Some(p) => {
                acc = p;
            },
            None => {
                proof {
                    assert(bcast_len(ext.skip(j as int), l as int) > usize::MAX);
                }
                return false;
            },
        }
    }
    proof {
        assert(ext.skip(0) =~= ext);
    }
    true
}

/// Count the leading length-1 axes, up to the depth.
fn count_lead_ones(s: &Vec<usize>, cap: usize) -> (r: usize)
    requires
        cap <= s@.len(),
    ensures
        r == lead_ones(s@, cap as int),
        r <= cap,
{
    let mut i: usize = 0;
    proof {
        assert(s@.skip(0) =~= s@);
    }
    while i < cap
        invariant
            i <= cap <= s@.len(),
            lead_ones(s@, cap as int) == i + lead_ones(s@.skip(i as int), cap - i),
            forall|q: int| 0 <= q < i ==> s@[q] == 1,
        decreases cap - i,
    {
        if s[i] != 1 {
            proof {
                assert(s@.skip(i as int)[0] == s@[i as int]);
                assert(lead_ones(s@.skip(i as int), cap - i) == 0);
            }
            return i;
        }
        proof {
            assert(s@.skip(i as int)[0] == 1);
            assert(s@.skip(i as int).skip(1) =~= s@.skip(i + 1));
        }
        i = i + 1;
    }
    proof {
        assert(lead_ones(s@.skip(cap as int), 0) == 0);
    }
    cap
}

} // verus!
// The depth-parametrized rotation: align, then rotate chunk by chunk.

verus! {

/// Chunks `i..n` of a depth-wise rotation, concatenated: chunk `i` of the
/// data rotated by chunk `i` of the offsets.
pub open spec fn rotd_cat<T>(
    rowshape: Seq<usize>,
    ad: Seq<T>,
    arl: int,
    bd: Seq<isize>,
    brl: int,
    n: int,
    i: int,
) -> Seq<T>
    decreases n - i,
{
    if !(0 <= i < n) {
        Seq::empty()
    } else {
        crate::rotate::rotate_spec(
            bd.subrange(i * brl, i * brl + brl),
            rowshape,
            ad.subrange(i * arl, i * arl + arl),
        ) + rotd_cat(rowshape, ad, arl, bd, brl, n, i + 1)
    }
}

/// The chunk count a buffer splits into: none when the chunks would be
/// empty.
pub open spec fn chunk_count(s: Seq<usize>, dep: int) -> int {
    if prod(s.skip(dep)) == 0 {
        0
    } else {
        prod(s.take(dep))
    }
}

/// The lesser of the two chunk counts.
pub open spec fn common_chunks(nas: Seq<usize>, nbs: Seq<usize>, dep: int) -> int {
    min_depth(chunk_count(nas, dep), chunk_count(nbs, dep))
}

/// Everything a depth-wise rotation promises of a returned array, the
/// failing input value being discarded.
pub open spec fn rotate_depth_post<T: ArrayElem>(
    s0: Seq<usize>,
    d0: Seq<T>,
    depth: int,
    bs: Seq<usize>,
    bd: Seq<isize>,
    by_depth: int,
    r: Result<Array<T>, ArrayError>,
) -> bool {
    match align_spec(s0, d0, depth, bs, bd, by_depth) {
        Err(e) => r == Err::<Array<T>, ArrayError>(e),
        Ok((nas, nad, nbs, nbd, dep)) => {
            if nbs.len() - dep > 1 {
                r == Err::<Array<T>, ArrayError>(
                    ArrayError::RotateByRank { rank: (nbs.len() - dep) as usize },
                )
            } else {
                let arl = prod(nas.skip(dep));
                let brl = prod(nbs.skip(dep));
                let n = common_chunks(nas, nbs, dep);
                r is Ok && r->Ok_0.wf() && r->Ok_0.shape@ == nas && r->Ok_0.data@ == rotd_cat(
                    nas.skip(dep),
                    nad,
                    arl,
                    nbd,
                    brl,
                    n,
                    0,
                ) + nad.skip(n * arl)
            }
        },
    }
}

impl<T: ArrayElem> Array<T> {
    /// Rotate at depth: align the two operands' leading dimensions, then
    /// rotate each cell of this array at the given depth by the matching
    /// cell of offsets. The offset cells must be rank 0 or 1.
    #[verifier::rlimit(80)]
    pub fn rotate_depth(
        &mut self,
        by_shape: &Vec<usize>,
        by_data: &Vec<isize>,
        depth: usize,
        by_depth: usize,
    ) -> (r: Result<(), ArrayError>)
        requires
            old(self).wf(),
            suffix_fits(by_shape@),
            by_data@.len() == prod(by_shape@),
        ensures
            final(self).wf(),
            match align_spec(
                old(self).shape@,
                old(self).data@,
                depth as int,
                by_shape@,
                by_data@,
                by_depth as int,
            ) {
                Err(e) => r == Err::<(), ArrayError>(e) && final(self).data@ == old(self).data@,
                Ok((nas, nad, nbs, nbd, dep)) => final(self).shape@ == nas && (if nbs.len() - dep
                    > 1 {
                    r == Err::<(), ArrayError>(
                        ArrayError::RotateByRank { rank: (nbs.len() - dep) as usize },
                    ) && final(self).data@ == nad
                } else {
                    let arl = prod(nas.skip(dep));
                    let brl = prod(nbs.skip(dep));
                    let n = common_chunks(nas, nbs, dep);
                    r is Ok && final(self).data@ == rotd_cat(
                        nas.skip(dep),
                        nad,
                        arl,
                        nbd,
                        brl,
                        n,
                        0,
                    ) + nad.skip(n * arl)
                }),
            },
    {
        let ghost spec_res = align_spec(
            self.shape@,
            self.data@,
            depth as int,
            by_shape@,
            by_data@,
            by_depth as int,
        );
        let mut bs: Vec<usize> = crate::array::copy_range(by_shape, 0, by_shape.len());
        let mut bd: Vec<isize> = crate::array::copy_range_isize(by_data, 0, by_data.len());
        proof {
            assert(bs@ =~= by_shape@);
            assert(bd@ =~= by_data@);
        }
        let dep = match self.align_depths(depth, &mut bs, &mut bd, by_depth) {
            Ok(d) => d,
            Err(e) => {
                return Err(e);
            },
        };
        let ghost nas = self.shape@;
        let ghost nad = self.data@;
        let ghost nbs = bs@;
        let ghost nbd = bd@;
        if bs.len() - dep > 1 {
            return Err(ArrayError::RotateByRank { rank: bs.len() - dep });
        }
        proof {
            crate::shape::lemma_suffix_fits_skip(nbs, dep as int);
            crate::shape::lemma_prod_split(nas, dep as int);
            crate::shape::lemma_prod_split(nbs, dep as int);
            crate::shape::lemma_prod_nonneg(nas.skip(dep as int));
            crate::shape::lemma_prod_nonneg(nbs.skip(dep as int));
            crate::shape::lemma_prod_nonneg(nas.take(dep as int));
            crate::shape::lemma_prod_nonneg(nbs.take(dep as int));
        }
        let arl = crate::shape::suffix_product(&self.shape, dep);
        let brl = crate::shape::suffix_product(&bs, dep);
        let alen = self.data.len();
        let blen = bd.len();
        // Chunk counts on both sides; the shorter side bounds the walk.
        let ca: usize = if arl == 0 {
            0
        } else {
            proof {
                vstd::arithmetic::div_mod::lemma_div_by_multiple(
                    prod(nas.take(dep as int)),
                    arl as int,
                );
            }
            alen / arl
        };
        let cb: usize = if brl == 0 {
            0
        } else {
            proof {
                vstd::arithmetic::div_mod::lemma_div_by_multiple(
                    prod(nbs.take(dep as int)),
                    brl as int,
                );
            }
            blen / brl
        };
        let n = if ca <= cb {
            ca
        } else {
            cb
        };
        proof {
            // The walked chunks stay inside both buffers.
            if arl == 0 {
                assert(n == 0);
                assert((n as int) * (arl as int) == 0) by (nonlinear_arith)
                    requires
                        n == 0,
                ;
            } else {
                assert(ca as int == prod(nas.take(dep as int)));
                crate::array::mul_le_mono(n as int, ca as int, arl as int);
            }
            if brl == 0 {
                assert(n == 0);
                assert((n as int) * (brl as int) == 0) by (nonlinear_arith)
                    requires
                        n == 0,
                ;
            } else {
                assert(cb as int == prod(nbs.take(dep as int)));
                crate::array::mul_le_mono(n as int, cb as int, brl as int);
            }
            if n == 0 {
                assert((n as int) * (arl as int) == 0) by (nonlinear_arith)
                    requires
                        n == 0,
                ;
                assert((n as int) * (brl as int) == 0) by (nonlinear_arith)
                    requires
                        n == 0,
                ;
            }
        }
        // Rotate the chunks that both sides cover; the rest stay put.
        let rowshape = crate::takedrop::row_shape_tail_from(&self.shape, dep);
        let mut out: Vec<T> = Vec::new();
        let mut i: usize = 0;
        while i < n
            invariant
                i <= n,
                self.wf(),
                nas == self.shape@,
                nad == self.data@,
                suffix_fits(nbs),
                n as int == common_chunks(nas, nbs, dep as int),
                dep <= nas.len(),
                dep <= nbs.len(),
                arl == prod(nas.skip(dep as int)),
                brl == prod(nbs.skip(dep as int)),
                nad.len() == prod(nas),
                nbd.len() == prod(nbs),
                nad.len() <= usize::MAX,
                nbd.len() <= usize::MAX,
                nbd == bd@,
                n * arl <= nad.len(),
                n * brl <= nbd.len(),
                rowshape@ == nas.skip(dep as int),
                out@.len() == i * arl,
                out@ + rotd_cat(
                    nas.skip(dep as int),
                    nad,
                    arl as int,
                    nbd,
                    brl as int,
                    n as int,
                    i as int,
                ) =~= rotd_cat(
                    nas.skip(dep as int),
                    nad,
                    arl as int,
                    nbd,
                    brl as int,
                    n as int,
                    0,
                ),
            decreases n - i,
        {
            proof {
                crate::array::mul_le_mono(i as int + 1, n as int, arl as int);
                assert((i + 1) * arl == i * arl + arl) by (nonlinear_arith);
                crate::array::mul_le_mono(0, i as int, arl as int);
                crate::array::mul_le_mono(i as int + 1, n as int, brl as int);
                assert((i + 1) * brl == i * brl + brl) by (nonlinear_arith);
                crate::array::mul_le_mono(0, i as int, brl as int);
                crate::shape::lemma_suffix_fits_skip(nas, dep as int);
            }
            let chunk = crate::array::copy_range(&self.data, i * arl, arl);
            let offsets = crate::array::copy_range_isize(&bd, i * brl, brl);
            proof {
                assert(rowshape@.skip(0) =~= rowshape@);
                assert(chunk@.len() == prod(rowshape@.skip(0)));
            }
            let rotated = crate::rotate::rotate_block(&offsets, 0, &rowshape, 0, &chunk);
            proof {
                assert(offsets@.skip(0) =~= offsets@);
                assert(rowshape@.skip(0) =~= rowshape@);
                assert(rotated@ == crate::rotate::rotate_spec(
                    nbd.subrange((i * brl) as int, (i * brl + brl) as int),
                    nas.skip(dep as int),
                    nad.subrange((i * arl) as int, (i * arl + arl) as int),
                ));
            }
            let rlen = rotated.len();
            crate::array::extend_range(&mut out, &rotated, 0, rlen);
            proof {
                assert(rotated@.subrange(0, rlen as int) =~= rotated@);
            }
            i = i + 1;
        }
        // The chunks past the walk keep their cells.
        proof {
            assert(rotd_cat(
                nas.skip(dep as int),
                nad,
                arl as int,
                nbd,
                brl as int,
                n as int,
                n as int,
            ) =~= Seq::<T>::empty());
            crate::array::mul_le_mono(n as int, n as int, arl as int);
        }
        crate::array::extend_range(&mut out, &self.data, n * arl, alen - n * arl);
        proof {
            assert(nad.subrange((n * arl) as int, alen as int) =~= nad.skip((n * arl) as int));
        }
        self.data = out;
        Ok(())
    }
}

} // verus!
