//! Reshape and rerank, with their inverses.

use vstd::prelude::*;

use crate::array::{extend_repeat, Array};
use crate::elem::ArrayElem;
use crate::error::ArrayError;
use crate::shape::{
    lemma_repeat_seq_len, lemma_suffix_fits_cons, prod, repeat_seq, suffix_fits, try_prod,
};
use vstd::arithmetic::div_mod::{
    lemma_basic_div, lemma_div_is_ordered, lemma_div_multiples_vanish_fancy, lemma_div_pos_is_pos,
    lemma_div_nonincreasing,
};

verus! {

/// How many negative (inferred) dimensions a reshape request names.
pub open spec fn neg_count(dims: Seq<isize>) -> int
    decreases dims.len(),
{
    if dims.len() == 0 {
        0
    } else {
        (if dims[0] < 0 {
            1int
        } else {
            0int
        }) + neg_count(dims.skip(1))
    }
}

/// Index of the first negative dimension in the request.
pub open spec fn first_neg(dims: Seq<isize>) -> int
    decreases dims.len(),
{
    if dims.len() == 0 {
        0
    } else if dims[0] < 0 {
        0
    } else {
        1 + first_neg(dims.skip(1))
    }
}

/// Product of the non-negative entries of the request: with exactly one
/// placeholder, the product of all the other dimensions.
pub open spec fn others_prod(dims: Seq<isize>) -> int
    decreases dims.len(),
{
    if dims.len() == 0 {
        1
    } else if dims[0] < 0 {
        others_prod(dims.skip(1))
    } else {
        dims[0] * others_prod(dims.skip(1))
    }
}

/// Ceiling division for non-negative `a` and positive `b`.
pub open spec fn cdiv(a: int, b: int) -> int {
    (a + b - 1) / b
}

/// The dimension derived for the placeholder: the quotient of the current
/// element count by the product of the named dimensions, rounded up when a
/// fill value can pad the data and down when the data must be repeated.
pub open spec fn derived_dim(total: int, others: int, has_fill: bool) -> int {
    if has_fill {
        cdiv(total, others)
    } else {
        total / others
    }
}

/// The target shape of a reshape request over an array of `total` elements.
pub open spec fn derived_shape(total: int, dims: Seq<isize>, has_fill: bool) -> Seq<usize> {
    if neg_count(dims) == 0 {
        Seq::new(dims.len(), |i: int| dims[i] as usize)
    } else {
        let p = first_neg(dims);
        let m = derived_dim(total, others_prod(dims), has_fill);
        Seq::new(dims.len(), |i: int| if i == p {
            m as usize
        } else {
            dims[i] as usize
        })
    }
}

/// Data reconciliation once the target shape is fixed: truncate a surplus;
/// pad a deficit with the fill value when one is available, and otherwise
/// repeat the existing data cyclically.
pub open spec fn reshape_data<T>(d: Seq<T>, target: int, fill: Option<T>) -> Seq<T> {
    if d.len() >= target {
        d.take(target)
    } else if fill is Some {
        d + Seq::new((target - d.len()) as nat, |i: int| fill->0)
    } else {
        Seq::new(target as nat, |k: int| d[k % (d.len() as int)])
    }
}

/// The complete meaning of `reshape`: the new shape and data on success, the
/// exact failure otherwise.
pub open spec fn reshape_spec<T>(d: Seq<T>, dims: Seq<isize>, fill: Option<T>) -> Result<
    (Seq<usize>, Seq<T>),
    ArrayError,
> {
    if neg_count(dims) >= 2 {
        Err(ArrayError::MultipleNegativeDims)
    } else if neg_count(dims) == 1 && others_prod(dims) == 0 {
        Err(ArrayError::ZeroDimWithPlaceholder)
    } else {
        let ns = derived_shape(d.len() as int, dims, fill is Some);
        if !suffix_fits(ns) {
            Err(ArrayError::TooLarge)
        } else if d.len() < prod(ns) && fill is None && d.len() == 0 {
            Err(ArrayError::EmptyReshapeNoFill)
        } else {
            Ok((ns, reshape_data(d, prod(ns), fill)))
        }
    }
}

/// A request whose only negative entry is at `p` has one placeholder, first
/// found at `p`.
proof fn lemma_one_neg(dims: Seq<isize>, p: int)
    requires
        0 <= p < dims.len(),
        dims[p] < 0,
        forall|j: int| 0 <= j < dims.len() && j != p ==> dims[j] >= 0,
    ensures
        neg_count(dims) == 1,
        first_neg(dims) == p,
    decreases dims.len(),
{
    if p == 0 {
        lemma_no_neg(dims.skip(1));
    } else {
        lemma_one_neg(dims.skip(1), p - 1);
    }
}

/// A request with no negative entry has no placeholder.
proof fn lemma_no_neg(dims: Seq<isize>)
    requires
        forall|j: int| 0 <= j < dims.len() ==> dims[j] >= 0,
    ensures
        neg_count(dims) == 0,
    decreases dims.len(),
{
    if dims.len() > 0 {
        lemma_no_neg(dims.skip(1));
    }
}

/// Two distinct negative entries mean at least two placeholders.
proof fn lemma_two_neg(dims: Seq<isize>, p: int, q: int)
    requires
        0 <= p < q < dims.len(),
        dims[p] < 0,
        dims[q] < 0,
    ensures
        neg_count(dims) >= 2,
    decreases dims.len(),
{
    if p == 0 {
        lemma_one_neg_ge(dims.skip(1), q - 1);
    } else {
        lemma_two_neg(dims.skip(1), p - 1, q - 1);
    }
}

proof fn lemma_one_neg_ge(dims: Seq<isize>, p: int)
    requires
        0 <= p < dims.len(),
        dims[p] < 0,
    ensures
        neg_count(dims) >= 1,
    decreases dims.len(),
{
    if p > 0 {
        lemma_one_neg_ge(dims.skip(1), p - 1);
    } else {
        lemma_neg_count_nonneg(dims.skip(1));
    }
}

proof fn lemma_neg_count_nonneg(dims: Seq<isize>)
    ensures
        neg_count(dims) >= 0,
    decreases dims.len(),
{
    if dims.len() > 0 {
        lemma_neg_count_nonneg(dims.skip(1));
    }
}

/// Bounds of the derived dimension: never more than the element count, and
/// exactly 0 (rounding down) or at most 1 (rounding up) when the named
/// dimensions already outnumber the elements.
proof fn lemma_derived_dim_bounds(total: int, others: int)
    requires
        total >= 0,
        others >= 1,
    ensures
        0 <= total / others <= total,
        0 <= cdiv(total, others) <= total,
        others > total ==> total / others == 0,
        others > total && total >= 1 ==> cdiv(total, others) == 1,
        total == 0 ==> cdiv(total, others) == 0,
{
    lemma_div_pos_is_pos(total, others);
    lemma_div_nonincreasing(total, others);
    lemma_div_pos_is_pos(total + others - 1, others);
    if total == 0 {
        lemma_basic_div(others - 1, others);
    } else {
        // cdiv(total, others) <= total: compare against (others * total + others - 1).
        assert(total <= others * total) by (nonlinear_arith)
            requires
                total >= 1,
                others >= 1,
        ;
        lemma_div_is_ordered(total + others - 1, others * total + others - 1, others);
        lemma_div_multiples_vanish_fancy(total, others - 1, others);
    }
    if others > total {
        lemma_basic_div(total, others);
        if total >= 1 {
            lemma_div_multiples_vanish_fancy(1, total - 1, others);
            assert(others * 1 + (total - 1) == total + others - 1);
        }
    }
}

impl<T: ArrayElem> Array<T> {
    /// `reshape` this array by replicating it as the rows of a new array.
    pub fn reshape_scalar(&mut self, count: usize)
        requires
            old(self).wf(),
            count * old(self).data@.len() <= usize::MAX,
        ensures
            final(self).wf(),
            final(self).shape@ == seq![count] + old(self).shape@,
            final(self).data@ == repeat_seq(old(self).data@, count as int),
    {
        let d0 = Ghost(self.data@);
        let len = self.data.len();
        let mut out: Vec<T> = Vec::new();
        let mut k: usize = 0;
        while k < count
            invariant
                k <= count,
                self.data@ == d0@,
                self == old(self),
                d0@.len() == len,
                count * len <= usize::MAX,
                out@ =~= repeat_seq(d0@, k as int),
                out@.len() == k * len,
            decreases count - k,
        {
            proof {
                crate::array::mul_le_mono(k as int + 1, count as int, len as int);
                assert((k + 1) * len == k * len + len) by (nonlinear_arith);
            }
            crate::array::extend_range(&mut out, &self.data, 0, len);
            proof {
                assert(self.data@.subrange(0, len as int) =~= d0@);
            }
            k = k + 1;
        }
        self.data = out;
        self.shape.insert(0, count);
        proof {
            assert(self.shape@ =~= seq![count] + old(self).shape@);
            lemma_repeat_seq_len(d0@, count as int);
            lemma_suffix_fits_cons(count, old(self).shape@);
        }
    }

    /// `reshape` the array to the dimensions of `dims`, at most one of which
    /// may be a negative placeholder.
    pub fn reshape(&mut self, dims: &Vec<isize>, fill: Option<T>) -> (r: Result<(), ArrayError>)
        requires
            old(self).wf(),
        ensures
            final(self).wf(),
            match reshape_spec(old(self).data@, dims@, fill) {
                Ok((ns, nd)) => r is Ok && final(self).shape@ == ns && final(self).data@ == nd,
                Err(e) => r == Err::<(), ArrayError>(e) && final(self).shape@ == old(self).shape@
                    && final(self).data@ == old(self).data@,
            },
    {
        let total = self.data.len();
        let ns = match derive_shape_dims(total, dims, fill.is_some()) {
            Ok(ns) => ns,
            Err(e) => {
                return Err(e);
            },
        };
        let target = match try_prod(&ns) {
            Some(t) => t,
            None => {
                return Err(ArrayError::TooLarge);
            },
        };
        if total < target {
            match fill {
                Some(f) => {
                    extend_repeat(&mut self.data, f, target - total);
                    proof {
                        assert(self.data@ =~= reshape_data(old(self).data@, target as int, fill));
                    }
                },
                None => {
                    if total == 0 {
                        return Err(ArrayError::EmptyReshapeNoFill);
                    }
                    let mut out: Vec<T> = Vec::new();
                    let mut k: usize = 0;
                    while k < target
                        invariant
                            k <= target,
                            total == self.data@.len(),
                            total > 0,
                            self == old(self),
                            out@ =~= Seq::new(k as nat, |j: int| self.data@[j % (total as int)]),
                        decreases target - k,
                    {
                        proof {
                            vstd::arithmetic::div_mod::lemma_mod_bound(k as int, total as int);
                        }
                        let x = self.data[k % total];
                        out.push(x);
                        k = k + 1;
                    }
                    self.data = out;
                    proof {
                        assert(self.data@ =~= reshape_data(old(self).data@, target as int, fill));
                    }
                },
            }
        } else {
            self.data.truncate(target);
            proof {
                assert(self.data@ =~= reshape_data(old(self).data@, target as int, fill));
            }
        }
        self.shape = ns;
        Ok(())
    }
}

/// Resolve a dimension request against an array of `total` elements: reject
/// multiple placeholders and derive the one placeholder if present.
fn derive_shape_dims(total: usize, dims: &Vec<isize>, has_fill: bool) -> (r: Result<
    Vec<usize>,
    ArrayError,
>)
    ensures
        match r {
            Ok(ns) => !(neg_count(dims@) >= 2) && !(neg_count(dims@) == 1 && others_prod(dims@)
                == 0) && ns@ == derived_shape(total as int, dims@, has_fill),
            Err(e) => {
                ||| (e == ArrayError::MultipleNegativeDims && neg_count(dims@) >= 2)
                ||| (e == ArrayError::ZeroDimWithPlaceholder && neg_count(dims@) == 1
                    && others_prod(dims@) == 0)
            },
        },
{
    // Locate the placeholder, if any, and reject a second one.
    let mut p_opt: Option<usize> = None;
    let mut i: usize = 0;
    while i < dims.len()
        invariant
            i <= dims@.len(),
            match p_opt {
                Some(p) => p < i && dims@[p as int] < 0 && forall|j: int|
                    0 <= j < i && j != p ==> dims@[j] >= 0,
                None => forall|j: int| 0 <= j < i ==> dims@[j] >= 0,
            },
        decreases dims@.len() - i,
    {
        if dims[i] < 0 {
            match p_opt {
                Some(p) => {
                    proof {
                        lemma_two_neg(dims@, p as int, i as int);
                    }
                    return Err(ArrayError::MultipleNegativeDims);
                },
                None => {
                    p_opt = Some(i);
                },
            }
        }
        i = i + 1;
    }
    match p_opt {
        None => {
            proof {
                lemma_no_neg(dims@);
            }
            // No placeholder: the request is the shape.
            let mut ns: Vec<usize> = Vec::new();
            let mut j: usize = 0;
            while j < dims.len()
                invariant
                    j <= dims@.len(),
                    forall|q: int| 0 <= q < dims@.len() ==> dims@[q] >= 0,
                    neg_count(dims@) == 0,
                    ns@ =~= derived_shape(total as int, dims@, has_fill).take(j as int),
                decreases dims@.len() - j,
            {
                ns.push(dims[j] as usize);
                j = j + 1;
            }
            proof {
                assert(ns@ =~= derived_shape(total as int, dims@, has_fill));
            }
            Ok(ns)
        },
        Some(p) => {
            proof {
                lemma_one_neg(dims@, p as int);
            }
            // One placeholder: take the product of the other dimensions.
            let mut acc_opt: Option<usize> = Some(1);
            let mut j: usize = dims.len();
            proof {
                assert(dims@.skip(j as int) =~= Seq::<isize>::empty());
            }
            while j > 0
                invariant
                    j <= dims@.len(),
                    p < dims@.len(),
                    dims@[p as int] < 0,
                    forall|q: int| 0 <= q < dims@.len() && q != p ==> dims@[q] >= 0,
                    neg_count(dims@) == 1,
                    first_neg(dims@) == p,
                    match acc_opt {
                        Some(a) => a == others_prod(dims@.skip(j as int)),
                        None => others_prod(dims@.skip(j as int)) > usize::MAX,
                    },
                decreases j,
            {
                j = j - 1;
                proof {
                    assert(dims@.skip(j as int).skip(1) =~= dims@.skip(j + 1));
                    lemma_others_prod_nonneg(dims@.skip(j + 1), dims@, p as int, j + 1);
                }
                if j != p {
                    let dj = dims[j];
                    let du = dj as usize;
                    proof {
                        assert(dims@[j as int] >= 0);
                        assert(du as int == dims@[j as int] as int);
                        assert(others_prod(dims@.skip(j as int)) == dims@[j as int] * others_prod(
                            dims@.skip(j + 1),
                        ));
                    }
                    match acc_opt {
                        Some(a) => {
                            acc_opt = du.checked_mul(a);
                        },
                        None => {
                            let rest = Ghost(others_prod(dims@.skip(j + 1)));
                            if du == 0 {
                                proof {
                                    assert(du * rest@ == 0) by (nonlinear_arith)
                                        requires
                                            du == 0,
                                    ;
                                }
                                acc_opt = Some(0);
                            } else {
                                proof {
                                    assert(du * rest@ >= rest@) by (nonlinear_arith)
                                        requires
                                            du >= 1,
                                            rest@ >= 0,
                                    ;
                                }
                                acc_opt = None;
                            }
                        },
                    }
                } else {
                    proof {
                        assert(others_prod(dims@.skip(j as int)) == others_prod(
                            dims@.skip(j + 1),
                        ));
                    }
                }
            }
            proof {
                assert(dims@.skip(0) =~= dims@);
            }
            let others_g = Ghost(others_prod(dims@));
            let m: usize = match acc_opt {
                Some(0) => {
                    return Err(ArrayError::ZeroDimWithPlaceholder);
                },
                Some(o) => {
                    proof {
                        lemma_derived_dim_bounds(total as int, o as int);
                    }
                    if has_fill {
                        let num = (total as u128) + (o as u128) - 1;
                        let q = num / (o as u128);
                        q as usize
                    } else {
                        total / o
                    }
                },
                None => {
                    // The named dimensions alone outnumber the elements, so
                    // the quotient is 0, or 1 when rounding up.
                    proof {
                        lemma_derived_dim_bounds(total as int, others_g@);
                    }
                    if has_fill && total > 0 {
                        1
                    } else {
                        0
                    }
                },
            };
            let mut ns: Vec<usize> = Vec::new();
            let mut j: usize = 0;
            while j < dims.len()
                invariant
                    j <= dims@.len(),
                    p < dims@.len(),
                    dims@[p as int] < 0,
                    forall|q: int| 0 <= q < dims@.len() && q != p ==> dims@[q] >= 0,
                    neg_count(dims@) == 1,
                    first_neg(dims@) == p,
                    m == derived_dim(total as int, others_prod(dims@), has_fill),
                    ns@ =~= derived_shape(total as int, dims@, has_fill).take(j as int),
                decreases dims@.len() - j,
            {
                if j == p {
                    ns.push(m);
                } else {
                    ns.push(dims[j] as usize);
                }
                j = j + 1;
            }
            proof {
                assert(ns@ =~= derived_shape(total as int, dims@, has_fill));
            }
            Ok(ns)
        },
    }
}

/// The product of the named dimensions of a suffix is non-negative when all
/// named dimensions are.
proof fn lemma_others_prod_nonneg(s: Seq<isize>, whole: Seq<isize>, p: int, from: int)
    requires
        0 <= from <= whole.len(),
        s == whole.skip(from),
        0 <= p < whole.len(),
        forall|q: int| 0 <= q < whole.len() && q != p ==> whole[q] >= 0,
    ensures
        others_prod(s) >= 0,
    decreases s.len(),
{
    if s.len() > 0 {
        assert(s.skip(1) =~= whole.skip(from + 1));
        lemma_others_prod_nonneg(s.skip(1), whole, p, from + 1);
        if s[0] >= 0 {
            assert(s[0] * others_prod(s.skip(1)) >= 0) by (nonlinear_arith)
                requires
                    s[0] >= 0,
                    others_prod(s.skip(1)) >= 0,
            ;
        }
    }
}

} // verus!
// The rerank family reinterprets the boundary between leading, to-be-merged
// dimensions and the rest; it never touches the data.

verus! {

/// A run of `k` ones, the dimensions prepended by a high rerank.
pub open spec fn ones(k: int) -> Seq<usize> {
    Seq::new(k as nat, |i: int| 1usize)
}

pub proof fn lemma_suffix_fits_ones(k: int, s: Seq<usize>)
    requires
        suffix_fits(s),
        k >= 0,
    ensures
        suffix_fits(ones(k) + s),
        prod(ones(k) + s) == prod(s),
    decreases k,
{
    if k == 0 {
        assert(ones(0) + s =~= s);
    } else {
        lemma_suffix_fits_ones(k - 1, s);
        crate::shape::lemma_prod_nonneg(ones(k - 1) + s);
        assert(s.skip(0) =~= s);
        assert(prod(s) <= usize::MAX);
        lemma_suffix_fits_cons(1, ones(k - 1) + s);
        assert(ones(k) + s =~= seq![1usize] + (ones(k - 1) + s));
    }
}

/// The shape a rerank produces, or the exact failure.
pub open spec fn rerank_spec(s: Seq<usize>, irank: int) -> Result<Seq<usize>, ArrayError> {
    if irank >= 0 {
        if irank >= s.len() {
            Ok(ones(irank + 1 - s.len()) + s)
        } else {
            merge_leading_spec(s, s.len() - irank)
        }
    } else {
        let m = -irank;
        if m > s.len() {
            Err(ArrayError::RerankTooNegative { magnitude: m as usize, rank: s.len() as usize })
        } else {
            merge_leading_spec(s, m)
        }
    }
}

/// Merge the first `mid` dimensions into one.
pub open spec fn merge_leading_spec(s: Seq<usize>, mid: int) -> Result<Seq<usize>, ArrayError> {
    let p = prod(s.take(mid));
    if p > usize::MAX {
        Err(ArrayError::TooLarge)
    } else {
        Ok(seq![p as usize] + s.skip(mid))
    }
}

/// The shape `unrerank` tries to restore: the leading dimensions that the
/// rerank merged, taken from the pre-rerank shape, joined with the current
/// trailing dimensions.
pub open spec fn unrerank_shape(s: Seq<usize>, o: Seq<usize>, irank: int) -> Seq<usize> {
    if irank >= 0 {
        let keep_o = if o.len() >= irank {
            o.len() - irank
        } else {
            0
        };
        let k0 = if irank + 1 >= o.len() {
            irank + 1 - o.len()
        } else {
            0
        };
        let k1 = if k0 >= 1 {
            k0
        } else {
            1
        };
        let k = if k1 > s.len() {
            s.len() as int
        } else {
            k1
        };
        o.take(keep_o) + s.skip(k)
    } else {
        let m = -irank;
        let t = if m > o.len() {
            o.len() as int
        } else {
            m
        };
        o.take(t) + s.skip(if s.len() == 0 {
            0
        } else {
            1
        })
    }
}

impl<T: ArrayElem> Array<T> {
    /// Merge the leading `mid` dimensions into a single one.
    fn merge_leading(&mut self, mid: usize) -> (r: Result<(), ArrayError>)
        requires
            old(self).wf(),
            1 <= mid <= old(self).shape@.len(),
        ensures
            final(self).wf(),
            final(self).data@ == old(self).data@,
            match merge_leading_spec(old(self).shape@, mid as int) {
                Ok(ns) => r is Ok && final(self).shape@ == ns,
                Err(e) => r == Err::<(), ArrayError>(e) && final(self).shape@ == old(self).shape@,
            },
    {
        proof {
            crate::shape::lemma_prod_split(self.shape@, mid as int);
            crate::shape::lemma_prod_nonneg(self.shape@.take(mid as int));
            crate::shape::lemma_prod_nonneg(self.shape@.skip(mid as int));
        }
        match crate::shape::try_prefix_prod(&self.shape, mid) {
            None => Err(ArrayError::TooLarge),
            Some(p) => {
                let mut ns: Vec<usize> = Vec::new();
                ns.push(p);
                let len = self.shape.len();
                assert(1 + (len - mid) <= usize::MAX);
                crate::array::extend_range(&mut ns, &self.shape, mid, len - mid);
                proof {
                    assert(self.shape@.subrange(mid as int, self.shape@.len() as int) =~= self
                        .shape@.skip(mid as int));
                    assert(ns@ =~= seq![p] + self.shape@.skip(mid as int));
                    assert(p * prod(self.shape@.skip(mid as int)) == prod(self.shape@))
                        by (nonlinear_arith)
                        requires
                            p == prod(self.shape@.take(mid as int)),
                            prod(self.shape@) == prod(self.shape@.take(mid as int)) * prod(
                                self.shape@.skip(mid as int),
                            ),
                    ;
                    assert(self.shape@.skip(0) =~= self.shape@);
                    assert(prod(self.shape@) <= usize::MAX);
                    crate::shape::lemma_suffix_fits_skip(self.shape@, mid as int);
                    lemma_suffix_fits_cons(p, self.shape@.skip(mid as int));
                }
                self.shape = ns;
                Ok(())
            },
        }
    }

    /// `rerank` the array: positive ranks keep that many trailing axes and
    /// merge or pad the front; negative ranks merge that many leading axes.
    pub fn rerank(&mut self, irank: isize) -> (r: Result<(), ArrayError>)
        requires
            old(self).wf(),
        ensures
            final(self).wf(),
            final(self).data@ == old(self).data@,
            match rerank_spec(old(self).shape@, irank as int) {
                Ok(ns) => r is Ok && final(self).shape@ == ns,
                Err(e) => r == Err::<(), ArrayError>(e) && final(self).shape@ == old(self).shape@,
            },
    {
        let rank = self.shape.len();
        if irank >= 0 {
            let ru = irank as usize;
            if ru >= rank {
                let extra = ru - rank + 1;
                let mut ns: Vec<usize> = Vec::new();
                let mut i: usize = 0;
                while i < extra
                    invariant
                        i <= extra,
                        ns@ =~= ones(i as int),
                    decreases extra - i,
                {
                    ns.push(1);
                    i = i + 1;
                }
                let len = self.shape.len();
                crate::array::extend_range(&mut ns, &self.shape, 0, len);
                proof {
                    assert(self.shape@.subrange(0, len as int) =~= self.shape@);
                    assert(ns@ =~= ones(extra as int) + self.shape@);
                    lemma_suffix_fits_ones(extra as int, self.shape@);
                }
                self.shape = ns;
                Ok(())
            } else {
                self.merge_leading(rank - ru)
            }
        } else {
            let m = crate::shape::abs_isize(irank);
            if m > rank {
                Err(ArrayError::RerankTooNegative { magnitude: m, rank })
            } else {
                self.merge_leading(m)
            }
        }
    }

    /// Undo a reshape: restore the shape the array had before, provided the
    /// element count still matches.
    pub fn unreshape(&mut self, orig: &Vec<usize>) -> (r: Result<(), ArrayError>)
        requires
            old(self).wf(),
        ensures
            final(self).wf(),
            final(self).data@ == old(self).data@,
            !suffix_fits(orig@) ==> r == Err::<(), ArrayError>(ArrayError::TooLarge)
                && final(self).shape@ == old(self).shape@,
            suffix_fits(orig@) && prod(orig@) != old(self).data@.len() ==> r == Err::<
                (),
                ArrayError,
            >(
                ArrayError::UnreshapeCountMismatch {
                    old_count: prod(orig@) as usize,
                    new_count: old(self).data@.len() as usize,
                },
            ) && final(self).shape@ == old(self).shape@,
            suffix_fits(orig@) && prod(orig@) == old(self).data@.len() ==> r is Ok
                && final(self).shape@ == orig@,
    {
        match crate::shape::try_prod(orig) {
            None => Err(ArrayError::TooLarge),
            Some(p) => {
                if p == self.data.len() {
                    let olen = orig.len();
                    let ns = crate::array::copy_range(orig, 0, olen);
                    proof {
                        assert(ns@ =~= orig@);
                    }
                    self.shape = ns;
                    Ok(())
                } else {
                    let n = self.data.len();
                    Err(ArrayError::UnreshapeCountMismatch { old_count: p, new_count: n })
                }
            },
        }
    }

    /// Undo a rerank: rebuild the pre-rerank leading dimensions. The undo
    /// fails when the restored shape no longer accounts for the element
    /// count: an ambiguous inverse is never silently resolved.
    pub fn unrerank(&mut self, irank: isize, orig: &Vec<usize>) -> (r: Result<(), ArrayError>)
        requires
            old(self).wf(),
        ensures
            final(self).wf(),
            final(self).data@ == old(self).data@,
            ({
                let ns = unrerank_shape(old(self).shape@, orig@, irank as int);
                if old(self).shape@.len() == 0 {
                    r is Ok && final(self).shape@ == old(self).shape@
                } else if ns.len() > usize::MAX || !suffix_fits(ns) {
                    r == Err::<(), ArrayError>(ArrayError::TooLarge) && final(self).shape@ == old(
                        self,
                    ).shape@
                } else if prod(ns) != old(self).data@.len() {
                    r == Err::<(), ArrayError>(
                        ArrayError::UnreshapeCountMismatch {
                            old_count: prod(ns) as usize,
                            new_count: old(self).data@.len() as usize,
                        },
                    ) && final(self).shape@ == old(self).shape@
                } else {
                    r is Ok && final(self).shape@ == ns
                }
            }),
    {
        let rank = self.shape.len();
        if rank == 0 {
            return Ok(());
        }
        let ghost ns_spec = unrerank_shape(self.shape@, orig@, irank as int);
        let mut ns: Vec<usize> = Vec::new();
        if irank >= 0 {
            let ru = irank as usize;
            let keep_o = if orig.len() >= ru {
                orig.len() - ru
            } else {
                0
            };
            let k0 = if ru >= orig.len() {
                ru - orig.len() + 1
            } else {
                0
            };
            let k1 = if k0 >= 1 {
                k0
            } else {
                1
            };
            let k = if k1 > rank {
                rank
            } else {
                k1
            };
            let len = self.shape.len();
            if keep_o > usize::MAX - (len - k) {
                proof {
                    assert(ns_spec.len() > usize::MAX);
                }
                return Err(ArrayError::TooLarge);
            }
            ns = crate::array::copy_range(orig, 0, keep_o);
            crate::array::extend_range(&mut ns, &self.shape, k, len - k);
            proof {
                assert(orig@.subrange(0, keep_o as int) =~= orig@.take(keep_o as int));
                assert(self.shape@.subrange(k as int, len as int) =~= self.shape@.skip(k as int));
                assert(ns@ =~= ns_spec);
            }
        } else {
            let m = crate::shape::abs_isize(irank);
            let t = if m > orig.len() {
                orig.len()
            } else {
                m
            };
            let len = self.shape.len();
            if t > usize::MAX - (len - 1) {
                proof {
                    assert(ns_spec.len() > usize::MAX);
                }
                return Err(ArrayError::TooLarge);
            }
            ns = crate::array::copy_range(orig, 0, t);
            crate::array::extend_range(&mut ns, &self.shape, 1, len - 1);
            proof {
                assert(orig@.subrange(0, t as int) =~= orig@.take(t as int));
                assert(self.shape@.subrange(1, len as int) =~= self.shape@.skip(1));
                assert(ns@ =~= ns_spec);
            }
        }
        match crate::shape::try_prod(&ns) {
            Some(p) => {
                let n = self.data.len();
                if p == n {
                    self.shape = ns;
                    Ok(())
                } else {
                    Err(ArrayError::UnreshapeCountMismatch { old_count: p, new_count: n })
                }
            },
            None => Err(ArrayError::TooLarge),
        }
    }
}

} // verus!
