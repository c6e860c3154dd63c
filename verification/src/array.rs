//! Dense multidimensional arrays: a shape paired with `product(shape)`
//! elements in row-major order.

use vstd::prelude::*;

use crate::elem::ArrayElem;
use crate::shape::{prod, suffix_fits, suffix_product, lemma_prod_nonneg, lemma_suffix_fits_skip,
    lemma_prod_singleton};

verus! {

/// Row `i` of a flat buffer whose rows are `rl` elements long.
pub open spec fn row_at<T>(d: Seq<T>, rl: int, i: int) -> Seq<T> {
    d.subrange(i * rl, i * rl + rl)
}

/// An array: shape (outermost dimension first) plus row-major data.
#[derive(Debug)]
pub struct Array<T> {
    pub shape: Vec<usize>,
    pub data: Vec<T>,
}

impl<T: ArrayElem> Array<T> {
    /// The validity invariant: the data length is exactly the shape's
    /// product, and every row length in sight is addressable.
    pub open spec fn wf(self) -> bool {
        &&& self.data@.len() == prod(self.shape@)
        &&& suffix_fits(self.shape@)
    }

    /// Number of axes.
    pub open spec fn rank_spec(self) -> int {
        self.shape@.len() as int
    }

    /// Rows on the leading axis; a scalar counts as one row.
    pub open spec fn row_count_spec(self) -> int {
        if self.shape@.len() == 0 {
            1
        } else {
            self.shape@[0] as int
        }
    }

    /// Elements per row: the product of all but the leading dimension.
    pub open spec fn row_len_spec(self) -> int {
        if self.shape@.len() == 0 {
            1
        } else {
            prod(self.shape@.skip(1))
        }
    }

    /// A scalar holding one element.
    pub fn scalar(x: T) -> (r: Array<T>)
        ensures
            r.wf(),
            r.shape@ =~= Seq::<usize>::empty(),
            r.data@ =~= seq![x],
    {
        let mut data: Vec<T> = Vec::new();
        data.push(x);
        let r = Array { shape: Vec::new(), data };
        proof {
            assert(r.shape@.skip(0) =~= Seq::<usize>::empty());
            assert forall|i: int| 0 <= i <= r.shape@.len() implies prod(
                #[trigger] r.shape@.skip(i),
            ) <= usize::MAX by {
                assert(r.shape@.skip(i) =~= Seq::<usize>::empty());
            }
        }
        r
    }

    /// A rank-1 array over the given elements.
    pub fn list(data: Vec<T>) -> (r: Array<T>)
        ensures
            r.wf(),
            r.shape@ =~= seq![data@.len() as usize],
            r.data@ == data@,
    {
        let mut shape: Vec<usize> = Vec::new();
        shape.push(data.len());
        let r = Array { shape, data };
        proof {
            lemma_prod_singleton(r.shape@);
            assert(prod(r.shape@) == r.data@.len());
            assert forall|i: int| 0 <= i <= r.shape@.len() implies prod(
                #[trigger] r.shape@.skip(i),
            ) <= usize::MAX by {
                if i == 0 {
                    assert(r.shape@.skip(0) =~= r.shape@);
                } else {
                    assert(r.shape@.skip(i) =~= Seq::<usize>::empty());
                }
            }
        }
        r
    }

    pub fn rank(&self) -> (r: usize)
        ensures
            r == self.rank_spec(),
    {
        self.shape.len()
    }

    pub fn row_count(&self) -> (r: usize)
        requires
            self.wf(),
        ensures
            r == self.row_count_spec(),
    {
        if self.shape.len() == 0 {
            1
        } else {
            self.shape[0]
        }
    }

    pub fn row_len(&self) -> (r: usize)
        requires
            self.wf(),
        ensures
            r == self.row_len_spec(),
    {
        if self.shape.len() == 0 {
            1
        } else {
            suffix_product(&self.shape, 1)
        }
    }

    pub fn element_count(&self) -> (r: usize)
        requires
            self.wf(),
        ensures
            r == self.data@.len(),
    {
        self.data.len()
    }

    /// The row count times the row length covers the whole buffer.
    pub proof fn lemma_rows_cover(self)
        requires
            self.wf(),
            self.rank_spec() > 0,
        ensures
            self.data@.len() == self.row_count_spec() * self.row_len_spec(),
            self.row_len_spec() >= 0,
    {
        assert(prod(self.shape@) == self.shape@[0] * prod(self.shape@.skip(1)));
        lemma_prod_nonneg(self.shape@.skip(1));
    }

    /// Copy row `i` out of the array.
    pub fn row(&self, i: usize) -> (r: Vec<T>)
        requires
            self.wf(),
            self.rank_spec() > 0,
            i < self.row_count_spec(),
        ensures
            r@ == row_at(self.data@, self.row_len_spec(), i as int),
            r@.len() == self.row_len_spec(),
    {
        proof {
            self.lemma_in_row_bound(i as int);
        }
        let total = self.data.len();
        let rl = self.row_len();
        copy_range(&self.data, i * rl, rl)
    }

    /// Row `i` lies inside the buffer.
    pub proof fn lemma_in_row_bound(self, i: int)
        requires
            self.wf(),
            self.rank_spec() > 0,
            0 <= i < self.row_count_spec(),
        ensures
            i * self.row_len_spec() + self.row_len_spec() <= self.data@.len(),
            i * self.row_len_spec() >= 0,
            self.row_len_spec() >= 0,
    {
        self.lemma_rows_cover();
        let rc = self.row_count_spec();
        let rl = self.row_len_spec();
        mul_le_mono(i, rc - 1, rl);
        assert((rc - 1) * rl + rl == rc * rl) by (nonlinear_arith);
        mul_le_mono(0, i, rl);
    }

    /// Reinterpret row `i` as an array of the row shape.
    pub fn row_array(&self, i: usize) -> (r: Array<T>)
        requires
            self.wf(),
            self.rank_spec() > 0,
            i < self.row_count_spec(),
        ensures
            r.wf(),
            r.shape@ == self.shape@.skip(1),
            r.data@ == row_at(self.data@, self.row_len_spec(), i as int),
    {
        let data = self.row(i);
        let mut shape: Vec<usize> = Vec::new();
        let mut j: usize = 1;
        while j < self.shape.len()
            invariant
                1 <= j <= self.shape@.len() || (self.shape@.len() == 0 && j == 1),
                shape@ =~= self.shape@.subrange(1, j as int),
            decreases self.shape@.len() - j,
        {
            shape.push(self.shape[j]);
            j = j + 1;
        }
        proof {
            assert(shape@ =~= self.shape@.skip(1));
            lemma_suffix_fits_skip(self.shape@, 1);
        }
        Array { shape, data }
    }
}

/// Multiplying both sides of `a <= b` by a non-negative `c` is monotone.
pub proof fn mul_le_mono(a: int, b: int, c: int)
    requires
        a <= b,
        c >= 0,
    ensures
        a * c <= b * c,
{
    assert(a * c <= b * c) by (nonlinear_arith)
        requires
            a <= b,
            c >= 0,
    ;
}

/// Copy `src[start..start + n]` into a fresh vector.
pub fn copy_range<T: Copy>(src: &Vec<T>, start: usize, n: usize) -> (r: Vec<T>)
    requires
        start + n <= src@.len(),
    ensures
        r@ == src@.subrange(start as int, start as int + n as int),
{
    let total = src.len();
    let mut r: Vec<T> = Vec::new();
    let mut j: usize = 0;
    while j < n
        invariant
            j <= n,
            start + n <= src@.len(),
            src@.len() <= usize::MAX,
            r@ =~= src@.subrange(start as int, start as int + j as int),
        decreases n - j,
    {
        r.push(src[start + j]);
        j = j + 1;
    }
    r
}

/// Append `src[start..start + n]` to `dst`.
pub fn extend_range<T: Copy>(dst: &mut Vec<T>, src: &Vec<T>, start: usize, n: usize)
    requires
        start + n <= src@.len(),
        old(dst)@.len() + n <= usize::MAX,
    ensures
        final(dst)@ == old(dst)@ + src@.subrange(start as int, start as int + n as int),
{
    let total = src.len();
    let mut j: usize = 0;
    while j < n
        invariant
            j <= n,
            start + n <= src@.len(),
            src@.len() <= usize::MAX,
            dst@.len() == old(dst)@.len() + j,
            dst@ =~= old(dst)@ + src@.subrange(start as int, start as int + j as int),
        decreases n - j,
    {
        let x = src[start + j];
        dst.push(x);
        j = j + 1;
    }
}

/// Append `times` copies of `src[start..start + rl]` to `dst`.
pub fn extend_repeat_range<T: Copy>(
    dst: &mut Vec<T>,
    src: &Vec<T>,
    start: usize,
    rl: usize,
    times: usize,
)
    requires
        start + rl <= src@.len(),
        old(dst)@.len() + times * rl <= usize::MAX,
    ensures
        final(dst)@ == old(dst)@ + crate::shape::repeat_seq(
            src@.subrange(start as int, start as int + rl as int),
            times as int,
        ),
{
    let ghost row = src@.subrange(start as int, start as int + rl as int);
    let mut k: usize = 0;
    while k < times
        invariant
            k <= times,
            start + rl <= src@.len(),
            old(dst)@.len() + times * rl <= usize::MAX,
            row == src@.subrange(start as int, start as int + rl as int),
            dst@.len() == old(dst)@.len() + k * rl,
            dst@ =~= old(dst)@ + crate::shape::repeat_seq(row, k as int),
        decreases times - k,
    {
        proof {
            mul_le_mono(k as int + 1, times as int, rl as int);
            assert((k + 1) * rl == k * rl + rl) by (nonlinear_arith);
        }
        extend_range(dst, src, start, rl);
        k = k + 1;
    }
}

/// Append `n` copies of `x` to `dst`.
pub fn extend_repeat<T: Copy>(dst: &mut Vec<T>, x: T, n: usize)
    requires
        old(dst)@.len() + n <= usize::MAX,
    ensures
        final(dst)@ == old(dst)@ + Seq::new(n as nat, |i: int| x),
{
    let mut j: usize = 0;
    while j < n
        invariant
            j <= n,
            dst@.len() == old(dst)@.len() + j,
            dst@ =~= old(dst)@ + Seq::new(j as nat, |i: int| x),
        decreases n - j,
    {
        dst.push(x);
        j = j + 1;
    }
}

} // verus!
verus! {

/// Decide whether two shapes agree from the given axes on.
pub fn tails_equal(a: &Vec<usize>, b: &Vec<usize>, ai: usize, bi: usize) -> (r: bool)
    requires
        ai <= a@.len(),
        bi <= b@.len(),
    ensures
        r == (a@.skip(ai as int) == b@.skip(bi as int)),
{
    let alen = a.len();
    let blen = b.len();
    if alen - ai != blen - bi {
        proof {
            assert(a@.skip(ai as int).len() != b@.skip(bi as int).len());
        }
        return false;
    }
    let n = alen - ai;
    let mut k: usize = 0;
    while k < n
        invariant
            k <= n,
            ai + n <= a@.len(),
            bi + n <= b@.len(),
            a@.len() <= usize::MAX,
            b@.len() <= usize::MAX,
            n == a@.len() - ai == b@.len() - bi,
            forall|q: int| 0 <= q < k ==> #[trigger] a@[ai + q] == b@[bi + q],
        decreases n - k,
    {
        if a[ai + k] != b[bi + k] {
            proof {
                assert(a@.skip(ai as int)[k as int] != b@.skip(bi as int)[k as int]);
            }
            return false;
        }
        k = k + 1;
    }
    proof {
        assert forall|q: int| 0 <= q < n implies a@.skip(ai as int)[q] == b@.skip(bi as int)[q] by {
            assert(a@[ai + q] == b@[bi + q]);
        }
        assert(a@.skip(ai as int) =~= b@.skip(bi as int));
    }
    true
}

} // verus!
verus! {

/// Copy `src[start..start + n]` of a signed-index vector into a fresh one.
pub fn copy_range_isize(src: &Vec<isize>, start: usize, n: usize) -> (r: Vec<isize>)
    requires
        start + n <= src@.len(),
    ensures
        r@ == src@.subrange(start as int, start as int + n as int),
{
    let total = src.len();
    let mut r: Vec<isize> = Vec::new();
    let mut j: usize = 0;
    while j < n
        invariant
            j <= n,
            start + n <= src@.len(),
            src@.len() <= usize::MAX,
            r@ =~= src@.subrange(start as int, start as int + j as int),
        decreases n - j,
    {
        r.push(src[start + j]);
        j = j + 1;
    }
    r
}

} // verus!
