//! Point indexing and row gathering: `pick` and `select`, with their
//! inverses further below.

use vstd::prelude::*;

use crate::array::{copy_range, extend_range, extend_repeat, row_at, Array};
use crate::elem::ArrayElem;
use crate::error::ArrayError;
use crate::shape::{prod, suffix_fits, suffix_product, try_prod, lemma_prod_nonneg, lemma_suffix_fits_skip};

verus! {

/// A run of `n` fill values.
pub open spec fn fill_rep<T>(fill: Option<T>, n: int) -> Seq<T> {
    Seq::new(n as nat, |i: int| fill->0)
}

/// Point indexing: each component of `index` resolves into the matching
/// leading axis (negative components count from the end); the result is the
/// cell block that remains. An out-of-range component selects an all-fill
/// block when a fill value is in scope and fails otherwise, naming the
/// offending axis, index and bound.
pub open spec fn pick_single_res<T>(
    index: Seq<isize>,
    s: Seq<usize>,
    d: Seq<T>,
    fill: Option<T>,
    axis: int,
) -> Result<Seq<T>, ArrayError>
    decreases index.len(),
{
    if index.len() == 0 {
        Ok(d)
    } else {
        let rc = s[0] as int;
        let rl = prod(s.skip(1));
        let i = index[0] as int;
        let j: int = if i >= 0 {
            i
        } else {
            rc + i
        };
        if 0 <= j < rc {
            pick_single_res(index.skip(1), s.skip(1), row_at(d, rl, j), fill, axis + 1)
        } else if fill is Some {
            pick_single_res(index.skip(1), s.skip(1), fill_rep(fill, rl), fill, axis + 1)
        } else {
            Err(
                ArrayError::OutOfBounds {
                    index: index[0],
                    len: s[0],
                    axis: axis as usize,
                },
            )
        }
    }
}

/// Batched point picks: a rank-2-or-higher index array makes one pick per
/// index row and stacks the results.
pub open spec fn pick_res<T>(
    idx_shape: Seq<usize>,
    idx: Seq<isize>,
    s: Seq<usize>,
    d: Seq<T>,
    fill: Option<T>,
) -> Result<Seq<T>, ArrayError>
    decreases idx_shape.len(), idx_shape[0] + 2, 1int,
{
    if idx_shape.len() <= 1 {
        pick_single_res(idx, s, d, fill, 0)
    } else {
        pick_cat(idx_shape, idx, s, d, fill, 0)
    }
}

/// The picks for index rows `i..`, concatenated; the first failure wins.
pub open spec fn pick_cat<T>(
    idx_shape: Seq<usize>,
    idx: Seq<isize>,
    s: Seq<usize>,
    d: Seq<T>,
    fill: Option<T>,
    i: int,
) -> Result<Seq<T>, ArrayError>
    decreases idx_shape.len(), idx_shape[0] + 1 - i, 0int,
{
    if idx_shape.len() == 0 || !(0 <= i < idx_shape[0]) {
        Ok(Seq::empty())
    } else {
        let irl = prod(idx_shape.skip(1));
        match pick_res(idx_shape.skip(1), idx.subrange(i * irl, i * irl + irl), s, d, fill) {
            Err(e) => Err(e),
            Ok(head) => match pick_cat(idx_shape, idx, s, d, fill, i + 1) {
                Err(e) => Err(e),
                Ok(tail) => Ok(head + tail),
            },
        }
    }
}

/// The shape of a pick's result: the index array's leading dimensions, then
/// whatever the point pick leaves of the picked array.
pub open spec fn pick_shape(idx_shape: Seq<usize>, s: Seq<usize>) -> Seq<usize> {
    if idx_shape.len() <= 1 {
        let k: int = if idx_shape.len() == 0 {
            1
        } else {
            idx_shape[0] as int
        };
        s.skip(k)
    } else {
        idx_shape.take(idx_shape.len() - 1) + s.skip(idx_shape[idx_shape.len() - 1] as int)
    }
}

/// Row gathering: row `k` of the result is row `indices[k]` of the array
/// (negative indices count from the end); an out-of-range index selects a
/// fill row when a fill value is in scope and fails otherwise.
pub open spec fn select_res<T>(
    indices: Seq<isize>,
    rc: int,
    rl: int,
    d: Seq<T>,
    fill: Option<T>,
    k: int,
) -> Result<Seq<T>, ArrayError>
    decreases indices.len() - k,
{
    if !(0 <= k < indices.len()) {
        Ok(Seq::empty())
    } else {
        let i = indices[k] as int;
        let j: int = if i >= 0 {
            i
        } else {
            rc + i
        };
        let head: Result<Seq<T>, ArrayError> = if 0 <= j < rc {
            Ok(row_at(d, rl, j))
        } else if fill is Some {
            Ok(fill_rep(fill, rl))
        } else {
            Err(ArrayError::OutOfBounds { index: indices[k], len: rc as usize, axis: 0 })
        };
        match head {
            Err(e) => Err(e),
            Ok(h) => match select_res(indices, rc, rl, d, fill, k + 1) {
                Err(e) => Err(e),
                Ok(tail) => Ok(h + tail),
            },
        }
    }
}

impl<T: ArrayElem> Array<T> {
    /// Pick with a flat (rank at most 1) index list.
    pub fn pick_single(&self, index: &Vec<isize>, fill: Option<T>) -> (r: Result<
        Array<T>,
        ArrayError,
    >)
        requires
            self.wf(),
        ensures
            index@.len() > self.shape@.len() ==> r == Err::<Array<T>, ArrayError>(
                ArrayError::IndexRank {
                    rank: self.shape@.len() as usize,
                    index_len: index@.len() as usize,
                },
            ),
            index@.len() <= self.shape@.len() ==> match pick_single_res(
                index@,
                self.shape@,
                self.data@,
                fill,
                0,
            ) {
                Ok(nd) => r is Ok && r->Ok_0.wf() && r->Ok_0.shape@ == self.shape@.skip(
                    index@.len() as int,
                ) && r->Ok_0.data@ == nd,
                Err(e) => r == Err::<Array<T>, ArrayError>(e),
            },
    {
        if index.len() > self.shape.len() {
            return Err(
                ArrayError::IndexRank { rank: self.shape.len(), index_len: index.len() },
            );
        }
        let mut cur: Vec<T> = {
            let n = self.data.len();
            copy_range(&self.data, 0, n)
        };
        proof {
            assert(cur@ =~= self.data@);
            assert(self.shape@.skip(0) =~= self.shape@);
            assert(index@.skip(0) =~= index@);
        }
        let mut a: usize = 0;
        let ghost whole = pick_single_res(index@, self.shape@, self.data@, fill, 0);
        while a < index.len()
            invariant
                a <= index@.len() <= self.shape@.len() <= usize::MAX,
                suffix_fits(self.shape@),
                cur@.len() == prod(self.shape@.skip(a as int)),
                whole == pick_single_res(index@, self.shape@, self.data@, fill, 0),
                pick_single_res(
                    index@.skip(a as int),
                    self.shape@.skip(a as int),
                    cur@,
                    fill,
                    a as int,
                ) == whole,
            decreases index@.len() - a,
        {
            let ghost gs = self.shape@.skip(a as int);
            let ghost gidx = index@.skip(a as int);
            proof {
                assert(gs.skip(1) =~= self.shape@.skip(a + 1));
                assert(gidx.skip(1) =~= index@.skip(a + 1));
                assert(prod(gs) == gs[0] * prod(gs.skip(1)));
                lemma_prod_nonneg(gs.skip(1));
                lemma_suffix_fits_skip(self.shape@, a + 1);
                assert(self.shape@.skip(a + 1).skip(0) =~= self.shape@.skip(a + 1));
            }
            let sa = self.shape[a];
            let rl = suffix_product(&self.shape, a + 1);
            let i = index[a];
            // Resolve the component, negative values counting from the end.
            let jopt: Option<usize> = if i >= 0 {
                if (i as usize) < sa {
                    Some(i as usize)
                } else {
                    None
                }
            } else {
                let m = crate::shape::abs_isize(i);
                if m <= sa {
                    Some(sa - m)
                } else {
                    None
                }
            };
            match jopt {
                Some(j) => {
                    proof {
                        crate::array::mul_le_mono(j as int, sa as int - 1, rl as int);
                        assert((sa - 1) * rl + rl == sa * rl) by (nonlinear_arith);
                        crate::array::mul_le_mono(0, j as int, rl as int);
                    }
                    let next = copy_range(&cur, j * rl, rl);
                    proof {
                        assert(next@ == row_at(cur@, rl as int, j as int));
                    }
                    cur = next;
                },
                None => {
                    match fill {
                        Some(f) => {
                            let mut next: Vec<T> = Vec::new();
                            extend_repeat(&mut next, f, rl);
                            proof {
                                assert(next@ =~= fill_rep(fill, rl as int));
                            }
                            cur = next;
                        },
                        None => {
                            return Err(
                                ArrayError::OutOfBounds { index: i, len: sa, axis: a },
                            );
                        },
                    }
                },
            }
            a = a + 1;
        }
        let mut shape: Vec<usize> = Vec::new();
        let ilen = index.len();
        let slen = self.shape.len();
        extend_range(&mut shape, &self.shape, ilen, slen - ilen);
        proof {
            assert(shape@ =~= self.shape@.skip(ilen as int));
            lemma_suffix_fits_skip(self.shape@, ilen as int);
            assert(index@.skip(ilen as int) =~= Seq::<isize>::empty());
        }
        Ok(Array { shape, data: cur })
    }
}

} // verus!
// Batched picks and row gathering.

verus! {

/// A successful point pick yields the trailing cell block.
pub proof fn lemma_pick_single_len<T>(
    index: Seq<isize>,
    s: Seq<usize>,
    d: Seq<T>,
    fill: Option<T>,
    axis: int,
)
    requires
        index.len() <= s.len(),
        d.len() == prod(s),
    ensures
        pick_single_res(index, s, d, fill, axis) matches Ok(nd) ==> nd.len() == prod(
            s.skip(index.len() as int),
        ),
    decreases index.len(),
{
    if index.len() == 0 {
        assert(s.skip(0) =~= s);
    } else {
        let rc = s[0] as int;
        let rl = prod(s.skip(1));
        lemma_prod_nonneg(s.skip(1));
        assert(prod(s) == s[0] * prod(s.skip(1)));
        let i = index[0] as int;
        let j: int = if i >= 0 {
            i
        } else {
            rc + i
        };
        assert(s.skip(1).skip(index.len() - 1) =~= s.skip(index.len() as int));
        if 0 <= j < rc {
            crate::array::mul_le_mono(j, rc - 1, rl);
            assert((rc - 1) * rl + rl == rc * rl) by (nonlinear_arith);
            crate::array::mul_le_mono(0, j, rl);
            assert(row_at(d, rl, j).len() == rl);
            lemma_pick_single_len(index.skip(1), s.skip(1), row_at(d, rl, j), fill, axis + 1);
        } else if fill is Some {
            lemma_pick_single_len(index.skip(1), s.skip(1), fill_rep(fill, rl), fill, axis + 1);
        }
    }
}

/// A successful batched pick yields one cell block per index row.
pub proof fn lemma_pick_cat_len<T>(
    idx_shape: Seq<usize>,
    idx: Seq<isize>,
    s: Seq<usize>,
    d: Seq<T>,
    fill: Option<T>,
    i: int,
)
    requires
        idx_shape.len() >= 2,
        idx_shape[idx_shape.len() - 1] <= s.len(),
        d.len() == prod(s),
        idx.len() == prod(idx_shape),
        0 <= i,
    ensures
        pick_cat(idx_shape, idx, s, d, fill, i) matches Ok(nd) ==> nd.len() == (if i
            <= idx_shape[0] {
            (idx_shape[0] - i) * prod(idx_shape.skip(1).take(idx_shape.len() - 2)) * prod(
                s.skip(idx_shape[idx_shape.len() - 1] as int),
            )
        } else {
            0
        }),
    decreases idx_shape.len(), idx_shape[0] + 1 - i, 0int,
{
    let rc = idx_shape[0] as int;
    let n = idx_shape.len() as int;
    let block = prod(s.skip(idx_shape[n - 1] as int));
    let inner = prod(idx_shape.skip(1).take(n - 2));
    lemma_prod_nonneg(idx_shape.skip(1).take(n - 2));
    lemma_prod_nonneg(s.skip(idx_shape[n - 1] as int));
    if i >= rc {
        if i == rc {
            assert((rc - i) * inner * block == 0) by (nonlinear_arith)
                requires
                    rc == i,
            ;
        }
    } else {
        let irl = prod(idx_shape.skip(1));
        let chunk = idx.subrange(i * irl, i * irl + irl);
        lemma_prod_nonneg(idx_shape.skip(1));
        assert(prod(idx_shape) == rc * irl);
        crate::array::mul_le_mono(i, rc - 1, irl);
        assert((rc - 1) * irl + irl == rc * irl) by (nonlinear_arith);
        crate::array::mul_le_mono(0, i, irl);
        assert(chunk.len() == irl);
        lemma_pick_cat_len(idx_shape, idx, s, d, fill, i + 1);
        if idx_shape.skip(1).len() <= 1 {
            // The sub-pick is a single point pick of `idx_shape[1]` components.
            assert(idx_shape.skip(1)[0] == idx_shape[1]);
            assert(idx_shape[n - 1] == idx_shape[1]);
            crate::shape::lemma_prod_singleton(idx_shape.skip(1));
            assert(chunk.len() == idx_shape[1]);
            lemma_pick_single_len(chunk, s, d, fill, 0);
            match pick_res(idx_shape.skip(1), chunk, s, d, fill) {
                Ok(head) => {
                    assert(inner == 1) by {
                        assert(idx_shape.skip(1).take(n - 2) =~= Seq::<usize>::empty());
                    }
                    match pick_cat(idx_shape, idx, s, d, fill, i + 1) {
                        Ok(tail) => {
                            assert((rc - i) * inner * block == inner * block + (rc - i - 1) * inner
                                * block) by (nonlinear_arith);
                        },
                        Err(_) => {},
                    }
                },
                Err(_) => {},
            }
        } else {
            assert(chunk.len() == prod(idx_shape.skip(1)));
            lemma_pick_cat_len(idx_shape.skip(1), chunk, s, d, fill, 0);
            let n1 = idx_shape.skip(1).len() as int;
            assert(idx_shape.skip(1)[n1 - 1] == idx_shape[n - 1]);
            match pick_res(idx_shape.skip(1), chunk, s, d, fill) {
                Ok(head) => {
                    let inner1 = prod(idx_shape.skip(1).skip(1).take(n1 - 2));
                    assert(idx_shape.skip(1).skip(1) =~= idx_shape.skip(2));
                    assert(head.len() == idx_shape[1] * inner1 * block || head.len() == 0 && !(0
                        <= idx_shape.skip(1)[0]));
                    assert(inner == idx_shape[1] * inner1) by {
                        assert(idx_shape.skip(1).take(n - 2)[0] == idx_shape[1]);
                        assert(idx_shape.skip(1).take(n - 2).skip(1) =~= idx_shape.skip(2).take(
                            n1 - 2,
                        ));
                    }
                    match pick_cat(idx_shape, idx, s, d, fill, i + 1) {
                        Ok(tail) => {
                            assert(idx_shape[1] * inner1 * block + (rc - i - 1) * (idx_shape[1]
                                * inner1) * block == (rc - i) * (idx_shape[1] * inner1) * block)
                                by (nonlinear_arith);
                        },
                        Err(_) => {},
                    }
                },
                Err(_) => {},
            }
        }
    }
}

} // verus!
// Executable batched pick.

verus! {

/// Concatenating shapes multiplies their products.
pub proof fn lemma_prod_concat(a: Seq<usize>, b: Seq<usize>)
    ensures
        prod(a + b) == prod(a) * prod(b),
{
    crate::shape::lemma_prod_split(a + b, a.len() as int);
    assert((a + b).take(a.len() as int) =~= a);
    assert((a + b).skip(a.len() as int) =~= b);
}

/// A successful pick yields one cell block per point of the index array's
/// leading dimensions.
pub proof fn lemma_pick_res_len<T>(
    idx_shape: Seq<usize>,
    idx: Seq<isize>,
    s: Seq<usize>,
    d: Seq<T>,
    fill: Option<T>,
)
    requires
        idx_shape.len() >= 1,
        idx.len() == prod(idx_shape),
        idx_shape[idx_shape.len() - 1] <= s.len(),
        d.len() == prod(s),
    ensures
        pick_res(idx_shape, idx, s, d, fill) matches Ok(nd) ==> nd.len() == prod(
            idx_shape.take(idx_shape.len() - 1),
        ) * prod(s.skip(idx_shape[idx_shape.len() - 1] as int)),
{
    let n = idx_shape.len() as int;
    if n == 1 {
        crate::shape::lemma_prod_singleton(idx_shape);
        lemma_pick_single_len(idx, s, d, fill, 0);
        assert(idx_shape.take(0) =~= Seq::<usize>::empty());
    } else {
        lemma_pick_cat_len(idx_shape, idx, s, d, fill, 0);
        let rc = idx_shape[0] as int;
        let inner = prod(idx_shape.skip(1).take(n - 2));
        let block = prod(s.skip(idx_shape[n - 1] as int));
        assert(prod(idx_shape.take(n - 1)) == rc * inner) by {
            assert(idx_shape.take(n - 1)[0] == idx_shape[0]);
            assert(idx_shape.take(n - 1).skip(1) =~= idx_shape.skip(1).take(n - 2));
        }
        assert((rc - 0) * inner * block == (rc * inner) * block) by (nonlinear_arith);
    }
}

/// Gather the picks for all index chunks at `idx_shape[level..]`.
fn pick_chunks<T: ArrayElem>(
    arr: &Array<T>,
    idx_shape: &Vec<usize>,
    level: usize,
    idx: &Vec<isize>,
    start: usize,
    fill: Option<T>,
) -> (r: Result<Vec<T>, ArrayError>)
    requires
        arr.wf(),
        level < idx_shape@.len(),
        suffix_fits(idx_shape@),
        idx_shape@[idx_shape@.len() - 1] <= arr.shape@.len(),
        start + prod(idx_shape@.skip(level as int)) <= idx@.len(),
        prod(idx_shape@.subrange(level as int, idx_shape@.len() - 1)) * prod(
            arr.shape@.skip(idx_shape@[idx_shape@.len() - 1] as int),
        ) <= usize::MAX,
    ensures
        ({
            let chunk = idx@.subrange(
                start as int,
                start + prod(idx_shape@.skip(level as int)),
            );
            match pick_res(idx_shape@.skip(level as int), chunk, arr.shape@, arr.data@, fill) {
                Ok(nd) => r matches Ok(v) && v@ == nd,
                Err(e) => r == Err::<Vec<T>, ArrayError>(e),
            }
        }),
    decreases idx_shape@.len() - level,
{
    let n = idx_shape.len();
    let ghost gshape = idx_shape@.skip(level as int);
    let ghost chunk = idx@.subrange(start as int, start + prod(idx_shape@.skip(level as int)));
    proof {
        crate::shape::lemma_suffix_fits_skip(idx_shape@, level as int);
        assert(gshape[gshape.len() - 1] == idx_shape@[idx_shape@.len() - 1]);
    }
    if n - level == 1 {
        // One point pick with `idx_shape[level]` components.
        proof {
            crate::shape::lemma_prod_singleton(gshape);
        }
        let clen = idx_shape[level];
        let index = crate::array::copy_range_isize(idx, start, clen);
        proof {
            assert(index@ =~= chunk);
        }
        match arr.pick_single(&index, fill) {
            Ok(sub) => Ok(sub.data),
            Err(e) => Err(e),
        }
    } else {
        let rc0 = idx_shape[level];
        let irl = suffix_product(idx_shape, level + 1);
        let block = Ghost(prod(arr.shape@.skip(idx_shape@[idx_shape@.len() - 1] as int)));
        let sublen = Ghost(
            prod(idx_shape@.subrange(level + 1, idx_shape@.len() - 1)) * block@,
        );
        proof {
            assert(gshape.skip(1) =~= idx_shape@.skip(level + 1));
            assert(prod(gshape) == rc0 * prod(gshape.skip(1)));
            lemma_prod_nonneg(gshape.skip(1));
            lemma_prod_nonneg(idx_shape@.subrange(level + 1, idx_shape@.len() - 1));
            lemma_prod_nonneg(arr.shape@.skip(idx_shape@[idx_shape@.len() - 1] as int));
            assert(idx_shape@.subrange(level as int, idx_shape@.len() - 1)[0] == rc0);
            assert(idx_shape@.subrange(level as int, idx_shape@.len() - 1).skip(1) =~= idx_shape@
                .subrange(level + 1, idx_shape@.len() - 1));
            assert(prod(idx_shape@.subrange(level as int, idx_shape@.len() - 1)) == rc0 * prod(
                idx_shape@.subrange(level + 1, idx_shape@.len() - 1),
            ));
            assert(rc0 * prod(idx_shape@.subrange(level + 1, idx_shape@.len() - 1)) * block@ == rc0
                * (prod(idx_shape@.subrange(level + 1, idx_shape@.len() - 1)) * block@))
                by (nonlinear_arith);
        }
        let ilen = idx.len();
        let mut out: Vec<T> = Vec::new();
        let mut i: usize = 0;
        while i < rc0
            invariant
                i <= rc0,
                arr.wf(),
                idx@.len() <= usize::MAX,
                level < n == idx_shape@.len() <= usize::MAX,
                n - level >= 2,
                rc0 == idx_shape@[level as int],
                suffix_fits(idx_shape@),
                idx_shape@[idx_shape@.len() - 1] <= arr.shape@.len(),
                gshape == idx_shape@.skip(level as int),
                chunk == idx@.subrange(start as int, start + prod(gshape)),
                irl == prod(idx_shape@.skip(level + 1)),
                start + prod(gshape) <= idx@.len(),
                prod(gshape) == rc0 * irl,
                block@ == prod(arr.shape@.skip(idx_shape@[idx_shape@.len() - 1] as int)),
                sublen@ == prod(idx_shape@.subrange(level + 1, idx_shape@.len() - 1)) * block@,
                0 <= sublen@,
                rc0 * sublen@ <= usize::MAX,
                out@.len() == i * sublen@,
                (match pick_cat(gshape, chunk, arr.shape@, arr.data@, fill, i as int) {
                    Ok(tail) => pick_cat(gshape, chunk, arr.shape@, arr.data@, fill, 0) == Ok::<
                        Seq<T>,
                        ArrayError,
                    >(out@ + tail),
                    Err(e) => pick_cat(gshape, chunk, arr.shape@, arr.data@, fill, 0) == Err::<
                        Seq<T>,
                        ArrayError,
                    >(e),
                }),
            decreases rc0 - i,
        {
            proof {
                crate::array::mul_le_mono(i as int, rc0 as int - 1, irl as int);
                assert((rc0 - 1) * irl + irl == rc0 * irl) by (nonlinear_arith);
                crate::array::mul_le_mono(0, i as int, irl as int);
                // The sub-chunk of the full chunk is a sub-chunk of `idx`.
                assert(gshape.skip(1) =~= idx_shape@.skip(level + 1));
                assert(chunk.subrange((i * irl) as int, (i * irl + irl) as int) =~= idx@.subrange(
                    start + i * irl,
                    start + i * irl + irl,
                ));
                crate::array::mul_le_mono(1, rc0 as int, prod(
                    idx_shape@.subrange(level + 1, idx_shape@.len() - 1),
                ) * block@);
            }
            let ghost out0 = out@;
            let sub = match pick_chunks(arr, idx_shape, level + 1, idx, start + i * irl, fill) {
                Ok(v) => v,
                Err(e) => {
                    proof {
                        assert(pick_cat(gshape, chunk, arr.shape@, arr.data@, fill, i as int)
                            == Err::<Seq<T>, ArrayError>(e));
                    }
                    return Err(e);
                },
            };
            proof {
                let subchunk = chunk.subrange((i * irl) as int, (i * irl + irl) as int);
                assert(subchunk.len() == prod(idx_shape@.skip(level + 1)));
                lemma_pick_res_len(
                    idx_shape@.skip(level + 1),
                    subchunk,
                    arr.shape@,
                    arr.data@,
                    fill,
                );
                assert(idx_shape@.skip(level + 1)[idx_shape@.skip(level + 1).len() - 1]
                    == idx_shape@[idx_shape@.len() - 1]);
                assert(idx_shape@.skip(level + 1).take(idx_shape@.skip(level + 1).len() - 1) =~=
                    idx_shape@.subrange(level + 1, idx_shape@.len() - 1));
                assert(sub@.len() == sublen@);
                crate::array::mul_le_mono(i as int + 1, rc0 as int, sublen@);
                assert((i + 1) * sublen@ == i * sublen@ + sublen@) by (nonlinear_arith);
            }
            let slen = sub.len();
            extend_range(&mut out, &sub, 0, slen);
            proof {
                assert(sub@.subrange(0, slen as int) =~= sub@);
                let ci = pick_cat(gshape, chunk, arr.shape@, arr.data@, fill, i as int);
                let ci1 = pick_cat(gshape, chunk, arr.shape@, arr.data@, fill, i + 1);
                match ci1 {
                    Ok(t) => {
                        assert(ci == Ok::<Seq<T>, ArrayError>(sub@ + t));
                        assert(out0 + (sub@ + t) =~= (out0 + sub@) + t);
                        assert(out0 + (sub@ + t) == out@ + t);
                    },
                    Err(e) => {
                        assert(ci == Err::<Seq<T>, ArrayError>(e));
                    },
                }
            }
            i = i + 1;
        }
        proof {
            assert(pick_cat(gshape, chunk, arr.shape@, arr.data@, fill, rc0 as int) == Ok::<
                Seq<T>,
                ArrayError,
            >(Seq::<T>::empty()));
            assert(out@ + Seq::<T>::empty() =~= out@);
        }
        Ok(out)
    }
}

/// The complete meaning of `pick`: the picked shape and data on success, the
/// exact failure otherwise.
pub open spec fn pick_full<T>(
    idx_shape: Seq<usize>,
    idx: Seq<isize>,
    s: Seq<usize>,
    d: Seq<T>,
    fill: Option<T>,
) -> Result<(Seq<usize>, Seq<T>), ArrayError> {
    let k: int = if idx_shape.len() == 0 {
        1
    } else {
        idx_shape[idx_shape.len() - 1] as int
    };
    if k > s.len() {
        Err(ArrayError::IndexRank { rank: s.len() as usize, index_len: k as usize })
    } else {
        let ns = if idx_shape.len() <= 1 {
            s.skip(k)
        } else {
            idx_shape.take(idx_shape.len() - 1) + s.skip(k)
        };
        if !suffix_fits(ns) || ns.len() > usize::MAX {
            Err(ArrayError::TooLarge)
        } else {
            match pick_res(idx_shape, idx, s, d, fill) {
                Ok(nd) => Ok((ns, nd)),
                Err(e) => Err(e),
            }
        }
    }
}

impl<T: ArrayElem> Array<T> {
    /// Use an index array to `pick` from this one: a rank-at-most-1 index is
    /// one point pick; a higher-rank index array makes one pick per index
    /// row and stacks the results under the index array's leading dimensions.
    pub fn pick(&self, idx_shape: &Vec<usize>, idx: &Vec<isize>, fill: Option<T>) -> (r: Result<
        Array<T>,
        ArrayError,
    >)
        requires
            self.wf(),
            suffix_fits(idx_shape@),
            idx@.len() == prod(idx_shape@),
        ensures
            match pick_full(idx_shape@, idx@, self.shape@, self.data@, fill) {
                Ok((ns, nd)) => r is Ok && r->Ok_0.wf() && r->Ok_0.shape@ == ns && r->Ok_0.data@
                    == nd,
                Err(e) => r == Err::<Array<T>, ArrayError>(e),
            },
    {
        let n = idx_shape.len();
        let k: usize = if n == 0 {
            1
        } else {
            idx_shape[n - 1]
        };
        if k > self.shape.len() {
            return Err(ArrayError::IndexRank { rank: self.shape.len(), index_len: k });
        }
        if n <= 1 {
            proof {
                if n == 1 {
                    crate::shape::lemma_prod_singleton(idx_shape@);
                }
                lemma_suffix_fits_skip(self.shape@, k as int);
            }
            match self.pick_single(idx, fill) {
                Ok(arr) => Ok(arr),
                Err(e) => Err(e),
            }
        } else {
            // Result shape: the index array's leading dimensions, then the
            // cell shape the point picks leave.
            let slen = self.shape.len();
            if n - 1 > usize::MAX - (slen - k) {
                return Err(ArrayError::TooLarge);
            }
            let mut ns: Vec<usize> = Vec::new();
            extend_range(&mut ns, idx_shape, 0, n - 1);
            extend_range(&mut ns, &self.shape, k, slen - k);
            proof {
                assert(idx_shape@.subrange(0, n - 1) =~= idx_shape@.take(n - 1));
                assert(self.shape@.subrange(k as int, slen as int) =~= self.shape@.skip(k as int));
                assert(ns@ =~= idx_shape@.take(n - 1) + self.shape@.skip(k as int));
            }
            let total = match try_prod(&ns) {
                Some(t) => t,
                None => {
                    return Err(ArrayError::TooLarge);
                },
            };
            proof {
                lemma_prod_concat(idx_shape@.take(n - 1), self.shape@.skip(k as int));
                assert(idx_shape@.subrange(0, n - 1) =~= idx_shape@.take(n - 1));
                assert(idx_shape@.skip(0) =~= idx_shape@);
                assert(idx@.subrange(0, prod(idx_shape@)) =~= idx@);
            }
            match pick_chunks(self, idx_shape, 0, idx, 0, fill) {
                Ok(data) => {
                    proof {
                        lemma_pick_res_len(idx_shape@, idx@, self.shape@, self.data@, fill);
                    }
                    Ok(Array { shape: ns, data })
                },
                Err(e) => Err(e),
            }
        }
    }
}

} // verus!
// Row gathering.

verus! {

/// Gathered rows have uniform length.
pub proof fn lemma_select_res_len<T>(
    indices: Seq<isize>,
    rc: int,
    rl: int,
    d: Seq<T>,
    fill: Option<T>,
    k: int,
)
    requires
        0 <= k <= indices.len(),
        rl >= 0,
        d.len() == rc * rl,
        rc >= 0,
    ensures
        select_res(indices, rc, rl, d, fill, k) matches Ok(nd) ==> nd.len() == (indices.len() - k)
            * rl,
    decreases indices.len() - k,
{
    if k < indices.len() {
        lemma_select_res_len(indices, rc, rl, d, fill, k + 1);
        let i = indices[k] as int;
        let j: int = if i >= 0 {
            i
        } else {
            rc + i
        };
        if 0 <= j < rc {
            crate::array::mul_le_mono(j, rc - 1, rl);
            assert((rc - 1) * rl + rl == rc * rl) by (nonlinear_arith);
            crate::array::mul_le_mono(0, j, rl);
            assert(row_at(d, rl, j).len() == rl);
        }
        assert(rl + (indices.len() - k - 1) * rl == (indices.len() - k) * rl) by (nonlinear_arith);
    } else {
        assert((indices.len() - k) * rl == 0) by (nonlinear_arith)
            requires
                indices.len() == k,
        ;
    }
}

impl<T: ArrayElem> Array<T> {
    /// `select` rows by a flat list of signed row indices: row `k` of the
    /// result is the indexed row of this array, or a fill row where the index
    /// is out of range and a fill value is in scope.
    pub fn select(&self, indices: &Vec<isize>, fill: Option<T>) -> (r: Result<
        Array<T>,
        ArrayError,
    >)
        requires
            self.wf(),
        ensures
            indices@.len() * self.row_len_spec() > usize::MAX ==> r == Err::<Array<T>, ArrayError>(
                ArrayError::TooLarge,
            ),
            indices@.len() * self.row_len_spec() <= usize::MAX ==> match select_res(
                indices@,
                self.row_count_spec(),
                self.row_len_spec(),
                self.data@,
                fill,
                0,
            ) {
                Ok(nd) => r is Ok && r->Ok_0.wf() && r->Ok_0.data@ == nd && r->Ok_0.shape@ == (
                if self.shape@.len() == 0 {
                    seq![indices@.len() as usize]
                } else {
                    self.shape@.update(0, indices@.len() as usize)
                }),
                Err(e) => r == Err::<Array<T>, ArrayError>(e),
            },
    {
        let rc = self.row_count();
        let rl = self.row_len();
        proof {
            if self.shape@.len() > 0 {
                self.lemma_rows_cover();
            }
            lemma_prod_nonneg(self.shape@.skip(1));
        }
        let n = indices.len();
        let space = match n.checked_mul(rl) {
            Some(sp) => sp,
            None => {
                return Err(ArrayError::TooLarge);
            },
        };
        let mut out: Vec<T> = Vec::new();
        let mut k: usize = 0;
        while k < n
            invariant
                k <= n == indices@.len(),
                self.wf(),
                rc == self.row_count_spec(),
                rl == self.row_len_spec(),
                space == n * rl <= usize::MAX,
                out@.len() == k * rl,
                (match select_res(indices@, rc as int, rl as int, self.data@, fill, k as int) {
                    Ok(tail) => select_res(indices@, rc as int, rl as int, self.data@, fill, 0)
                        == Ok::<Seq<T>, ArrayError>(out@ + tail),
                    Err(e) => select_res(indices@, rc as int, rl as int, self.data@, fill, 0)
                        == Err::<Seq<T>, ArrayError>(e),
                }),
            decreases n - k,
        {
            let ghost out0 = out@;
            proof {
                crate::array::mul_le_mono(k as int + 1, n as int, rl as int);
                assert((k + 1) * rl == k * rl + rl) by (nonlinear_arith);
            }
            let i = indices[k];
            let jopt: Option<usize> = if i >= 0 {
                if (i as usize) < rc {
                    Some(i as usize)
                } else {
                    None
                }
            } else {
                let m = crate::shape::abs_isize(i);
                if m <= rc {
                    Some(rc - m)
                } else {
                    None
                }
            };
            match jopt {
                Some(j) => {
                    proof {
                        if self.shape@.len() > 0 {
                            self.lemma_in_row_bound(j as int);
                            self.lemma_rows_cover();
                            assert(self.shape@.skip(0) =~= self.shape@);
                            assert(self.data@.len() <= usize::MAX);
                        } else {
                            assert(j == 0 && rl == 1 && self.data@.len() == 1);
                        }
                    }
                    extend_range(&mut out, &self.data, j * rl, rl);
                    proof {
                        assert(self.data@.subrange((j * rl) as int, (j * rl + rl) as int)
                            == row_at(self.data@, rl as int, j as int));
                    }
                },
                None => {
                    match fill {
                        Some(f) => {
                            crate::array::extend_repeat(&mut out, f, rl);
                            proof {
                                assert(out@ =~= out0 + fill_rep(fill, rl as int));
                            }
                        },
                        None => {
                            proof {
                                assert(select_res(
                                    indices@,
                                    rc as int,
                                    rl as int,
                                    self.data@,
                                    fill,
                                    k as int,
                                ) == Err::<Seq<T>, ArrayError>(
                                    ArrayError::OutOfBounds { index: i, len: rc, axis: 0 },
                                ));
                            }
                            return Err(ArrayError::OutOfBounds { index: i, len: rc, axis: 0 });
                        },
                    }
                },
            }
            proof {
                let ck = select_res(indices@, rc as int, rl as int, self.data@, fill, k as int);
                let ck1 = select_res(indices@, rc as int, rl as int, self.data@, fill, k + 1);
                let i_sp = indices@[k as int] as int;
                let j_sp: int = if i_sp >= 0 {
                    i_sp
                } else {
                    rc + i_sp
                };
                let h: Seq<T> = if 0 <= j_sp < rc {
                    row_at(self.data@, rl as int, j_sp)
                } else {
                    fill_rep(fill, rl as int)
                };
                assert(out@ == out0 + h);
                match ck1 {
                    Ok(t) => {
                        assert(ck == Ok::<Seq<T>, ArrayError>(h + t));
                        assert(out0 + (h + t) =~= (out0 + h) + t);
                        assert(out0 + (h + t) == out@ + t);
                    },
                    Err(e) => {
                        assert(ck == Err::<Seq<T>, ArrayError>(e));
                    },
                }
            }
            k = k + 1;
        }
        // Result shape: the index count on the leading axis.
        let mut ns: Vec<usize>;
        if self.shape.len() == 0 {
            ns = Vec::new();
            ns.push(n);
            proof {
                crate::shape::lemma_prod_singleton(ns@);
                assert forall|q: int| 0 <= q <= ns@.len() implies prod(#[trigger] ns@.skip(q))
                    <= usize::MAX by {
                    if q == 0 {
                        assert(ns@.skip(0) =~= ns@);
                    } else {
                        assert(ns@.skip(q) =~= Seq::<usize>::empty());
                    }
                }
            }
        } else {
            let slen = self.shape.len();
            ns = Vec::new();
            ns.push(n);
            extend_range(&mut ns, &self.shape, 1, slen - 1);
            proof {
                assert(self.shape@.subrange(1, slen as int) =~= self.shape@.skip(1));
                assert(ns@ =~= self.shape@.update(0, n));
                assert(ns@.skip(1) =~= self.shape@.skip(1));
                lemma_suffix_fits_skip(self.shape@, 1);
                crate::shape::lemma_suffix_fits_cons(n, self.shape@.skip(1));
                assert(ns@ =~= seq![n] + self.shape@.skip(1));
            }
        }
        proof {
            lemma_select_res_len(indices@, rc as int, rl as int, self.data@, fill, 0);
            assert(prod(ns@) == ns@[0] * prod(ns@.skip(1)));
        }
        Ok(Array { shape: ns, data: out })
    }
}

} // verus!
// Multi-dimensional index arrays select per leading index row.

verus! {

/// Row gathering through an index array of any rank: a flat (or scalar)
/// index gathers rows directly; a higher-rank index array gathers per index
/// row and stacks the results.
pub open spec fn select_multi<T>(
    idx_shape: Seq<usize>,
    idx: Seq<isize>,
    rc: int,
    rl: int,
    d: Seq<T>,
    fill: Option<T>,
) -> Result<Seq<T>, ArrayError>
    decreases idx_shape.len(), idx_shape[0] + 2, 1int,
{
    if idx_shape.len() <= 1 {
        select_res(idx, rc, rl, d, fill, 0)
    } else {
        select_cat(idx_shape, idx, rc, rl, d, fill, 0)
    }
}

/// The gathers for index rows `i..`, concatenated; the first failure wins.
pub open spec fn select_cat<T>(
    idx_shape: Seq<usize>,
    idx: Seq<isize>,
    rc: int,
    rl: int,
    d: Seq<T>,
    fill: Option<T>,
    i: int,
) -> Result<Seq<T>, ArrayError>
    decreases idx_shape.len(), idx_shape[0] + 1 - i, 0int,
{
    if idx_shape.len() == 0 || !(0 <= i < idx_shape[0]) {
        Ok(Seq::empty())
    } else {
        let irl = prod(idx_shape.skip(1));
        match select_multi(
            idx_shape.skip(1),
            idx.subrange(i * irl, i * irl + irl),
            rc,
            rl,
            d,
            fill,
        ) {
            Err(e) => Err(e),
            Ok(head) => match select_cat(idx_shape, idx, rc, rl, d, fill, i + 1) {
                Err(e) => Err(e),
                Ok(tail) => Ok(head + tail),
            },
        }
    }
}

/// A successful gather yields one row per point of the index array.
pub proof fn lemma_select_multi_len<T>(
    idx_shape: Seq<usize>,
    idx: Seq<isize>,
    rc: int,
    rl: int,
    d: Seq<T>,
    fill: Option<T>,
)
    requires
        idx.len() == prod(idx_shape),
        rl >= 0,
        rc >= 0,
        d.len() == rc * rl,
    ensures
        select_multi(idx_shape, idx, rc, rl, d, fill) matches Ok(nd) ==> nd.len() == prod(
            idx_shape,
        ) * rl,
    decreases idx_shape.len(), idx_shape[0] + 2, 1int,
{
    if idx_shape.len() <= 1 {
        lemma_select_res_len(idx, rc, rl, d, fill, 0);
    } else {
        lemma_select_cat_len(idx_shape, idx, rc, rl, d, fill, 0);
        crate::shape::lemma_prod_nonneg(idx_shape.skip(1));
        assert(prod(idx_shape) == idx_shape[0] * prod(idx_shape.skip(1)));
        assert((idx_shape[0] as int - 0) * (prod(idx_shape.skip(1)) * rl) == (idx_shape[0] * prod(
            idx_shape.skip(1),
        )) * rl) by (nonlinear_arith);
    }
}

pub proof fn lemma_select_cat_len<T>(
    idx_shape: Seq<usize>,
    idx: Seq<isize>,
    rc: int,
    rl: int,
    d: Seq<T>,
    fill: Option<T>,
    i: int,
)
    requires
        idx_shape.len() >= 2,
        idx.len() == prod(idx_shape),
        rl >= 0,
        rc >= 0,
        d.len() == rc * rl,
        0 <= i,
    ensures
        select_cat(idx_shape, idx, rc, rl, d, fill, i) matches Ok(nd) ==> nd.len() == (if i
            <= idx_shape[0] {
            (idx_shape[0] - i) * (prod(idx_shape.skip(1)) * rl)
        } else {
            0
        }),
    decreases idx_shape.len(), idx_shape[0] + 1 - i, 0int,
{
    let rc0 = idx_shape[0] as int;
    let irl = prod(idx_shape.skip(1));
    crate::shape::lemma_prod_nonneg(idx_shape.skip(1));
    assert(prod(idx_shape) == rc0 * irl);
    if i >= rc0 {
        if i == rc0 {
            assert((rc0 - i) * (irl * rl) == 0) by (nonlinear_arith)
                requires
                    rc0 == i,
            ;
        }
    } else {
        crate::array::mul_le_mono(i, rc0 - 1, irl);
        assert((rc0 - 1) * irl + irl == rc0 * irl) by (nonlinear_arith);
        crate::array::mul_le_mono(0, i, irl);
        let chunk = idx.subrange(i * irl, i * irl + irl);
        assert(chunk.len() == irl);
        lemma_select_cat_len(idx_shape, idx, rc, rl, d, fill, i + 1);
        lemma_select_multi_len(idx_shape.skip(1), chunk, rc, rl, d, fill);
        match select_multi(idx_shape.skip(1), chunk, rc, rl, d, fill) {
            Ok(head) => {
                match select_cat(idx_shape, idx, rc, rl, d, fill, i + 1) {
                    Ok(tail) => {
                        assert(irl * rl + (rc0 - i - 1) * (irl * rl) == (rc0 - i) * (irl * rl))
                            by (nonlinear_arith);
                    },
                    Err(_) => {},
                }
            },
            Err(_) => {},
        }
    }
}

/// The complete meaning of `select` through an index array of any rank.
pub open spec fn select_full<T>(
    idx_shape: Seq<usize>,
    idx: Seq<isize>,
    s: Seq<usize>,
    d: Seq<T>,
    fill: Option<T>,
) -> Result<(Seq<usize>, Seq<T>), ArrayError> {
    let tail: Seq<usize> = if s.len() == 0 {
        Seq::empty()
    } else {
        s.skip(1)
    };
    let rc: int = if s.len() == 0 {
        1
    } else {
        s[0] as int
    };
    let rl = prod(tail);
    let ns = idx_shape + tail;
    if !suffix_fits(ns) || ns.len() > usize::MAX {
        Err(ArrayError::TooLarge)
    } else {
        match select_multi(idx_shape, idx, rc, rl, d, fill) {
            Ok(nd) => Ok((ns, nd)),
            Err(e) => Err(e),
        }
    }
}

/// Gather the rows for all index chunks at `idx_shape[level..]`.
fn select_chunks<T: ArrayElem>(
    arr: &Array<T>,
    idx_shape: &Vec<usize>,
    level: usize,
    idx: &Vec<isize>,
    start: usize,
    fill: Option<T>,
) -> (r: Result<Vec<T>, ArrayError>)
    requires
        arr.wf(),
        level < idx_shape@.len(),
        suffix_fits(idx_shape@),
        start + prod(idx_shape@.skip(level as int)) <= idx@.len(),
        prod(idx_shape@.skip(level as int)) * arr.row_len_spec() <= usize::MAX,
    ensures
        ({
            let chunk = idx@.subrange(start as int, start + prod(idx_shape@.skip(level as int)));
            match select_multi(
                idx_shape@.skip(level as int),
                chunk,
                arr.row_count_spec(),
                arr.row_len_spec(),
                arr.data@,
                fill,
            ) {
                Ok(nd) => r matches Ok(v) && v@ == nd,
                Err(e) => r == Err::<Vec<T>, ArrayError>(e),
            }
        }),
    decreases idx_shape@.len() - level,
{
    let n = idx_shape.len();
    let ghost gshape = idx_shape@.skip(level as int);
    let ghost chunk = idx@.subrange(start as int, start + prod(idx_shape@.skip(level as int)));
    proof {
        crate::shape::lemma_suffix_fits_skip(idx_shape@, level as int);
        if arr.shape@.len() > 0 {
            arr.lemma_rows_cover();
        }
        lemma_prod_nonneg(arr.shape@.skip(1));
    }
    if n - level == 1 {
        proof {
            crate::shape::lemma_prod_singleton(gshape);
            assert(gshape[0] * arr.row_len_spec() <= usize::MAX);
        }
        let clen = idx_shape[level];
        let index = crate::array::copy_range_isize(idx, start, clen);
        proof {
            assert(index@ =~= chunk);
        }
        match arr.select(&index, fill) {
            Ok(sub) => Ok(sub.data),
            Err(e) => Err(e),
        }
    } else {
        let rc0 = idx_shape[level];
        let irl = suffix_product(idx_shape, level + 1);
        let rl = arr.row_len();
        let sublen = Ghost(prod(idx_shape@.skip(level + 1)) * arr.row_len_spec());
        proof {
            assert(gshape.skip(1) =~= idx_shape@.skip(level + 1));
            assert(prod(gshape) == rc0 * prod(gshape.skip(1)));
            lemma_prod_nonneg(gshape.skip(1));
            assert(rc0 * (prod(idx_shape@.skip(level + 1)) * arr.row_len_spec()) == (rc0 * prod(
                idx_shape@.skip(level + 1),
            )) * arr.row_len_spec()) by (nonlinear_arith);
        }
        let ilen = idx.len();
        let mut out: Vec<T> = Vec::new();
        let mut i: usize = 0;
        while i < rc0
            invariant
                i <= rc0,
                arr.wf(),
                idx@.len() <= usize::MAX,
                level < n == idx_shape@.len() <= usize::MAX,
                n - level >= 2,
                rc0 == idx_shape@[level as int],
                suffix_fits(idx_shape@),
                gshape == idx_shape@.skip(level as int),
                chunk == idx@.subrange(start as int, start + prod(gshape)),
                irl == prod(idx_shape@.skip(level + 1)),
                rl == arr.row_len_spec(),
                start + prod(gshape) <= idx@.len(),
                prod(gshape) == rc0 * irl,
                sublen@ == irl * rl,
                0 <= sublen@,
                rc0 * sublen@ <= usize::MAX,
                out@.len() == i * sublen@,
                (match select_cat(
                    gshape,
                    chunk,
                    arr.row_count_spec(),
                    arr.row_len_spec(),
                    arr.data@,
                    fill,
                    i as int,
                ) {
                    Ok(tail) => select_cat(
                        gshape,
                        chunk,
                        arr.row_count_spec(),
                        arr.row_len_spec(),
                        arr.data@,
                        fill,
                        0,
                    ) == Ok::<Seq<T>, ArrayError>(out@ + tail),
                    Err(e) => select_cat(
                        gshape,
                        chunk,
                        arr.row_count_spec(),
                        arr.row_len_spec(),
                        arr.data@,
                        fill,
                        0,
                    ) == Err::<Seq<T>, ArrayError>(e),
                }),
            decreases rc0 - i,
        {
            proof {
                crate::array::mul_le_mono(i as int, rc0 as int - 1, irl as int);
                assert((rc0 - 1) * irl + irl == rc0 * irl) by (nonlinear_arith);
                crate::array::mul_le_mono(0, i as int, irl as int);
                assert(gshape.skip(1) =~= idx_shape@.skip(level + 1));
                assert(chunk.subrange((i * irl) as int, (i * irl + irl) as int) =~= idx@.subrange(
                    start + i * irl,
                    start + i * irl + irl,
                ));
                crate::array::mul_le_mono(1, rc0 as int, sublen@);
                assert(prod(idx_shape@.skip(level + 1)) * arr.row_len_spec() == sublen@);
            }
            let ghost out0 = out@;
            let sub = match select_chunks(arr, idx_shape, level + 1, idx, start + i * irl, fill) {
                Ok(v) => v,
                Err(e) => {
                    proof {
                        assert(select_cat(
                            gshape,
                            chunk,
                            arr.row_count_spec(),
                            arr.row_len_spec(),
                            arr.data@,
                            fill,
                            i as int,
                        ) == Err::<Seq<T>, ArrayError>(e));
                    }
                    return Err(e);
                },
            };
            proof {
                let subchunk = chunk.subrange((i * irl) as int, (i * irl + irl) as int);
                assert(subchunk.len() == prod(idx_shape@.skip(level + 1)));
                if arr.shape@.len() > 0 {
                    arr.lemma_rows_cover();
                }
                lemma_select_multi_len(
                    idx_shape@.skip(level + 1),
                    subchunk,
                    arr.row_count_spec(),
                    arr.row_len_spec(),
                    arr.data@,
                    fill,
                );
                assert(sub@.len() == sublen@);
                crate::array::mul_le_mono(i as int + 1, rc0 as int, sublen@);
                assert((i + 1) * sublen@ == i * sublen@ + sublen@) by (nonlinear_arith);
            }
            let slen = sub.len();
            extend_range(&mut out, &sub, 0, slen);
            proof {
                assert(sub@.subrange(0, slen as int) =~= sub@);
                let ci = select_cat(
                    gshape,
                    chunk,
                    arr.row_count_spec(),
                    arr.row_len_spec(),
                    arr.data@,
                    fill,
                    i as int,
                );
                let ci1 = select_cat(
                    gshape,
                    chunk,
                    arr.row_count_spec(),
                    arr.row_len_spec(),
                    arr.data@,
                    fill,
                    i + 1,
                );
                match ci1 {
                    Ok(t) => {
                        assert(ci == Ok::<Seq<T>, ArrayError>(sub@ + t));
                        assert(out0 + (sub@ + t) =~= (out0 + sub@) + t);
                        assert(out0 + (sub@ + t) == out@ + t);
                    },
                    Err(e) => {
                        assert(ci == Err::<Seq<T>, ArrayError>(e));
                    },
                }
            }
            i = i + 1;
        }
        proof {
            assert(select_cat(
                gshape,
                chunk,
                arr.row_count_spec(),
                arr.row_len_spec(),
                arr.data@,
                fill,
                rc0 as int,
            ) == Ok::<Seq<T>, ArrayError>(Seq::<T>::empty()));
            assert(out@ + Seq::<T>::empty() =~= out@);
        }
        Ok(out)
    }
}

impl<T: ArrayElem> Array<T> {
    /// `select` through an index array of any rank: the result's shape is the
    /// index array's shape followed by this array's row shape.
    pub fn select_impl(&self, idx_shape: &Vec<usize>, idx: &Vec<isize>, fill: Option<T>) -> (r:
        Result<Array<T>, ArrayError>)
        requires
            self.wf(),
            suffix_fits(idx_shape@),
            idx@.len() == prod(idx_shape@),
        ensures
            match select_full(idx_shape@, idx@, self.shape@, self.data@, fill) {
                Ok((ns, nd)) => r is Ok && r->Ok_0.wf() && r->Ok_0.shape@ == ns && r->Ok_0.data@
                    == nd,
                Err(e) => r == Err::<Array<T>, ArrayError>(e),
            },
    {
        let n = idx_shape.len();
        let slen = self.shape.len();
        // Result shape: the index array's shape, then this array's row shape.
        let tail_len: usize = if slen == 0 {
            0
        } else {
            slen - 1
        };
        if n > usize::MAX - tail_len {
            return Err(ArrayError::TooLarge);
        }
        let mut ns: Vec<usize> = Vec::new();
        extend_range(&mut ns, idx_shape, 0, n);
        if slen > 0 {
            extend_range(&mut ns, &self.shape, 1, slen - 1);
        }
        let ghost tail: Seq<usize> = if self.shape@.len() == 0 {
            Seq::empty()
        } else {
            self.shape@.skip(1)
        };
        proof {
            assert(idx_shape@.subrange(0, n as int) =~= idx_shape@);
            if self.shape@.len() > 0 {
                assert(self.shape@.subrange(1, slen as int) =~= self.shape@.skip(1));
            }
            assert(ns@ =~= idx_shape@ + tail);
        }
        let total = match try_prod(&ns) {
            Some(t) => t,
            None => {
                return Err(ArrayError::TooLarge);
            },
        };
        proof {
            lemma_prod_concat(idx_shape@, tail);
            if self.shape@.len() > 0 {
                self.lemma_rows_cover();
            }
            lemma_prod_nonneg(tail);
            lemma_prod_nonneg(idx_shape@);
            assert(idx_shape@.skip(0) =~= idx_shape@);
            assert(idx@.subrange(0, prod(idx_shape@)) =~= idx@);
        }
        if n == 0 {
            // A scalar index gathers one row and drops the leading axis.
            proof {
                assert(idx@.len() == 1);
                assert(1 * self.row_len_spec() == self.row_len_spec());
                if self.shape@.len() > 0 {
                    crate::shape::lemma_suffix_fits_skip(self.shape@, 1);
                } else {
                    assert forall|q: int| 0 <= q <= tail.len() implies prod(#[trigger] tail.skip(q))
                        <= usize::MAX by {
                        assert(tail.skip(q) =~= Seq::<usize>::empty());
                    }
                }
                lemma_select_res_len(
                    idx@,
                    self.row_count_spec(),
                    self.row_len_spec(),
                    self.data@,
                    fill,
                    0,
                );
            }
            match self.select(idx, fill) {
                Ok(arr) => {
                    proof {
                        assert(arr.data@.len() == 1 * self.row_len_spec());
                        assert(prod(ns@) == self.row_len_spec());
                    }
                    Ok(Array { shape: ns, data: arr.data })
                },
                Err(e) => Err(e),
            }
        } else {
            match select_chunks(self, idx_shape, 0, idx, 0, fill) {
                Ok(data) => {
                    proof {
                        lemma_select_multi_len(
                            idx_shape@,
                            idx@,
                            self.row_count_spec(),
                            self.row_len_spec(),
                            self.data@,
                            fill,
                        );
                    }
                    Ok(Array { shape: ns, data })
                },
                Err(e) => Err(e),
            }
        }
    }
}

} // verus!
// The undo family: splice edited sections back into the whole they came
// from. Duplicate indices would make the inverse ambiguous and are rejected
// at the polymorphic layer.

verus! {

/// A signed index resolved against an axis length.
pub open spec fn resolve_idx(i: isize, len: int) -> int {
    if i >= 0 {
        i as int
    } else {
        len + i
    }
}

/// `d` with the slots `start..start + x.len()` replaced by `x` (slots beyond
/// the end are simply not written).
pub open spec fn splice<T>(d: Seq<T>, start: int, x: Seq<T>) -> Seq<T> {
    Seq::new(d.len(), |q: int| if start <= q < start + x.len() {
        x[q - start]
    } else {
        d[q]
    })
}

/// The flat position a point pick started from.
pub open spec fn unpick_start(index: Seq<isize>, s: Seq<usize>) -> int
    decreases index.len(),
{
    if index.len() == 0 {
        0
    } else {
        resolve_idx(index[0], s[0] as int) * prod(s.skip(1)) + unpick_start(
            index.skip(1),
            s.skip(1),
        )
    }
}

/// Is some component of the index out of bounds, and which is the first?
pub open spec fn index_has_oob(index: Seq<isize>, s: Seq<usize>) -> bool {
    exists|a: int|
        0 <= a < index.len() && !(0 <= resolve_idx(#[trigger] index[a], s[a] as int) < s[a])
}

pub open spec fn first_oob(index: Seq<isize>, s: Seq<usize>) -> int
    decreases index.len(),
{
    if index.len() == 0 {
        0
    } else if !(0 <= resolve_idx(index[0], s[0] as int) < s[0]) {
        0
    } else {
        1 + first_oob(index.skip(1), s.skip(1))
    }
}

/// An in-bounds point pick's start leaves room for the picked block.
pub proof fn lemma_unpick_start_bound(index: Seq<isize>, s: Seq<usize>)
    requires
        index.len() <= s.len(),
        !index_has_oob(index, s),
    ensures
        0 <= unpick_start(index, s),
        unpick_start(index, s) + prod(s.skip(index.len() as int)) <= prod(s),
    decreases index.len(),
{
    if index.len() == 0 {
        assert(s.skip(0) =~= s);
    } else {
        let rl = prod(s.skip(1));
        let j = resolve_idx(index[0], s[0] as int);
        assert(0 <= j < s[0]);
        assert forall|a: int|
            0 <= a < index.skip(1).len() implies 0 <= resolve_idx(
            #[trigger] index.skip(1)[a],
            s.skip(1)[a] as int,
        ) < s.skip(1)[a] by {
            assert(index[a + 1] == index.skip(1)[a]);
            assert(s[a + 1] == s.skip(1)[a]);
            if !(0 <= resolve_idx(index[a + 1], s[a + 1] as int) < s[a + 1]) {
                assert(index_has_oob(index, s));
            }
        }
        lemma_unpick_start_bound(index.skip(1), s.skip(1));
        assert(s.skip(1).skip(index.len() - 1) =~= s.skip(index.len() as int));
        lemma_prod_nonneg(s.skip(1));
        crate::array::mul_le_mono(0, j, rl);
        crate::array::mul_le_mono(j, s[0] as int - 1, rl);
        assert((s[0] - 1) * rl + rl == s[0] * rl) by (nonlinear_arith);
        assert(prod(s) == s[0] * rl);
    }
}

impl<T: ArrayElem> Array<T> {
    /// Undo a point pick: write this (the picked, possibly edited) block
    /// back at the position the index named in `into`.
    pub fn unpick_single(&self, index: &Vec<isize>, into: Array<T>) -> (r: Result<
        Array<T>,
        ArrayError,
    >)
        requires
            self.wf(),
            into.wf(),
        ensures
            index@.len() > into.shape@.len() ==> r == Err::<Array<T>, ArrayError>(
                ArrayError::IndexRank {
                    rank: into.shape@.len() as usize,
                    index_len: index@.len() as usize,
                },
            ),
            index@.len() <= into.shape@.len() && self.shape@ != into.shape@.skip(
                index@.len() as int,
            ) ==> r == Err::<Array<T>, ArrayError>(ArrayError::UndoShapeChanged),
            index@.len() <= into.shape@.len() && self.shape@ == into.shape@.skip(
                index@.len() as int,
            ) && index_has_oob(index@, into.shape@) ==> r == Err::<Array<T>, ArrayError>(
                ArrayError::OutOfBounds {
                    index: index@[first_oob(index@, into.shape@)],
                    len: into.shape@[first_oob(index@, into.shape@)] as usize,
                    axis: first_oob(index@, into.shape@) as usize,
                },
            ),
            index@.len() <= into.shape@.len() && self.shape@ == into.shape@.skip(
                index@.len() as int,
            ) && !index_has_oob(index@, into.shape@) ==> r is Ok && r->Ok_0.wf() && r->Ok_0.shape@
                == into.shape@ && r->Ok_0.data@ == splice(
                into.data@,
                unpick_start(index@, into.shape@),
                self.data@,
            ),
    {
        let ilen = index.len();
        if ilen > into.shape.len() {
            return Err(ArrayError::IndexRank { rank: into.shape.len(), index_len: ilen });
        }
        if !crate::array::tails_equal(&self.shape, &into.shape, 0, ilen) {
            proof {
                assert(self.shape@.skip(0) =~= self.shape@);
            }
            return Err(ArrayError::UndoShapeChanged);
        }
        proof {
            assert(self.shape@.skip(0) =~= self.shape@);
        }
        // Reject out-of-bounds components, naming the first.
        let mut c: usize = 0;
        while c < ilen
            invariant
                c <= ilen == index@.len() <= into.shape@.len(),
                into.wf(),
                self.wf(),
                self.shape@ == into.shape@.skip(ilen as int),
                forall|q: int|
                    0 <= q < c ==> 0 <= resolve_idx(
                        #[trigger] index@[q],
                        into.shape@[q] as int,
                    ) < into.shape@[q],
            decreases ilen - c,
        {
            let i = index[c];
            let sa = into.shape[c];
            let ok: bool = if i >= 0 {
                (i as usize) < sa
            } else {
                let m = crate::shape::abs_isize(i);
                m <= sa && m > 0
            };
            if !ok {
                proof {
                    lemma_first_oob_at(index@, into.shape@, c as int);
                }
                return Err(ArrayError::OutOfBounds { index: i, len: sa, axis: c });
            }
            c = c + 1;
        }
        proof {
            assert(!index_has_oob(index@, into.shape@)) by {
                if index_has_oob(index@, into.shape@) {
                    let q = choose|q: int|
                        0 <= q < index@.len() && !(0 <= resolve_idx(
                            #[trigger] index@[q],
                            into.shape@[q] as int,
                        ) < into.shape@[q]);
                    assert(false);
                }
            }
        }
        // Resolve the start position.
        let mut start: usize = 0;
        let mut a: usize = ilen;
        let ghost block = prod(into.shape@.skip(ilen as int));
        proof {
            assert(index@.skip(ilen as int) =~= Seq::<isize>::empty());
            crate::shape::lemma_suffix_fits_skip(into.shape@, ilen as int);
            crate::shape::lemma_prod_nonneg(into.shape@.skip(ilen as int));
        }
        while a > 0
            invariant
                a <= ilen == index@.len() <= into.shape@.len(),
                into.wf(),
                self.wf(),
                self.shape@ == into.shape@.skip(ilen as int),
                block == prod(into.shape@.skip(ilen as int)),
                forall|q: int|
                    0 <= q < ilen ==> 0 <= resolve_idx(
                        #[trigger] index@[q],
                        into.shape@[q] as int,
                    ) < into.shape@[q],
                start == unpick_start(index@.skip(a as int), into.shape@.skip(a as int)),
                start + prod(into.shape@.skip(ilen as int)) <= prod(into.shape@.skip(a as int)),
            decreases a,
        {
            a = a - 1;
            let ghost gs = into.shape@.skip(a as int);
            let ghost gidx = index@.skip(a as int);
            proof {
                assert(gs.skip(1) =~= into.shape@.skip(a + 1));
                assert(gidx.skip(1) =~= index@.skip(a + 1));
                assert(prod(gs) == gs[0] * prod(gs.skip(1)));
                crate::shape::lemma_prod_nonneg(gs.skip(1));
                crate::shape::lemma_suffix_fits_skip(into.shape@, a as int);
                assert(gs.skip(0) =~= gs);
            }
            let sa = into.shape[a];
            let rl = suffix_product(&into.shape, a + 1);
            let i = index[a];
            let j: usize = if i >= 0 {
                i as usize
            } else {
                let m = crate::shape::abs_isize(i);
                sa - m
            };
            proof {
                assert(j == resolve_idx(index@[a as int], into.shape@[a as int] as int));
                crate::array::mul_le_mono(j as int, sa as int - 1, rl as int);
                assert((sa - 1) * rl + rl == sa * rl) by (nonlinear_arith);
                crate::array::mul_le_mono(0, j as int, rl as int);
                crate::shape::lemma_prod_nonneg(into.shape@.skip(a + 1));
            }
            start = j * rl + start;
        }
        proof {
            assert(index@.skip(0) =~= index@);
            assert(into.shape@.skip(0) =~= into.shape@);
            assert forall|q: int| 0 <= q < index@.len() implies 0 <= resolve_idx(
                #[trigger] index@[q],
                into.shape@[q] as int,
            ) < into.shape@[q] by {}
            assert(!index_has_oob(index@, into.shape@));
        }
        // Write the block back.
        let intolen = into.data.len();
        let mut out = into.data;
        let klen = self.data.len();
        proof {
            assert(self.data@.len() == prod(into.shape@.skip(ilen as int)));
        }
        let mut k: usize = 0;
        while k < klen
            invariant
                k <= klen == self.data@.len(),
                out@.len() == intolen,
                start + klen <= intolen <= usize::MAX,
                forall|q: int| 0 <= q < out@.len() && !(start <= q < start + k) ==> out@[q]
                    == into.data@[q],
                forall|q: int| start <= q < start + k ==> out@[q] == self.data@[q - start],
            decreases klen - k,
        {
            let x = self.data[k];
            out.set(start + k, x);
            k = k + 1;
        }
        proof {
            assert(out@ =~= splice(into.data@, start as int, self.data@));
        }
        Ok(Array { shape: into.shape, data: out })
    }
}

/// The scan for an out-of-bounds component finds the first one.
proof fn lemma_first_oob_at(index: Seq<isize>, s: Seq<usize>, a: int)
    requires
        0 <= a < index.len() <= s.len(),
        !(0 <= resolve_idx(index[a], s[a] as int) < s[a]),
        forall|q: int| 0 <= q < a ==> 0 <= resolve_idx(#[trigger] index[q], s[q] as int) < s[q],
    ensures
        index_has_oob(index, s),
        first_oob(index, s) == a,
    decreases a,
{
    assert(index_has_oob(index, s));
    if a > 0 {
        assert(forall|q: int|
            0 <= q < a - 1 ==> resolve_idx(#[trigger] index.skip(1)[q], s.skip(1)[q] as int)
                == resolve_idx(index[q + 1], s[q + 1] as int));
        lemma_first_oob_at(index.skip(1), s.skip(1), a - 1);
    }
}

/// Writing each kept row back at its resolved position, first row first.
pub open spec fn unselect_fold<T>(
    indices: Seq<isize>,
    rc: int,
    rl: int,
    kd: Seq<T>,
    id: Seq<T>,
    k: int,
) -> Seq<T>
    decreases indices.len() - k,
{
    if !(0 <= k < indices.len()) {
        id
    } else {
        let j = resolve_idx(indices[k], rc);
        unselect_fold(indices, rc, rl, kd, splice(id, j * rl, row_at(kd, rl, k)), k + 1)
    }
}

/// Do two selection indices resolve to the same row? Undoing such a
/// selection would be ambiguous.
pub open spec fn sel_has_dup(indices: Seq<isize>, rc: int) -> bool {
    exists|k1: int, k2: int|
        0 <= k1 < k2 < indices.len() && resolve_idx(#[trigger] indices[k1], rc) == resolve_idx(
            #[trigger] indices[k2],
            rc,
        )
}

/// Does some selection index resolve out of bounds, and which is first?
pub open spec fn sel_has_oob(indices: Seq<isize>, rc: int) -> bool {
    exists|k: int| 0 <= k < indices.len() && !(0 <= resolve_idx(#[trigger] indices[k], rc) < rc)
}

pub open spec fn sel_first_oob(indices: Seq<isize>, rc: int) -> int
    decreases indices.len(),
{
    if indices.len() == 0 {
        0
    } else if !(0 <= resolve_idx(indices[0], rc) < rc) {
        0
    } else {
        1 + sel_first_oob(indices.skip(1), rc)
    }
}

/// Everything `unselect` promises of its result: `ks`/`kd` are the
/// selected (possibly edited) array's shape and data, `is_`/`id` the
/// restore target's.
pub open spec fn unselect_post<T: ArrayElem>(
    scalar_index: bool,
    indices: Seq<isize>,
    ks: Seq<usize>,
    kd: Seq<T>,
    is_: Seq<usize>,
    id: Seq<T>,
    r: Result<Array<T>, ArrayError>,
) -> bool {
    let expected: Seq<usize> = if scalar_index {
        is_.skip(1)
    } else {
        seq![indices.len() as usize] + is_.skip(1)
    };
    let rc = is_[0] as int;
    let rl = prod(is_.skip(1));
    if sel_has_dup(indices, rc) {
        r == Err::<Array<T>, ArrayError>(ArrayError::DuplicateIndices)
    } else if ks != expected {
        r == Err::<Array<T>, ArrayError>(ArrayError::UndoShapeChanged)
    } else if sel_has_oob(indices, rc) {
        r == Err::<Array<T>, ArrayError>(
            ArrayError::OutOfBounds {
                index: indices[sel_first_oob(indices, rc)],
                len: is_[0] as usize,
                axis: 0,
            },
        )
    } else {
        r is Ok && r->Ok_0.wf() && r->Ok_0.shape@ == is_ && r->Ok_0.data@ == unselect_fold(
            indices,
            rc,
            rl,
            kd,
            id,
            0,
        )
    }
}

impl<T: ArrayElem> Array<T> {
    /// Undo a selection: write each row of this (the selected, possibly
    /// edited) array back at the row position its index named in `into`.
    /// `scalar_index` records whether the selection was made with a rank-0
    /// index, in which case this array is a single row.
    pub fn unselect(&self, scalar_index: bool, indices: &Vec<isize>, into: Array<T>) -> (r: Result<
        Array<T>,
        ArrayError,
    >)
        requires
            self.wf(),
            into.wf(),
            into.rank_spec() > 0,
            scalar_index ==> indices@.len() == 1,
        ensures
            unselect_post(scalar_index, indices@, self.shape@, self.data@, into.shape@, into.data@, r),
    {
        let rc = into.shape[0];
        let rl = into.row_len();
        proof {
            into.lemma_rows_cover();
            crate::shape::lemma_prod_nonneg(into.shape@.skip(1));
        }
        // Two indices naming the same row would make the undo ambiguous.
        let n0 = indices.len();
        let mut k1: usize = 0;
        while k1 < n0
            invariant
                k1 <= n0 == indices@.len(),
                rc == into.shape@[0],
                forall|p: int, q: int|
                    0 <= p < q < indices@.len() && p < k1 ==> resolve_idx(
                        #[trigger] indices@[p],
                        rc as int,
                    ) != resolve_idx(#[trigger] indices@[q], rc as int),
            decreases n0 - k1,
        {
            let a = indices[k1];
            let ra: i128 = if a >= 0 {
                a as i128
            } else {
                (rc as i128) + (a as i128)
            };
            let mut k2: usize = k1 + 1;
            while k2 < n0
                invariant
                    k1 < k2 <= n0 == indices@.len() || (k1 + 1 == k2 && k2 > n0),
                    k1 < n0,
                    rc == into.shape@[0],
                    a == indices@[k1 as int],
                    ra == resolve_idx(a, rc as int),
                    forall|q: int|
                        k1 < q < k2 ==> resolve_idx(#[trigger] indices@[q], rc as int) != ra,
                decreases n0 - k2,
            {
                let b = indices[k2];
                let rb: i128 = if b >= 0 {
                    b as i128
                } else {
                    (rc as i128) + (b as i128)
                };
                if ra == rb {
                    proof {
                        assert(resolve_idx(indices@[k1 as int], rc as int) == resolve_idx(
                            indices@[k2 as int],
                            rc as int,
                        ));
                        assert(sel_has_dup(indices@, rc as int));
                    }
                    return Err(ArrayError::DuplicateIndices);
                }
                k2 = k2 + 1;
            }
            k1 = k1 + 1;
        }
        proof {
            assert(!sel_has_dup(indices@, rc as int)) by {
                if sel_has_dup(indices@, rc as int) {
                    let (p, q) = choose|p: int, q: int|
                        0 <= p < q < indices@.len() && resolve_idx(
                            #[trigger] indices@[p],
                            rc as int,
                        ) == resolve_idx(#[trigger] indices@[q], rc as int);
                    assert(false);
                }
            }
        }
        // The selected array's shape must be exactly what selection from the
        // target would produce.
        let shape_ok: bool = if scalar_index {
            crate::array::tails_equal(&self.shape, &into.shape, 0, 1)
        } else {
            self.shape.len() >= 1 && self.shape[0] == indices.len()
                && crate::array::tails_equal(&self.shape, &into.shape, 1, 1)
        };
        proof {
            assert(self.shape@.skip(0) =~= self.shape@);
            if !scalar_index && self.shape@.len() >= 1 && self.shape@[0] == indices@.len()
                && self.shape@.skip(1) == into.shape@.skip(1) {
                assert(self.shape@ =~= seq![indices@.len() as usize] + into.shape@.skip(1));
            }
            if !scalar_index && self.shape@ == seq![indices@.len() as usize] + into.shape@.skip(
                1,
            ) {
                assert(self.shape@[0] == indices@.len());
                assert(self.shape@.skip(1) =~= into.shape@.skip(1));
            }
        }
        if !shape_ok {
            return Err(ArrayError::UndoShapeChanged);
        }
        // Resolve every index up front, rejecting the first out of range.
        let n = indices.len();
        let mut resolved: Vec<usize> = Vec::new();
        let mut k: usize = 0;
        while k < n
            invariant
                k <= n == indices@.len(),
                into.wf(),
                into.rank_spec() > 0,
                rc == into.shape@[0],
                !sel_has_dup(indices@, rc as int),
                self.shape@ == (if scalar_index {
                    into.shape@.skip(1)
                } else {
                    seq![indices@.len() as usize] + into.shape@.skip(1)
                }),
                resolved@.len() == k,
                forall|q: int| 0 <= q < k ==> 0 <= resolve_idx(
                    #[trigger] indices@[q],
                    rc as int,
                ) < rc && resolved@[q] == resolve_idx(indices@[q], rc as int),
            decreases n - k,
        {
            let i = indices[k];
            let jopt: Option<usize> = if i >= 0 {
                if (i as usize) < rc {
                    Some(i as usize)
                } else {
                    None
                }
            } else {
                let m = crate::shape::abs_isize(i);
                if m <= rc && m > 0 {
                    Some(rc - m)
                } else {
                    None
                }
            };
            match jopt {
                Some(j) => {
                    resolved.push(j);
                },
                None => {
                    proof {
                        lemma_sel_first_oob_at(indices@, rc as int, k as int);
                    }
                    return Err(ArrayError::OutOfBounds { index: i, len: rc, axis: 0 });
                },
            }
            k = k + 1;
        }
        proof {
            assert(!sel_has_oob(indices@, rc as int));
        }
        // Write the rows back, first row first.
        let mut out = into.data;
        let outlen = out.len();
        let sdlen = self.data.len();
        proof {
            if !scalar_index {
                assert(self.shape@[0] == n);
                assert(self.shape@.skip(1) == into.shape@.skip(1));
                assert(prod(self.shape@) == self.shape@[0] * prod(self.shape@.skip(1)));
            } else {
                assert(self.shape@ == into.shape@.skip(1));
                assert(1 * rl == rl);
            }
        }
        let mut k: usize = 0;
        while k < n
            invariant
                k <= n == indices@.len(),
                into.wf(),
                self.wf(),
                into.rank_spec() > 0,
                rc == into.shape@[0],
                rl == prod(into.shape@.skip(1)),
                !sel_has_dup(indices@, rc as int),
                self.shape@ == (if scalar_index {
                    into.shape@.skip(1)
                } else {
                    seq![indices@.len() as usize] + into.shape@.skip(1)
                }),
                self.data@.len() <= usize::MAX,
                out@.len() <= usize::MAX,
                scalar_index ==> n == 1,
                self.data@.len() == n * rl,
                out@.len() == into.data@.len() == rc * rl,
                resolved@.len() == n,
                forall|q: int| 0 <= q < n ==> 0 <= resolve_idx(
                    #[trigger] indices@[q],
                    rc as int,
                ) < rc && resolved@[q] == resolve_idx(indices@[q], rc as int),
                unselect_fold(indices@, rc as int, rl as int, self.data@, out@, k as int)
                    == unselect_fold(indices@, rc as int, rl as int, self.data@, into.data@, 0),
            decreases n - k,
        {
            let j = resolved[k];
            proof {
                crate::array::mul_le_mono(j as int, rc as int - 1, rl as int);
                assert((rc - 1) * rl + rl == rc * rl) by (nonlinear_arith);
                crate::array::mul_le_mono(0, j as int, rl as int);
                crate::array::mul_le_mono(k as int, n as int - 1, rl as int);
                assert((n - 1) * rl + rl == n * rl) by (nonlinear_arith);
                crate::array::mul_le_mono(0, k as int, rl as int);
            }
            let ghost out0 = out@;
            // Copy row `k` of the edited rows over row `j` of the target.
            let mut w: usize = 0;
            while w < rl
                invariant
                    w <= rl,
                    j * rl + rl <= out@.len(),
                    k * rl + rl <= self.data@.len(),
                    out@.len() <= usize::MAX,
                    self.data@.len() <= usize::MAX,
                    out@.len() == out0.len(),
                    forall|q: int| 0 <= q < out@.len() && !(j * rl <= q < j * rl + w) ==> out@[q]
                        == out0[q],
                    forall|q: int| j * rl <= q < j * rl + w ==> out@[q] == self.data@[k * rl + (q
                        - j * rl)],
                decreases rl - w,
            {
                let x = self.data[k * rl + w];
                out.set(j * rl + w, x);
                w = w + 1;
            }
            proof {
                assert(out@ =~= splice(
                    out0,
                    j * rl,
                    row_at(self.data@, rl as int, k as int),
                ));
            }
            k = k + 1;
        }
        proof {
            assert(unselect_fold(
                indices@,
                rc as int,
                rl as int,
                self.data@,
                out@,
                n as int,
            ) == out@);
        }
        Ok(Array { shape: into.shape, data: out })
    }
}

proof fn lemma_sel_first_oob_at(indices: Seq<isize>, rc: int, k: int)
    requires
        0 <= k < indices.len(),
        !(0 <= resolve_idx(indices[k], rc) < rc),
        forall|q: int| 0 <= q < k ==> 0 <= resolve_idx(#[trigger] indices[q], rc) < rc,
    ensures
        sel_has_oob(indices, rc),
        sel_first_oob(indices, rc) == k,
    decreases k,
{
    assert(sel_has_oob(indices, rc));
    if k > 0 {
        assert(forall|q: int|
            0 <= q < k - 1 ==> resolve_idx(#[trigger] indices.skip(1)[q], rc) == resolve_idx(
                indices[q + 1],
                rc,
            ));
        lemma_sel_first_oob_at(indices.skip(1), rc, k - 1);
    }
}

} // verus!
// Batched point unpicks: a rank-2-or-higher index array splices one edited
// cell block back per index row, in row-major order. Duplicate index rows
// would make the inverse ambiguous and are rejected at the polymorphic
// layer.

verus! {

/// The single-pick undo: the edited block written back over the cells the
/// index named, with the exact failure otherwise.
pub open spec fn unpick_single_res<T>(
    index: Seq<isize>,
    fs: Seq<usize>,
    fd: Seq<T>,
    is_: Seq<usize>,
    id: Seq<T>,
) -> Result<Seq<T>, ArrayError> {
    if index.len() > is_.len() {
        Err(ArrayError::IndexRank { rank: is_.len() as usize, index_len: index.len() as usize })
    } else if fs != is_.skip(index.len() as int) {
        Err(ArrayError::UndoShapeChanged)
    } else if index_has_oob(index, is_) {
        Err(
            ArrayError::OutOfBounds {
                index: index[first_oob(index, is_)],
                len: is_[first_oob(index, is_)] as usize,
                axis: first_oob(index, is_) as usize,
            },
        )
    } else {
        Ok(splice(id, unpick_start(index, is_), fd))
    }
}

/// Chunks `c..cnt` of a batched unpick, folded left to right: each index
/// row splices its edited block back, the first out-of-range row failing.
pub open spec fn unpick_fold<T>(
    idx: Seq<isize>,
    last: int,
    cnt: int,
    block: int,
    fd: Seq<T>,
    is_: Seq<usize>,
    id: Seq<T>,
    c: int,
) -> Result<Seq<T>, ArrayError>
    decreases cnt - c,
{
    if !(0 <= c < cnt) {
        Ok(id)
    } else {
        let chunk = idx.subrange(c * last, c * last + last);
        if index_has_oob(chunk, is_) {
            Err(
                ArrayError::OutOfBounds {
                    index: chunk[first_oob(chunk, is_)],
                    len: is_[first_oob(chunk, is_)] as usize,
                    axis: first_oob(chunk, is_) as usize,
                },
            )
        } else {
            unpick_fold(
                idx,
                last,
                cnt,
                block,
                fd,
                is_,
                splice(id, unpick_start(chunk, is_), row_at(fd, block, c)),
                c + 1,
            )
        }
    }
}

/// The complete meaning of `unpick` through an index array of any rank.
pub open spec fn unpick_all<T>(
    idx_shape: Seq<usize>,
    idx: Seq<isize>,
    fs: Seq<usize>,
    fd: Seq<T>,
    is_: Seq<usize>,
    id: Seq<T>,
) -> Result<Seq<T>, ArrayError> {
    let n = idx_shape.len() as int;
    if n <= 1 {
        unpick_single_res(idx, fs, fd, is_, id)
    } else {
        let last = idx_shape[n - 1] as int;
        if last > is_.len() {
            Err(ArrayError::IndexRank { rank: is_.len() as usize, index_len: last as usize })
        } else if fs != idx_shape.take(n - 1) + is_.skip(last) {
            Err(ArrayError::UndoShapeChanged)
        } else {
            unpick_fold(
                idx,
                last,
                prod(idx_shape.take(n - 1)),
                prod(is_.skip(last)),
                fd,
                is_,
                id,
                0,
            )
        }
    }
}


impl<T: ArrayElem> Array<T> {
    /// Undo a pick through an index array of any rank: a flat index is one
    /// point splice; a higher-rank index array splices one edited block per
    /// index row.
    pub fn unpick(&self, idx_shape: &Vec<usize>, idx: &Vec<isize>, into: Array<T>) -> (r: Result<
        Array<T>,
        ArrayError,
    >)
        requires
            self.wf(),
            into.wf(),
            suffix_fits(idx_shape@),
            idx@.len() == prod(idx_shape@),
        ensures
            match unpick_all(idx_shape@, idx@, self.shape@, self.data@, into.shape@, into.data@) {
                Ok(nd) => r is Ok && r->Ok_0.wf() && r->Ok_0.shape@ == into.shape@
                    && r->Ok_0.data@ == nd,
                Err(e) => r == Err::<Array<T>, ArrayError>(e),
            },
    {
        let n = idx_shape.len();
        if n <= 1 {
            proof {
                if n == 1 {
                    crate::shape::lemma_prod_singleton(idx_shape@);
                }
            }
            return self.unpick_single(idx, into);
        }
        let last = idx_shape[n - 1];
        if last > into.shape.len() {
            return Err(ArrayError::IndexRank { rank: into.shape.len(), index_len: last });
        }
        // The edited array's shape must be exactly what the batched pick
        // produced: the index array's leading dimensions, then the cell
        // shape.
        let slen_e = self.shape.len();
        let islen_e = into.shape.len();
        let shape_ok = {
            let mut ok = slen_e >= n - 1 && slen_e - (n - 1) == islen_e - last;
            let mut q: usize = 0;
            while q < self.shape.len() && ok
                invariant
                    q <= self.shape@.len(),
                    n == idx_shape@.len() <= usize::MAX,
                    n >= 2,
                    last == idx_shape@[n - 1],
                    last <= into.shape@.len() <= usize::MAX,
                    self.shape@.len() <= usize::MAX,
                    self.wf(),
                    into.wf(),
                    ok ==> self.shape@.len() == (n - 1) + (into.shape@.len() - last) && forall|
                        p: int,
                    |
                        0 <= p < q ==> self.shape@[p] == (idx_shape@.take(n - 1) + into.shape@.skip(
                            last as int,
                        ))[p],
                    !ok ==> self.shape@ != idx_shape@.take(n - 1) + into.shape@.skip(last as int),
                decreases self.shape@.len() - q,
            {
                let want: usize = if q < n - 1 {
                    idx_shape[q]
                } else {
                    into.shape[last + (q - (n - 1))]
                };
                if self.shape[q] != want {
                    ok = false;
                }
                q = q + 1;
            }
            proof {
                if ok {
                    assert(self.shape@ =~= idx_shape@.take(n - 1) + into.shape@.skip(
                        last as int,
                    ));
                }
            }
            ok
        };
        if !shape_ok {
            return Err(ArrayError::UndoShapeChanged);
        }
        // One splice per index row, in row-major order.
        proof {
            lemma_suffix_fits_skip(into.shape@, last as int);
            lemma_prod_concat(idx_shape@.take(n - 1), into.shape@.skip(last as int));
            lemma_prod_nonneg(into.shape@.skip(last as int));
            lemma_prod_nonneg(idx_shape@.take(n - 1));
            assert(self.data@.len() == prod(self.shape@));
            crate::shape::lemma_prod_split(idx_shape@, n - 1);
            assert(idx_shape@.skip(n - 1) =~= seq![idx_shape@[n - 1]]);
            crate::shape::lemma_prod_singleton(idx_shape@.skip(n - 1));
        }
        let block = suffix_product(&into.shape, last);
        let idx_len_e = idx.len();
        let fd_len_e = self.data.len();
        let ghost cc = prod(idx_shape@.take(n - 1));
        // The chunk count, recovered from whichever extent is non-empty.
        let cnt: usize = if last >= 1 {
            proof {
                vstd::arithmetic::div_mod::lemma_div_by_multiple(cc, last as int);
            }
            idx_len_e / last
        } else if block >= 1 {
            proof {
                vstd::arithmetic::div_mod::lemma_div_by_multiple(cc, block as int);
            }
            fd_len_e / block
        } else {
            // Empty index rows over an empty target: every splice is a
            // no-op, however many rows there are.
            proof {
                assert(into.shape@.skip(0) =~= into.shape@);
                assert(into.data@.len() == 0);
                lemma_unpick_fold_identity(idx@, cc, self.data@, into.shape@, into.data@, 0);
            }
            return Ok(into);
        };
        let ghost gis = into.shape@;
        let ghost gid0 = into.data@;
        let ghost gfs = self.shape@;
        let ghost gfd = self.data@;
        let mut cur = into;
        let mut c: usize = 0;
        while c < cnt
            invariant
                c <= cnt,
                self.wf(),
                cur.wf(),
                n == idx_shape@.len() <= usize::MAX,
                n >= 2,
                last == idx_shape@[n - 1],
                last <= gis.len(),
                gfs == self.shape@,
                gfd == self.data@,
                gis == into.shape@,
                gid0 == into.data@,
                cur.shape@ == gis,
                cnt == prod(idx_shape@.take(n - 1)),
                block == prod(gis.skip(last as int)),
                idx@.len() == cnt * last,
                gfd.len() == cnt * block,
                idx@.len() <= usize::MAX,
                gfd.len() <= usize::MAX,
                gfs == idx_shape@.take(n - 1) + gis.skip(last as int),
                (match unpick_fold(
                    idx@,
                    last as int,
                    cnt as int,
                    block as int,
                    gfd,
                    gis,
                    cur.data@,
                    c as int,
                ) {
                    Ok(nd) => unpick_fold(
                        idx@,
                        last as int,
                        cnt as int,
                        block as int,
                        gfd,
                        gis,
                        gid0,
                        0,
                    ) == Ok::<Seq<T>, ArrayError>(nd),
                    Err(e) => unpick_fold(
                        idx@,
                        last as int,
                        cnt as int,
                        block as int,
                        gfd,
                        gis,
                        gid0,
                        0,
                    ) == Err::<Seq<T>, ArrayError>(e),
                }),
            decreases cnt - c,
        {
            proof {
                crate::array::mul_le_mono(c as int + 1, cnt as int, last as int);
                assert((c + 1) * last == c * last + last) by (nonlinear_arith);
                crate::array::mul_le_mono(0, c as int, last as int);
                crate::array::mul_le_mono(c as int + 1, cnt as int, block as int);
                assert((c + 1) * block == c * block + block) by (nonlinear_arith);
                crate::array::mul_le_mono(0, c as int, block as int);
            }
            let chunk = crate::array::copy_range_isize(idx, c * last, last);
            let fd_row = copy_range(&self.data, c * block, block);
            let mut fshape: Vec<usize> = Vec::new();
            let islen = cur.shape.len();
            extend_range(&mut fshape, &cur.shape, last, islen - last);
            let from_arr = Array { shape: fshape, data: fd_row };
            proof {
                assert(from_arr.shape@ =~= gis.skip(last as int));
                lemma_suffix_fits_skip(gis, last as int);
                assert(chunk@ =~= idx@.subrange(
                    (c * last) as int,
                    (c * last) as int + last as int,
                ));
                assert(from_arr.data@ == row_at(gfd, block as int, c as int));
            }
            proof {
                assert(gis.skip(chunk@.len() as int) =~= gis.skip(last as int));
            }
            let ghost prev = cur;
            cur = match from_arr.unpick_single(&chunk, cur) {
                Ok(next) => next,
                Err(e) => {
                    proof {
                        assert(index_has_oob(chunk@, gis));
                        assert(unpick_fold(
                            idx@,
                            last as int,
                            cnt as int,
                            block as int,
                            gfd,
                            gis,
                            prev.data@,
                            c as int,
                        ) == Err::<Seq<T>, ArrayError>(e));
                    }
                    return Err(e);
                },
            };
            proof {
                assert(!index_has_oob(chunk@, gis));
                assert(cur.data@ == splice(
                    prev.data@,
                    unpick_start(chunk@, gis),
                    row_at(gfd, block as int, c as int),
                ));
            }
            c = c + 1;
        }
        Ok(cur)
    }
}

/// With empty index rows over an empty target, every splice is a no-op.
proof fn lemma_unpick_fold_identity<T>(
    idx: Seq<isize>,
    cnt: int,
    fd: Seq<T>,
    is_: Seq<usize>,
    id: Seq<T>,
    c: int,
)
    requires
        id.len() == 0,
    ensures
        unpick_fold(idx, 0, cnt, 0, fd, is_, id, c) == Ok::<Seq<T>, ArrayError>(id),
    decreases cnt - c,
{
    if 0 <= c < cnt {
        let chunk = idx.subrange(0, 0);
        assert(chunk.len() == 0);
        assert(!index_has_oob(chunk, is_));
        let nd = splice(id, unpick_start(chunk, is_), row_at(fd, 0, c));
        assert(nd =~= id);
        lemma_unpick_fold_identity(idx, cnt, fd, is_, nd, c + 1);
    }
}


} // verus!
