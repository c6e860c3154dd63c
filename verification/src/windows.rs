//! Windows and find: sliding-window enumeration over the leading axes, and
//! the boolean sliding-window match built on the same index arithmetic.

use vstd::prelude::*;

use crate::array::Array;
use crate::elem::ArrayElem;
use crate::error::ArrayError;
use crate::shape::{lemma_prod_nonneg, lemma_prod_zero, prod, suffix_fits, suffix_product, try_prod};
use vstd::arithmetic::div_mod::{lemma_div_pos_is_pos, lemma_mod_bound};

verus! {

/// Digit `a` of the row-major index `k` over shape `s`: what a stride-by-
/// stride decomposition of `k` leaves at axis `a`.
pub open spec fn dig(k: int, s: Seq<usize>, a: int) -> int {
    (k / prod(s.skip(a + 1))) % (s[a] as int)
}

/// The window size each axis resolves to: non-negative sizes stand for
/// themselves, negative ones count back from the axis's far end.
pub open spec fn resolved_size(sz: isize, dim: usize) -> int {
    if sz >= 0 {
        sz as int
    } else if dim + 1 + sz >= 0 {
        dim + 1 + sz
    } else {
        0
    }
}

/// The shape of the windows array: window counts per windowed axis, then
/// window sizes, then the unwindowed trailing dimensions.
pub open spec fn win_shape(sizes: Seq<isize>, s: Seq<usize>) -> Seq<usize> {
    let w = sizes.len() as int;
    Seq::new((s.len() + w) as nat, |a: int| if a < w {
        (s[a] + 1 - resolved_size(sizes[a], s[a])) as usize
    } else if a < w + w {
        resolved_size(sizes[a - w], s[a - w]) as usize
    } else {
        s[a - w]
    })
}

/// The source cell of output cell `k`: on each windowed axis the corner
/// digit plus the in-window offset digit, then the trailing digits, all
/// recombined with the input shape's row-major strides.
pub open spec fn win_src_from(k: int, ns: Seq<usize>, s: Seq<usize>, w: int, a: int) -> int
    decreases s.len() - a,
{
    if a < 0 || a >= s.len() {
        0
    } else {
        let c: int = if a < w {
            dig(k, ns, a) + dig(k, ns, w + a)
        } else {
            dig(k, ns, w + a)
        };
        c * prod(s.skip(a + 1)) + win_src_from(k, ns, s, w, a + 1)
    }
}

/// A fully in-bounds source: every combined digit stays under its dimension.
pub proof fn lemma_win_src_bound(k: int, ns: Seq<usize>, s: Seq<usize>, w: int, a: int)
    requires
        0 <= a <= s.len(),
        0 <= w,
        forall|q: int| a <= q < s.len() ==> 0 <= #[trigger] win_comb(k, ns, s, w, q) < s[q],
    ensures
        0 <= win_src_from(k, ns, s, w, a) < prod(s.skip(a)) || prod(s.skip(a)) <= 0,
    decreases s.len() - a,
{
    if a == s.len() {
        assert(s.skip(a) =~= Seq::<usize>::empty());
    } else {
        lemma_win_src_bound(k, ns, s, w, a + 1);
        let rl = prod(s.skip(a + 1));
        let c = win_comb(k, ns, s, w, a);
        lemma_prod_nonneg(s.skip(a + 1));
        assert(prod(s.skip(a)) == s[a] * rl) by {
            assert(s.skip(a).skip(1) =~= s.skip(a + 1));
        }
        if rl > 0 {
            crate::array::mul_le_mono(c, s[a] as int - 1, rl);
            assert((s[a] - 1) * rl + rl == s[a] * rl) by (nonlinear_arith);
            crate::array::mul_le_mono(0, c, rl);
        } else {
            assert(s[a] * rl == 0) by (nonlinear_arith)
                requires
                    rl == 0,
            ;
        }
    }
}

/// The combined digit at axis `a` of the source of output cell `k`.
pub open spec fn win_comb(k: int, ns: Seq<usize>, s: Seq<usize>, w: int, a: int) -> int {
    if a < w {
        dig(k, ns, a) + dig(k, ns, w + a)
    } else {
        dig(k, ns, w + a)
    }
}

/// Everything `windows` promises of its result.
pub open spec fn windows_post<T: ArrayElem>(
    sizes: Seq<isize>,
    s: Seq<usize>,
    d: Seq<T>,
    r: Result<Array<T>, ArrayError>,
) -> bool {
    &&& (exists|q: int| 0 <= q < sizes.len() && sizes[q] == 0) ==> r == Err::<Array<T>, ArrayError>(
        ArrayError::WindowSizeZero,
    )
    &&& (forall|q: int| 0 <= q < sizes.len() ==> sizes[q] != 0) && sizes.len() > s.len() ==> r
        == Err::<Array<T>, ArrayError>(
        ArrayError::WindowRank { rank: s.len() as usize, sizes: sizes.len() as usize },
    )
    &&& (forall|q: int| 0 <= q < sizes.len() ==> sizes[q] != 0) && sizes.len() <= s.len() && (
    exists|q: int| 0 <= q < sizes.len() && crate::takedrop::abs_sp(#[trigger] sizes[q]) > s[q])
        ==> (r matches Err(e) && (e matches ArrayError::WindowTooLarge { size, dim } && exists|
        q: int,
    |
        0 <= q < sizes.len() && sizes[q] == size && s[q] == dim && crate::takedrop::abs_sp(
            sizes[q],
        ) > s[q]))
    &&& (forall|q: int|
        0 <= q < sizes.len() ==> sizes[q] != 0 && crate::takedrop::abs_sp(#[trigger] sizes[q])
            <= s[q]) && sizes.len() <= s.len() ==> ({
        let ns = win_shape(sizes, s);
        if !suffix_fits(ns) || ns.len() > usize::MAX {
            r == Err::<Array<T>, ArrayError>(ArrayError::TooLarge)
        } else {
            r is Ok && r->Ok_0.wf() && r->Ok_0.shape@ == ns && r->Ok_0.data@.len() == prod(ns)
                && forall|k: int|
                0 <= k < prod(ns) ==> r->Ok_0.data@[k] == d[win_src_from(
                    k,
                    ns,
                    s,
                    sizes.len() as int,
                    0,
                )]
        }
    })
}

impl<T: ArrayElem> Array<T> {
    /// Enumerate the sliding `windows` of this array: the result is one rank
    /// higher per windowed axis, the window corners in row-major order
    /// outermost and the in-window offsets within.
    #[verifier::rlimit(80)]
    pub fn windows(&self, sizes: &Vec<isize>) -> (r: Result<Array<T>, ArrayError>)
        requires
            self.wf(),
        ensures
            windows_post(sizes@, self.shape@, self.data@, r),
    {
        let w = sizes.len();
        // A window size of zero is meaningless.
        let mut q: usize = 0;
        while q < w
            invariant
                q <= w == sizes@.len(),
                forall|p: int| 0 <= p < q ==> sizes@[p] != 0,
            decreases w - q,
        {
            if sizes[q] == 0 {
                return Err(ArrayError::WindowSizeZero);
            }
            q = q + 1;
        }
        // No more windowed axes than the array has.
        if w > self.shape.len() {
            return Err(ArrayError::WindowRank { rank: self.shape.len(), sizes: w });
        }
        // No window longer than its axis.
        let mut q: usize = 0;
        while q < w
            invariant
                q <= w == sizes@.len() <= self.shape@.len(),
                self.wf(),
                forall|p: int| 0 <= p < w ==> sizes@[p] != 0,
                forall|p: int|
                    0 <= p < q ==> crate::takedrop::abs_sp(#[trigger] sizes@[p])
                        <= self.shape@[p],
            decreases w - q,
        {
            let a = crate::shape::abs_isize(sizes[q]);
            if a > self.shape[q] {
                proof {
                    assert(crate::takedrop::abs_sp(sizes@[q as int]) > self.shape@[q as int]);
                }
                return Err(ArrayError::WindowTooLarge { size: sizes[q], dim: self.shape[q] });
            }
            q = q + 1;
        }
        // Resolve the window sizes and assemble the result shape.
        let slen = self.shape.len();
        if w > usize::MAX - slen {
            return Err(ArrayError::TooLarge);
        }
        let ghost gns = win_shape(sizes@, self.shape@);
        let mut ns: Vec<usize> = Vec::new();
        let mut q: usize = 0;
        while q < slen + w
            invariant
                q <= slen + w <= usize::MAX,
                w == sizes@.len() <= self.shape@.len() == slen,
                self.wf(),
                gns == win_shape(sizes@, self.shape@),
                forall|p: int|
                    0 <= p < w ==> sizes@[p] != 0 && crate::takedrop::abs_sp(#[trigger] sizes@[p])
                        <= self.shape@[p],
                ns@ =~= gns.take(q as int),
            decreases slen + w - q,
        {
            if q < w {
                let d = self.shape[q];
                let t = resolve_size_exec(sizes[q], d);
                ns.push(d - t + 1);
            } else if q < w + w {
                let d = self.shape[q - w];
                let t = resolve_size_exec(sizes[q - w], d);
                ns.push(t);
            } else {
                ns.push(self.shape[q - w]);
            }
            q = q + 1;
        }
        proof {
            assert(ns@ =~= gns);
        }
        let total = match try_prod(&ns) {
            Some(t) => t,
            None => {
                return Err(ArrayError::TooLarge);
            },
        };
        // Fill each output cell from its source cell.
        let mut out: Vec<T> = Vec::new();
        let mut k: usize = 0;
        proof {
            if total > 0 {
                lemma_prod_zero(ns@);
                lemma_prod_zero(self.shape@);
                assert forall|p: int| 0 <= p < self.shape@.len() implies self.shape@[p] > 0 by {
                    if p < w {
                        assert(ns@[p + w] <= self.shape@[p] && ns@[p + w] > 0);
                    } else {
                        assert(ns@[p + w] == self.shape@[p] && ns@[p + w] > 0);
                    }
                }
            }
        }
        while k < total
            invariant
                k <= total,
                w + slen <= usize::MAX,
                forall|p: int| 0 <= p < w ==> sizes@[p] != 0 && crate::takedrop::abs_sp(
                    #[trigger] sizes@[p],
                ) <= self.shape@[p],
                w == sizes@.len() <= self.shape@.len() == slen <= usize::MAX,
                self.wf(),
                gns == win_shape(sizes@, self.shape@),
                ns@ == gns,
                suffix_fits(ns@),
                total == prod(ns@),
                total > 0 ==> (forall|p: int| 0 <= p < ns@.len() ==> #[trigger] ns@[p] > 0) && (
                forall|p: int| 0 <= p < self.shape@.len() ==> #[trigger] self.shape@[p] > 0)
                    && prod(self.shape@) > 0,
                self.data@.len() == prod(self.shape@),
                out@.len() == k,
                forall|p: int|
                    0 <= p < k ==> out@[p] == self.data@[win_src_from(
                        p,
                        gns,
                        self.shape@,
                        w as int,
                        0,
                    )],
            decreases total - k,
        {
            // Walk the axes from the back, recombining the digits of `k`
            // with the input strides.
            let mut src: usize = 0;
            let mut a: usize = slen;
            proof {
                assert(self.shape@.skip(slen as int) =~= Seq::<usize>::empty());
            }
            while a > 0
                invariant
                    a <= slen,
                    k < total,
                    w + slen <= usize::MAX,
                    forall|p: int| 0 <= p < w ==> sizes@[p] != 0 && crate::takedrop::abs_sp(
                        #[trigger] sizes@[p],
                    ) <= self.shape@[p],
                    w == sizes@.len() <= self.shape@.len() == slen <= usize::MAX,
                    self.wf(),
                    gns == win_shape(sizes@, self.shape@),
                    ns@ == gns,
                    suffix_fits(ns@),
                    total == prod(ns@),
                    forall|p: int| 0 <= p < ns@.len() ==> #[trigger] ns@[p] > 0,
                    forall|p: int| 0 <= p < self.shape@.len() ==> #[trigger] self.shape@[p] > 0,
                    prod(self.shape@) > 0,
                    forall|q2: int| a <= q2 < slen ==> 0 <= #[trigger] win_comb(
                        k as int,
                        gns,
                        self.shape@,
                        w as int,
                        q2,
                    ) < self.shape@[q2],
                    src == win_src_from(k as int, gns, self.shape@, w as int, a as int),
                    0 <= src < prod(self.shape@.skip(a as int)) || a == slen,
                decreases a,
            {
                a = a - 1;
                proof {
                    crate::shape::lemma_suffix_fits_skip(self.shape@, a + 1);
                    lemma_prod_zero(self.shape@.skip(a + 1));
                    assert forall|p: int|
                        0 <= p < self.shape@.skip(a + 1).len() implies #[trigger] self.shape@.skip(
                        a + 1,
                    )[p] > 0 by {
                        assert(self.shape@.skip(a + 1)[p] == self.shape@[a + 1 + p]);
                    }
                    lemma_prod_nonneg(self.shape@.skip(a + 1));
                }
                let rl = suffix_product(&self.shape, a + 1);
                let c: usize = if a < w {
                    let c0 = digit_exec(k, &ns, a, total);
                    let c1 = digit_exec(k, &ns, w + a, total);
                    proof {
                        assert(ns@[a as int] + ns@[w + a] <= self.shape@[a as int] + 1) by {
                            assert(sizes@[a as int] != 0 && crate::takedrop::abs_sp(
                                sizes@[a as int],
                            ) <= self.shape@[a as int]);
                            assert(1 <= resolved_size(sizes@[a as int], self.shape@[a as int])
                                <= self.shape@[a as int]);
                            assert(ns@[a as int] == self.shape@[a as int] + 1 - resolved_size(
                                sizes@[a as int],
                                self.shape@[a as int],
                            ));
                            assert(ns@[w + a] == resolved_size(
                                sizes@[a as int],
                                self.shape@[a as int],
                            ));
                        }
                    }
                    c0 + c1
                } else {
                    digit_exec(k, &ns, w + a, total)
                };
                proof {
                    assert(c == win_comb(k as int, gns, self.shape@, w as int, a as int));
                    assert(0 <= c < self.shape@[a as int]) by {
                        if a < w {
                            assert(dig(k as int, gns, a as int) <= ns@[a as int] - 1);
                            assert(dig(k as int, gns, w + a) <= ns@[w + a] - 1);
                        }
                    }
                    lemma_win_src_bound(k as int, gns, self.shape@, w as int, a as int);
                    assert(self.shape@.skip(a as int).skip(1) =~= self.shape@.skip(a + 1));
                    assert(prod(self.shape@.skip(a as int)) == self.shape@[a as int] * prod(
                        self.shape@.skip(a + 1),
                    ));
                    crate::array::mul_le_mono(c as int, self.shape@[a as int] as int - 1, rl as int);
                    assert((self.shape@[a as int] - 1) * rl + rl == self.shape@[a as int] * rl)
                        by (nonlinear_arith);
                    crate::array::mul_le_mono(0, c as int, rl as int);
                    assert(self.shape@.skip(0) =~= self.shape@);
                    assert(prod(self.shape@) <= usize::MAX);
                    assert(prod(self.shape@.skip(a as int)) <= usize::MAX);
                    if a + 1 == slen {
                        assert(self.shape@.skip(a + 1) =~= Seq::<usize>::empty());
                    }
                }
                src = c * rl + src;
            }
            proof {
                assert(self.shape@.skip(0) =~= self.shape@);
                assert(src < self.data@.len());
            }
            let x = self.data[src];
            out.push(x);
            k = k + 1;
        }
        Ok(Array { shape: ns, data: out })
    }
}

/// Resolve one window size against its axis.
fn resolve_size_exec(sz: isize, dim: usize) -> (r: usize)
    requires
        crate::takedrop::abs_sp(sz) <= dim,
        sz != 0,
    ensures
        r == resolved_size(sz, dim),
        1 <= r <= dim,
{
    if sz >= 0 {
        sz as usize
    } else {
        let m = crate::shape::abs_isize(sz);
        dim - m + 1
    }
}

/// Extract digit `a` of the row-major index `k` over the shape `ns`.
fn digit_exec(k: usize, ns: &Vec<usize>, a: usize, total: usize) -> (r: usize)
    requires
        a < ns@.len(),
        suffix_fits(ns@),
        forall|p: int| 0 <= p < ns@.len() ==> #[trigger] ns@[p] > 0,
        k < total == prod(ns@),
    ensures
        r == dig(k as int, ns@, a as int),
        r < ns@[a as int],
{
    let nlen = ns.len();
    proof {
        crate::shape::lemma_suffix_fits_skip(ns@, a + 1);
        lemma_prod_zero(ns@.skip(a + 1));
        assert forall|p: int| 0 <= p < ns@.skip(a + 1).len() implies #[trigger] ns@.skip(
            a + 1,
        )[p] > 0 by {
            assert(ns@.skip(a + 1)[p] == ns@[a + 1 + p]);
        }
        lemma_prod_nonneg(ns@.skip(a + 1));
    }
    let stride = suffix_product(ns, a + 1);
    proof {
        lemma_div_pos_is_pos(k as int, stride as int);
        lemma_mod_bound((k as int) / (stride as int), ns@[a as int] as int);
        assert((k / stride) as int == (k as int) / (stride as int));
    }
    (k / stride) % ns[a]
}

} // verus!
// Find: a boolean sliding-window match over the same index arithmetic.

verus! {

/// Is the needle's shape incompatible with the haystack's, aligning the
/// trailing axes?
pub open spec fn find_mismatch(fs: Seq<usize>, s: Seq<usize>) -> bool {
    ||| fs.len() > s.len()
    ||| exists|j: int|
        0 <= j < fs.len() && j < s.len() && #[trigger] fs[fs.len() - 1 - j] > s[s.len() - 1 - j]
}

/// The needle's shape padded with leading 1s to the haystack's rank.
pub open spec fn padded(fs: Seq<usize>, rank: int) -> Seq<usize> {
    Seq::new(rank as nat, |i: int| if i < rank - fs.len() {
        1usize
    } else {
        fs[i - (rank - fs.len())]
    })
}

/// Does a window with corner cell `k` lie fully inside the haystack?
pub open spec fn corner_ok(k: int, s: Seq<usize>, fsp: Seq<usize>) -> bool {
    forall|i: int| 0 <= i < s.len() ==> #[trigger] dig(k, s, i) + fsp[i] <= s[i]
}

/// The haystack cell that needle cell `j` lands on in the window whose
/// corner is cell `k`.
pub open spec fn fsrc_from(k: int, j: int, s: Seq<usize>, fsp: Seq<usize>, a: int) -> int
    decreases s.len() - a,
{
    if a < 0 || a >= s.len() {
        0
    } else {
        (dig(k, s, a) + dig(j, fsp, a)) * prod(s.skip(a + 1)) + fsrc_from(k, j, s, fsp, a + 1)
    }
}

/// Does the window with corner cell `k` match the needle exactly?
pub open spec fn window_match<T>(
    k: int,
    s: Seq<usize>,
    fsp: Seq<usize>,
    hd: Seq<T>,
    nd: Seq<T>,
) -> bool {
    forall|j: int| 0 <= j < prod(fsp) ==> hd[#[trigger] fsrc_from(k, j, s, fsp, 0)] == nd[j]
}

pub proof fn lemma_fsrc_bound(k: int, j: int, s: Seq<usize>, fsp: Seq<usize>, a: int)
    requires
        0 <= a <= s.len(),
        forall|q: int| a <= q < s.len() ==> 0 <= #[trigger] dig(k, s, q) + dig(j, fsp, q) < s[q],
    ensures
        0 <= fsrc_from(k, j, s, fsp, a) < prod(s.skip(a)) || prod(s.skip(a)) <= 0,
    decreases s.len() - a,
{
    if a == s.len() {
        assert(s.skip(a) =~= Seq::<usize>::empty());
    } else {
        lemma_fsrc_bound(k, j, s, fsp, a + 1);
        let rl = prod(s.skip(a + 1));
        let c = dig(k, s, a) + dig(j, fsp, a);
        lemma_prod_nonneg(s.skip(a + 1));
        assert(prod(s.skip(a)) == s[a] * rl) by {
            assert(s.skip(a).skip(1) =~= s.skip(a + 1));
        }
        if rl > 0 {
            crate::array::mul_le_mono(c, s[a] as int - 1, rl);
            assert((s[a] - 1) * rl + rl == s[a] * rl) by (nonlinear_arith);
            crate::array::mul_le_mono(0, c, rl);
        } else {
            assert(s[a] * rl == 0) by (nonlinear_arith)
                requires
                    rl == 0,
            ;
        }
    }
}

/// Everything `find` promises of its result: `fs`/`fd` are the needle's
/// shape and data, `s`/`d` the haystack's.
pub open spec fn find_post<T: ArrayElem>(
    fs: Seq<usize>,
    fd: Seq<T>,
    s: Seq<usize>,
    d: Seq<T>,
    fill: Option<T>,
    r: Result<Array<u8>, ArrayError>,
) -> bool {
    let nrc: int = if fs.len() == 0 {
        1
    } else {
        fs[0] as int
    };
    let resized: Seq<usize> = if s.len() == 0 {
        seq![nrc as usize]
    } else {
        s.update(0, nrc as usize)
    };
    let s1: Seq<usize> = if find_mismatch(fs, s) && fill is Some {
        resized
    } else {
        s
    };
    let d1: Seq<T> = if find_mismatch(fs, s) && fill is Some {
        crate::reshape::reshape_data(d, prod(s1), fill)
    } else {
        d
    };
    let fsp = padded(fs, s1.len() as int);
    {
        &&& (find_mismatch(fs, s) && fill is Some && !suffix_fits(s1)) <==> r == Err::<
            Array<u8>,
            ArrayError,
        >(ArrayError::TooLarge)
        &&& !(find_mismatch(fs, s) && fill is Some && !suffix_fits(s1)) ==> r is Ok
        &&& r is Ok ==> r->Ok_0.wf() && r->Ok_0.shape@ == s1 && r->Ok_0.data@.len() == prod(s1)
        &&& (r is Ok && find_mismatch(fs, s) && fill is None) ==> forall|k: int|
            0 <= k < prod(s1) ==> r->Ok_0.data@[k] == 0u8
        &&& (r is Ok && !(find_mismatch(fs, s) && fill is None) && find_mismatch(fs, s1)) ==> forall|
            k: int,
        | 0 <= k < prod(s1) ==> r->Ok_0.data@[k] == 0u8
        &&& (r is Ok && !(find_mismatch(fs, s) && fill is None) && !find_mismatch(fs, s1))
            ==> forall|k: int|
            0 <= k < prod(s1) ==> r->Ok_0.data@[k] == (if corner_ok(k, s1, fsp) && window_match(
                k,
                s1,
                fsp,
                d1,
                fd,
            ) {
                1u8
            } else {
                0u8
            })
    }
}

impl<T: ArrayElem> Array<T> {
    /// Try to `find` this array in another: a boolean array marking, at each
    /// window corner of the haystack, whether the window matches this array
    /// exactly. An incompatible haystack is first extended along its leading
    /// axis with the fill value; without one the result is all zeros.
    #[verifier::rlimit(80)]
    pub fn find(&self, hay: &Array<T>, fill: Option<T>) -> (r: Result<Array<u8>, ArrayError>)
        requires
            self.wf(),
            hay.wf(),
        ensures
            find_post(self.shape@, self.data@, hay.shape@, hay.data@, fill, r),
    {
        let ghost fs = self.shape@;
        let ghost s0 = hay.shape@;
        // Decide compatibility, trailing axes aligned.
        let mismatch = {
            let mut mm = self.shape.len() > hay.shape.len();
            let mut j: usize = 0;
            while j < self.shape.len() && j < hay.shape.len()
                invariant
                    self.wf(),
                    hay.wf(),
                    j <= self.shape@.len(),
                    j <= hay.shape@.len(),
                    mm == (self.shape@.len() > hay.shape@.len() || exists|q: int|
                        0 <= q < j && q < hay.shape@.len() && #[trigger] self.shape@[self.shape@.len() - 1
                            - q] > hay.shape@[hay.shape@.len() - 1 - q]),
                decreases self.shape@.len() - j,
            {
                if self.shape[self.shape.len() - 1 - j] > hay.shape[hay.shape.len() - 1 - j] {
                    mm = true;
                }
                j = j + 1;
            }
            proof {
                if self.shape@.len() <= hay.shape@.len() {
                    assert(mm == find_mismatch(fs, s0)) by {
                        if exists|q: int|
                            0 <= q < fs.len() && q < s0.len() && #[trigger] fs[fs.len() - 1 - q]
                                > s0[s0.len() - 1 - q] {
                            let q = choose|q: int|
                                0 <= q < fs.len() && q < s0.len() && #[trigger] fs[fs.len() - 1
                                    - q] > s0[s0.len() - 1 - q];
                            assert(0 <= q < fs.len());
                        }
                    }
                }
            }
            mm
        };
        // Reconcile the shapes, extending the haystack with the fill value
        // when one is in scope.
        let mut hshape: Vec<usize>;
        let mut hdata: Vec<T>;
        if mismatch {
            match fill {
                None => {
                    // Degrade to an all-zero result of the haystack's shape.
                    let total = hay.data.len();
                    proof {
                        assert(s0.skip(0) =~= s0);
                    }
                    let mut zeros: Vec<u8> = Vec::new();
                    crate::array::extend_repeat(&mut zeros, 0u8, total);
                    let hs = crate::array::copy_range(&hay.shape, 0, hay.shape.len());
                    proof {
                        assert(hs@ =~= s0);
                        assert(zeros@ =~= Seq::new(total as nat, |i: int| 0u8));
                    }
                    return Ok(Array { shape: hs, data: zeros });
                },
                Some(f) => {
                    let nrc = self.row_count();
                    if hay.shape.len() == 0 {
                        hshape = Vec::new();
                        hshape.push(nrc);
                    } else {
                        hshape = crate::array::copy_range(&hay.shape, 0, hay.shape.len());
                        hshape.set(0, nrc);
                    }
                    proof {
                        if s0.len() == 0 {
                            assert(hshape@ =~= seq![self.row_count_spec() as usize]);
                        } else {
                            assert(hshape@ =~= s0.update(0, self.row_count_spec() as usize));
                        }
                    }
                    let target = match try_prod(&hshape) {
                        Some(t) => t,
                        None => {
                            return Err(ArrayError::TooLarge);
                        },
                    };
                    let hlen = hay.data.len();
                    if hlen >= target {
                        hdata = crate::array::copy_range(&hay.data, 0, target);
                        proof {
                            assert(hdata@ =~= crate::reshape::reshape_data(
                                hay.data@,
                                target as int,
                                fill,
                            ));
                        }
                    } else {
                        hdata = crate::array::copy_range(&hay.data, 0, hlen);
                        crate::array::extend_repeat(&mut hdata, f, target - hlen);
                        proof {
                            assert(hdata@ =~= crate::reshape::reshape_data(
                                hay.data@,
                                target as int,
                                fill,
                            ));
                        }
                    }
                },
            }
        } else {
            hshape = crate::array::copy_range(&hay.shape, 0, hay.shape.len());
            hdata = crate::array::copy_range(&hay.data, 0, hay.data.len());
            proof {
                assert(hshape@ =~= s0);
                assert(hdata@ =~= hay.data@);
            }
        }
        let ghost s1 = hshape@;
        let ghost d1 = hdata@;
        // Pad the needle's shape to the haystack's rank.
        let rank = hshape.len();
        let flen = self.shape.len();
        let mut fsp: Vec<usize> = Vec::new();
        let mut still = flen > rank;
        if !still {
            let mut i: usize = 0;
            while i < rank
                invariant
                    i <= rank == s1.len(),
                    flen == fs.len() <= rank,
                    self.wf(),
                    fs == self.shape@,
                    fsp@ =~= padded(fs, rank as int).take(i as int),
                decreases rank - i,
            {
                if i < rank - flen {
                    fsp.push(1);
                } else {
                    fsp.push(self.shape[i - (rank - flen)]);
                }
                i = i + 1;
            }
            proof {
                assert(fsp@ =~= padded(fs, rank as int));
            }
            // With the ranks aligned, a mismatch is a padded dimension
            // overrunning its axis.
            let mut j: usize = 0;
            while j < rank
                invariant
                    j <= rank == s1.len() == fsp@.len(),
                    flen == fs.len() <= rank,
                    fsp@ == padded(fs, rank as int),
                    s1 == hshape@,
                    still == exists|q: int|
                        0 <= q < j && #[trigger] fsp@[q] > s1[q],
                decreases rank - j,
            {
                if fsp[j] > hshape[j] {
                    proof {
                        assert(fsp@[j as int] > s1[j as int]);
                    }
                    still = true;
                }
                j = j + 1;
            }
            proof {
                // Padded overruns and trailing-aligned overruns coincide.
                lemma_padded_mismatch(fs, s1);
            }
        }
        let total = match try_prod(&hshape) {
            Some(t) => t,
            None => {
                proof {
                    assert(suffix_fits(s1));
                }
                return Err(ArrayError::TooLarge);
            },
        };
        if still {
            let mut zeros: Vec<u8> = Vec::new();
            crate::array::extend_repeat(&mut zeros, 0u8, total);
            proof {
                assert(zeros@ =~= Seq::new(total as nat, |i: int| 0u8));
                if flen <= rank && !find_mismatch(fs, s1) {
                    // The overrun axis must have length zero, so there are
                    // no cells at all.
                    assert(prod(s1) == 0);
                }
            }
            return Ok(Array { shape: hshape, data: zeros });
        }
        // Test every window corner.
        let ghost gfsp = fsp@;
        let ndl = match try_prod(&fsp) {
            Some(t) => t,
            None => {
                proof {
                    assert forall|p: int| 0 <= p < gfsp.len() implies #[trigger] gfsp[p]
                        <= s1[p] by {}
                    crate::takedrop::lemma_suffix_fits_pointwise(gfsp, s1);
                    assert(false);
                }
                return Err(ArrayError::TooLarge);
            },
        };
        proof {
            // The padded needle holds exactly the needle's elements.
            crate::reshape::lemma_suffix_fits_ones(rank - flen, fs);
            assert(padded(fs, rank as int) =~= crate::reshape::ones(rank - flen) + fs);
            assert(self.data@.len() == ndl);
            if total > 0 {
                lemma_prod_zero(s1);
            }
        }
        let mut out: Vec<u8> = Vec::new();
        let mut k: usize = 0;
        while k < total
            invariant
                k <= total,
                self.wf(),
                fs == self.shape@,
                rank == s1.len() == hshape@.len() <= usize::MAX,
                flen == fs.len() <= rank,
                gfsp == fsp@,
                gfsp == padded(fs, rank as int),
                s1 == hshape@,
                d1 == hdata@,
                suffix_fits(s1),
                total == prod(s1),
                d1.len() == total,
                ndl == prod(gfsp) == self.data@.len(),
                forall|p: int| 0 <= p < rank ==> #[trigger] gfsp[p] <= s1[p],
                total > 0 ==> forall|p: int| 0 <= p < rank ==> #[trigger] s1[p] > 0,
                out@.len() == k,
                forall|p: int|
                    0 <= p < k ==> out@[p] == (if corner_ok(p, s1, gfsp) && window_match(
                        p,
                        s1,
                        gfsp,
                        d1,
                        self.data@,
                    ) {
                        1u8
                    } else {
                        0u8
                    }),
            decreases total - k,
        {
            // Is the window fully inside?
            let mut inside = true;
            let mut i: usize = 0;
            while i < rank
                invariant
                    i <= rank == s1.len() == hshape@.len() <= usize::MAX,
                    k < total == prod(s1),
                    suffix_fits(s1),
                    s1 == hshape@,
                    gfsp == fsp@,
                    gfsp.len() == rank,
                    forall|p: int| 0 <= p < rank ==> #[trigger] s1[p] > 0,
                    inside == forall|p: int|
                        0 <= p < i ==> #[trigger] dig(k as int, s1, p) + gfsp[p] <= s1[p],
                decreases rank - i,
            {
                let dk = digit_exec(k, &hshape, i, total);
                if fsp[i] > hshape[i] - dk {
                    proof {
                        assert(dig(k as int, s1, i as int) + gfsp[i as int] > s1[i as int]);
                    }
                    inside = false;
                }
                i = i + 1;
            }
            let mut flag: u8 = 0;
            if inside {
                proof {
                    assert(corner_ok(k as int, s1, gfsp));
                }
                // Compare the window cell by cell.
                let mut all = true;
                let mut j: usize = 0;
                while j < ndl
                    invariant
                        j <= ndl == prod(gfsp) == self.data@.len(),
                        k < total == prod(s1),
                        self.wf(),
                        rank == s1.len() == hshape@.len() <= usize::MAX,
                        gfsp == fsp@,
                        gfsp.len() == rank,
                        s1 == hshape@,
                        d1 == hdata@,
                        d1.len() == total,
                        suffix_fits(s1),
                        corner_ok(k as int, s1, gfsp),
                        forall|p: int| 0 <= p < rank ==> #[trigger] gfsp[p] <= s1[p],
                        forall|p: int| 0 <= p < rank ==> #[trigger] s1[p] > 0,
                        all == forall|q: int|
                            0 <= q < j ==> d1[#[trigger] fsrc_from(
                                k as int,
                                q,
                                s1,
                                gfsp,
                                0,
                            )] == self.data@[q],
                    decreases ndl - j,
                {
                    // Recombine the digits of `j` with the haystack strides.
                    let mut src: usize = 0;
                    let mut a: usize = rank;
                    proof {
                        assert(s1.skip(rank as int) =~= Seq::<usize>::empty());
                        if ndl > 0 {
                            lemma_prod_zero(gfsp);
                        }
                    }
                    while a > 0
                        invariant
                            a <= rank == s1.len() == hshape@.len() <= usize::MAX,
                            k < total == prod(s1),
                            j < ndl == prod(gfsp),
                            gfsp == fsp@,
                            gfsp.len() == rank,
                            s1 == hshape@,
                            suffix_fits(s1),
                            corner_ok(k as int, s1, gfsp),
                            forall|p: int| 0 <= p < rank ==> #[trigger] gfsp[p] <= s1[p],
                            forall|p: int| 0 <= p < rank ==> #[trigger] s1[p] > 0,
                            forall|p: int| 0 <= p < rank ==> #[trigger] gfsp[p] > 0,
                            forall|q2: int|
                                a <= q2 < rank ==> 0 <= #[trigger] dig(k as int, s1, q2) + dig(
                                    j as int,
                                    gfsp,
                                    q2,
                                ) < s1[q2],
                            src == fsrc_from(k as int, j as int, s1, gfsp, a as int),
                            0 <= src < prod(s1.skip(a as int)) || a == rank,
                        decreases a,
                    {
                        a = a - 1;
                        proof {
                            crate::shape::lemma_suffix_fits_skip(s1, a + 1);
                            lemma_prod_zero(s1.skip(a + 1));
                            assert forall|p: int|
                                0 <= p < s1.skip(a + 1).len() implies #[trigger] s1.skip(a + 1)[p]
                                > 0 by {
                                assert(s1.skip(a + 1)[p] == s1[a + 1 + p]);
                            }
                            lemma_prod_nonneg(s1.skip(a + 1));
                        }
                        let rl = suffix_product(&hshape, a + 1);
                        let ck = digit_exec(k, &hshape, a, total);
                        let cj = digit_exec_f(j, &fsp, a, ndl, &hshape);
                        let c = ck + cj;
                        proof {
                            assert(dig(k as int, s1, a as int) + gfsp[a as int] <= s1[a as int]);
                            assert(cj < gfsp[a as int]);
                            assert(0 <= c < s1[a as int]);
                            lemma_fsrc_bound(k as int, j as int, s1, gfsp, a as int);
                            assert(s1.skip(a as int).skip(1) =~= s1.skip(a + 1));
                            assert(prod(s1.skip(a as int)) == s1[a as int] * prod(s1.skip(a + 1)));
                            crate::array::mul_le_mono(c as int, s1[a as int] as int - 1, rl as int);
                            assert((s1[a as int] - 1) * rl + rl == s1[a as int] * rl)
                                by (nonlinear_arith);
                            crate::array::mul_le_mono(0, c as int, rl as int);
                            assert(s1.skip(0) =~= s1);
                            assert(prod(s1) <= usize::MAX);
                            assert(prod(s1.skip(a as int)) <= usize::MAX);
                            if a + 1 == rank {
                                assert(s1.skip(a + 1) =~= Seq::<usize>::empty());
                            }
                        }
                        src = c * rl + src;
                    }
                    proof {
                        assert(s1.skip(0) =~= s1);
                        assert(src < d1.len());
                    }
                    let hx = hdata[src];
                    let nx = self.data[j];
                    if !hx.eq_elem(&nx) {
                        all = false;
                    }
                    j = j + 1;
                }
                if all {
                    proof {
                        assert(window_match(k as int, s1, gfsp, d1, self.data@));
                    }
                    flag = 1;
                } else {
                    proof {
                        let q = choose|q: int|
                            0 <= q < ndl && d1[#[trigger] fsrc_from(
                                k as int,
                                q,
                                s1,
                                gfsp,
                                0,
                            )] != self.data@[q];
                        assert(!window_match(k as int, s1, gfsp, d1, self.data@));
                    }
                }
            } else {
                proof {
                    let p = choose|p: int|
                        0 <= p < rank && !(#[trigger] dig(k as int, s1, p) + gfsp[p] <= s1[p]);
                    assert(!corner_ok(k as int, s1, gfsp));
                }
            }
            out.push(flag);
            k = k + 1;
        }
        Ok(Array { shape: hshape, data: out })
    }
}

/// Extract digit `a` of index `j` over the padded needle shape.
fn digit_exec_f(j: usize, fsp: &Vec<usize>, a: usize, ndl: usize, hshape: &Vec<usize>) -> (r:
    usize)
    requires
        a < fsp@.len(),
        fsp@.len() == hshape@.len(),
        suffix_fits(hshape@),
        forall|p: int| 0 <= p < fsp@.len() ==> #[trigger] fsp@[p] <= hshape@[p],
        forall|p: int| 0 <= p < fsp@.len() ==> #[trigger] fsp@[p] > 0,
        j < ndl == prod(fsp@),
    ensures
        r == dig(j as int, fsp@, a as int),
        r < fsp@[a as int],
{
    proof {
        crate::takedrop::lemma_suffix_fits_pointwise(fsp@, hshape@);
    }
    digit_exec(j, fsp, a, ndl)
}

/// With ranks aligned, a trailing-axis overrun is exactly a padded-axis
/// overrun.
proof fn lemma_padded_mismatch(fs: Seq<usize>, s: Seq<usize>)
    requires
        fs.len() <= s.len(),
    ensures
        find_mismatch(fs, s) ==> exists|q: int|
            0 <= q < s.len() && #[trigger] padded(fs, s.len() as int)[q] > s[q],
        (exists|q: int| 0 <= q < s.len() && #[trigger] padded(fs, s.len() as int)[q] > s[q])
            ==> find_mismatch(fs, s) || prod(s) == 0,
{
    let rank = s.len() as int;
    let p = padded(fs, rank);
    if find_mismatch(fs, s) {
        let j = choose|j: int|
            0 <= j < fs.len() && j < s.len() && #[trigger] fs[fs.len() - 1 - j] > s[s.len() - 1
                - j];
        let q = rank - 1 - j;
        assert(p[q] == fs[fs.len() - 1 - j]);
        assert(p[q] > s[q]);
    }
    if exists|q: int| 0 <= q < s.len() && #[trigger] padded(fs, s.len() as int)[q] > s[q] {
        let q = choose|q: int| 0 <= q < s.len() && #[trigger] p[q] > s[q];
        if q < rank - fs.len() {
            // A padded 1 only overruns a zero-length axis.
            assert(p[q] == 1);
            assert(s[q] == 0);
            lemma_prod_zero(s);
        } else {
            let j = rank - 1 - q;
            assert(fs[fs.len() - 1 - j] == p[q]);
            assert(0 <= j < fs.len() && j < s.len());
        }
    }
}

} // verus!
