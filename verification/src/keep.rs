//! Keep: per-row replication and filtering along the leading axis, and its
//! inverse.

use vstd::prelude::*;

use crate::array::{extend_range, extend_repeat_range, row_at, Array};
use crate::elem::ArrayElem;
use crate::error::ArrayError;
use crate::shape::{
    lemma_prod_nonneg, lemma_repeat_seq_len, lemma_suffix_fits_cons, lemma_suffix_fits_skip,
    lemma_sum_last, lemma_sum_monotone, lemma_sum_nonneg, prod, repeat_seq, suffix_fits, sum,
};

verus! {

/// Rows `i..` of a buffer of rows of length `rl`, each row `c` repeated
/// `counts[c]` times, end to end.
pub open spec fn keep_rows<T>(counts: Seq<usize>, rl: int, d: Seq<T>, i: int) -> Seq<T>
    decreases counts.len() - i,
{
    if i < 0 || i >= counts.len() {
        Seq::empty()
    } else {
        repeat_seq(row_at(d, rl, i), counts[i] as int) + keep_rows(counts, rl, d, i + 1)
    }
}

/// The counts a keep works with once reconciled with the row count: the
/// caller's counts, extended with a non-negative integer fill value when they
/// fall short.
pub open spec fn keep_amount(counts: Seq<usize>, rc: int, num_fill: Option<i64>) -> Seq<usize> {
    if counts.len() < rc {
        counts + Seq::new((rc - counts.len()) as nat, |i: int| (num_fill->0) as usize)
    } else {
        counts
    }
}

/// The complete meaning of `keep` with a counts list.
pub open spec fn list_keep_spec<T>(
    s: Seq<usize>,
    d: Seq<T>,
    counts: Seq<usize>,
    num_fill: Option<i64>,
) -> Result<(Seq<usize>, Seq<T>), ArrayError> {
    let rc: int = if s.len() == 0 {
        1
    } else {
        s[0] as int
    };
    let rl: int = if s.len() == 0 {
        1
    } else {
        prod(s.skip(1))
    };
    if counts.len() < rc && num_fill is None {
        Err(
            ArrayError::KeepShapeMismatch {
                counts_len: counts.len() as usize,
                row_count: rc as usize,
                fill_available: false,
            },
        )
    } else if counts.len() < rc && num_fill->0 < 0 {
        Err(ArrayError::BadKeepFill { fill: num_fill->0 })
    } else if counts.len() > rc {
        Err(
            ArrayError::KeepShapeMismatch {
                counts_len: counts.len() as usize,
                row_count: rc as usize,
                fill_available: num_fill is Some,
            },
        )
    } else {
        let amount = keep_amount(counts, rc, num_fill);
        let total = sum(amount);
        if total > usize::MAX || total * rl > usize::MAX {
            Err(ArrayError::TooLarge)
        } else {
            let ns = seq![total as usize] + (if s.len() == 0 {
                Seq::<usize>::empty()
            } else {
                s.skip(1)
            });
            Ok((ns, keep_rows(amount, rl, d, 0)))
        }
    }
}

impl<T: ArrayElem> Array<T> {
    /// `keep` this array by replicating it as the rows of a new array
    /// (scalar counts): count 0 empties the leading axis, count 1 is a no-op,
    /// higher counts repeat the data.
    pub fn scalar_keep(self, count: usize) -> (r: Array<T>)
        requires
            self.wf(),
            count * self.data@.len() <= usize::MAX,
            self.rank_spec() > 0 ==> count * self.shape@[0] <= usize::MAX,
        ensures
            r.wf(),
            self.rank_spec() == 0 ==> r.shape@ == seq![count],
            self.rank_spec() > 0 ==> r.shape@ == self.shape@.update(
                0,
                (count * self.shape@[0]) as usize,
            ),
            r.data@ == repeat_seq(self.data@, count as int),
    {
        let mut arr = self;
        let len = arr.data.len();
        let mut out: Vec<T> = Vec::new();
        extend_repeat_range(&mut out, &arr.data, 0, len, count);
        proof {
            assert(arr.data@.subrange(0, len as int) =~= arr.data@);
            lemma_repeat_seq_len(arr.data@, count as int);
        }
        arr.data = out;
        if arr.shape.len() == 0 {
            arr.shape.push(count);
            proof {
                crate::shape::lemma_prod_singleton(arr.shape@);
                assert forall|i: int| 0 <= i <= arr.shape@.len() implies prod(
                    #[trigger] arr.shape@.skip(i),
                ) <= usize::MAX by {
                    if i == 0 {
                        assert(arr.shape@.skip(0) =~= arr.shape@);
                    } else {
                        assert(arr.shape@.skip(i) =~= Seq::<usize>::empty());
                    }
                }
            }
        } else {
            let d0 = arr.shape[0];
            arr.shape.set(0, count * d0);
            proof {
                let ns = arr.shape@;
                let os = self.shape@;
                assert(ns.skip(1) =~= os.skip(1));
                assert(prod(ns) == ns[0] * prod(ns.skip(1)));
                assert(prod(os) == os[0] * prod(os.skip(1)));
                assert((count * os[0]) * prod(os.skip(1)) == count * (os[0] * prod(os.skip(1))))
                    by (nonlinear_arith);
                lemma_repeat_seq_len(self.data@, count as int);
                assert forall|i: int| 0 <= i <= ns.len() implies prod(#[trigger] ns.skip(i))
                    <= usize::MAX by {
                    if i == 0 {
                        assert(ns.skip(0) =~= ns);
                        assert(prod(ns) == count * self.data@.len());
                    } else {
                        assert(ns.skip(i) =~= os.skip(i));
                    }
                }
            }
        }
        arr
    }

    /// `keep` this array with a list of per-row counts: row `i` of the result
    /// repeats row `i` of the input `counts[i]` times. Counts shorter than
    /// the row count are extended with a non-negative integer fill value when
    /// one is in scope; counts longer than the row count are rejected.
    pub fn list_keep(self, counts: &Vec<usize>, num_fill: Option<i64>) -> (r: Result<
        Array<T>,
        ArrayError,
    >)
        requires
            self.wf(),
        ensures
            match list_keep_spec(self.shape@, self.data@, counts@, num_fill) {
                Ok((ns, nd)) => r is Ok && r->Ok_0.wf() && r->Ok_0.shape@ == ns && r->Ok_0.data@
                    == nd,
                Err(e) => r == Err::<Array<T>, ArrayError>(e),
            },
    {
        let rc = self.row_count();
        let rl = self.row_len();
        proof {
            if self.shape@.len() > 0 {
                self.lemma_rows_cover();
            }
            lemma_prod_nonneg(self.shape@.skip(1));
        }
        // Reconcile the counts with the row count.
        let mut amount: Vec<usize>;
        if counts.len() < rc {
            match num_fill {
                None => {
                    return Err(
                        ArrayError::KeepShapeMismatch {
                            counts_len: counts.len(),
                            row_count: rc,
                            fill_available: false,
                        },
                    );
                },
                Some(f) => {
                    if f < 0 {
                        return Err(ArrayError::BadKeepFill { fill: f });
                    }
                    let fu = #[verifier::truncate] (f as usize);
                    let clen = counts.len();
                    amount = crate::array::copy_range(counts, 0, clen);
                    crate::array::extend_repeat(&mut amount, fu, rc - clen);
                    proof {
                        assert(amount@ =~= keep_amount(counts@, rc as int, num_fill));
                    }
                },
            }
        } else if counts.len() > rc {
            return Err(
                ArrayError::KeepShapeMismatch {
                    counts_len: counts.len(),
                    row_count: rc,
                    fill_available: num_fill.is_some(),
                },
            );
        } else {
            let clen = counts.len();
            amount = crate::array::copy_range(counts, 0, clen);
            proof {
                assert(amount@ =~= keep_amount(counts@, rc as int, num_fill));
            }
        }
        // Total rows kept, and the space they need.
        let alen = amount.len();
        let total = match crate::shape::try_sum(&amount, alen) {
            Some(t) => t,
            None => {
                proof {
                    assert(amount@.take(alen as int) =~= amount@);
                }
                return Err(ArrayError::TooLarge);
            },
        };
        proof {
            assert(amount@.take(alen as int) =~= amount@);
        }
        let space = match total.checked_mul(rl) {
            Some(sp) => sp,
            None => {
                return Err(ArrayError::TooLarge);
            },
        };
        // Build the kept data, row by row.
        let mut out: Vec<T> = Vec::new();
        let mut i: usize = 0;
        while i < alen
            invariant
                i <= alen,
                alen == amount@.len() == rc,
                rc == self.row_count_spec(),
                rl == self.row_len_spec(),
                self.wf(),
                space == sum(amount@) * rl <= usize::MAX,
                out@.len() == sum(amount@.take(i as int)) * rl,
                out@ + keep_rows(amount@, rl as int, self.data@, i as int) =~= keep_rows(
                    amount@,
                    rl as int,
                    self.data@,
                    0,
                ),
            decreases alen - i,
        {
            let c = amount[i];
            proof {
                lemma_sum_last(amount@.take(i + 1));
                assert(amount@.take(i + 1).take(i as int) =~= amount@.take(i as int));
                assert(amount@.take(i + 1)[i as int] == amount@[i as int]);
                lemma_sum_monotone(amount@, i + 1, alen as int);
                assert(amount@.take(alen as int) =~= amount@);
                lemma_sum_nonneg(amount@.take(i as int));
                let a = sum(amount@.take(i as int));
                let b = sum(amount@.take(i + 1));
                let t = sum(amount@);
                assert(a + c == b);
                crate::array::mul_le_mono(b, t, rl as int);
                assert((a + c) * rl == a * rl + c * rl) by (nonlinear_arith);
                if self.shape@.len() > 0 {
                    self.lemma_in_row_bound(i as int);
                    assert(self.shape@.skip(0) =~= self.shape@);
                    assert(self.data@.len() <= usize::MAX);
                } else {
                    assert(rl == 1 && rc == 1 && i == 0);
                    assert(self.data@.len() == 1);
                }
                lemma_repeat_seq_len(
                    self.data@.subrange((i * rl) as int, (i * rl + rl) as int),
                    c as int,
                );
            }
            extend_repeat_range(&mut out, &self.data, i * rl, rl, c);
            proof {
                assert(row_at(self.data@, rl as int, i as int) == self.data@.subrange(
                    (i * rl) as int,
                    (i * rl + rl) as int,
                ));
            }
            i = i + 1;
        }
        proof {
            assert(out@ =~= keep_rows(amount@, rl as int, self.data@, 0));
        }
        // Assemble the result shape.
        let mut ns: Vec<usize> = Vec::new();
        ns.push(total);
        if self.shape.len() > 0 {
            let slen = self.shape.len();
            extend_range(&mut ns, &self.shape, 1, slen - 1);
            proof {
                assert(self.shape@.subrange(1, slen as int) =~= self.shape@.skip(1));
            }
        }
        proof {
            let tail: Seq<usize> = if self.shape@.len() == 0 {
                Seq::<usize>::empty()
            } else {
                self.shape@.skip(1)
            };
            assert(ns@ =~= seq![total] + tail);
            if self.shape@.len() == 0 {
                assert(suffix_fits(Seq::<usize>::empty())) by {
                    assert forall|i: int| 0 <= i <= 0 implies prod(
                        #[trigger] Seq::<usize>::empty().skip(i),
                    ) <= usize::MAX by {
                        assert(Seq::<usize>::empty().skip(i) =~= Seq::<usize>::empty());
                    }
                }
                assert(prod(tail) == 1);
            } else {
                lemma_suffix_fits_skip(self.shape@, 1);
            }
            assert(total * prod(tail) <= usize::MAX);
            lemma_suffix_fits_cons(total, tail);
        }
        Ok(Array { shape: ns, data: out })
    }
}

} // verus!
// Undoing a keep: only boolean (0/1) counts can be inverted. Kept positions
// take their rows from the transformed array, dropped positions keep the rows
// of the array being restored into.

verus! {

/// Do all counts lie in `{0, 1}`?
pub open spec fn all_boolean(counts: Seq<usize>) -> bool {
    forall|i: int| 0 <= i < counts.len() ==> #[trigger] counts[i] <= 1
}

/// Rows `i..n` of the reconstruction: row `i` comes from the kept data (its
/// next unused row, `j`) where `counts[i]` is 1, and from the restore target
/// where it is 0.
pub open spec fn merge_keep<T>(
    counts: Seq<usize>,
    n: int,
    rl: int,
    kd: Seq<T>,
    id: Seq<T>,
    i: int,
    j: int,
) -> Seq<T>
    decreases n - i,
{
    if i < 0 || i >= n {
        Seq::empty()
    } else if counts[i] == 0 {
        row_at(id, rl, i) + merge_keep(counts, n, rl, kd, id, i + 1, j)
    } else {
        row_at(kd, rl, j) + merge_keep(counts, n, rl, kd, id, i + 1, j + 1)
    }
}

/// The complete meaning of `unkeep` of a kept array (shape `ks`, data `kd`)
/// with `counts` into a target (shape `is_`, data `id_`).
pub open spec fn unkeep_spec<T>(
    counts: Seq<usize>,
    ks: Seq<usize>,
    kd: Seq<T>,
    is_: Seq<usize>,
    id_: Seq<T>,
) -> Result<(Seq<usize>, Seq<T>), ArrayError> {
    let krc = ks[0] as int;
    let irc = is_[0] as int;
    let rl = prod(is_.skip(1));
    let n: int = if counts.len() < irc {
        counts.len() as int
    } else {
        irc
    };
    let need = sum(counts.take(n));
    if !all_boolean(counts) {
        Err(ArrayError::NonBooleanUnkeep)
    } else if need >= 1 && krc == 0 {
        Err(ArrayError::KeptRowsMissing)
    } else if need >= 1 && ks.skip(1) != is_.skip(1) {
        Err(ArrayError::KeptShapeChanged)
    } else if need > krc {
        Err(ArrayError::KeptRowsMissing)
    } else {
        Ok((seq![n as usize] + is_.skip(1), merge_keep(counts, n, rl, kd, id_, 0, 0)))
    }
}

/// Boolean counts sum to at most their number.
proof fn lemma_bool_sum_le(s: Seq<usize>, n: int)
    requires
        0 <= n <= s.len(),
        all_boolean(s),
    ensures
        sum(s.take(n)) <= n,
    decreases n,
{
    if n > 0 {
        lemma_bool_sum_le(s, n - 1);
        lemma_sum_last(s.take(n));
        assert(s.take(n).take(n - 1) =~= s.take(n - 1));
    }
}

impl<T: ArrayElem> Array<T> {
    /// Undo a keep: walk kept and dropped positions in original order,
    /// substituting edited rows from this (the kept, possibly edited) array
    /// for kept positions and rows of `into` for dropped positions.
    pub fn unkeep(self, counts: &Vec<usize>, into: Array<T>) -> (r: Result<Array<T>, ArrayError>)
        requires
            self.wf(),
            into.wf(),
            self.rank_spec() > 0,
            into.rank_spec() > 0,
        ensures
            match unkeep_spec(counts@, self.shape@, self.data@, into.shape@, into.data@) {
                Ok((ns, nd)) => r is Ok && r->Ok_0.wf() && r->Ok_0.shape@ == ns && r->Ok_0.data@
                    == nd,
                Err(e) => r == Err::<Array<T>, ArrayError>(e),
            },
    {
        // Counts must be boolean.
        let mut i: usize = 0;
        while i < counts.len()
            invariant
                i <= counts@.len(),
                forall|q: int| 0 <= q < i ==> #[trigger] counts@[q] <= 1,
            decreases counts@.len() - i,
        {
            if counts[i] > 1 {
                return Err(ArrayError::NonBooleanUnkeep);
            }
            i = i + 1;
        }
        let irc = into.row_count();
        let krc = self.row_count();
        let rl = into.row_len();
        let n: usize = if counts.len() < irc {
            counts.len()
        } else {
            irc
        };
        let need = match crate::shape::try_sum(counts, n) {
            Some(t) => t,
            None => {
                proof {
                    lemma_bool_sum_le(counts@, n as int);
                }
                return Err(ArrayError::NonBooleanUnkeep);
            },
        };
        if need >= 1 && krc == 0 {
            return Err(ArrayError::KeptRowsMissing);
        }
        if need >= 1 && !crate::array::tails_equal(&self.shape, &into.shape, 1, 1) {
            return Err(ArrayError::KeptShapeChanged);
        }
        if need > krc {
            return Err(ArrayError::KeptRowsMissing);
        }
        // Reconstruct row by row.
        proof {
            into.lemma_rows_cover();
            assert(into.shape@.skip(0) =~= into.shape@);
            if need >= 1 {
                self.lemma_rows_cover();
            }
        }
        let mut out: Vec<T> = Vec::new();
        let mut i: usize = 0;
        let mut j: usize = 0;
        while i < n
            invariant
                i <= n,
                n <= counts@.len(),
                n <= into.row_count_spec(),
                all_boolean(counts@),
                j == sum(counts@.take(i as int)),
                j <= need,
                need == sum(counts@.take(n as int)),
                need <= self.row_count_spec(),
                self.wf(),
                into.wf(),
                self.rank_spec() > 0,
                into.rank_spec() > 0,
                rl == into.row_len_spec(),
                need >= 1 ==> self.shape@.skip(1) == into.shape@.skip(1),
                out@.len() == i * rl,
                out@ + merge_keep(
                    counts@,
                    n as int,
                    rl as int,
                    self.data@,
                    into.data@,
                    i as int,
                    j as int,
                ) =~= merge_keep(counts@, n as int, rl as int, self.data@, into.data@, 0, 0),
            decreases n - i,
        {
            proof {
                lemma_sum_last(counts@.take(i + 1));
                assert(counts@.take(i + 1).take(i as int) =~= counts@.take(i as int));
                assert(counts@.take(i + 1)[i as int] == counts@[i as int]);
                lemma_sum_monotone(counts@, i + 1, n as int);
                into.lemma_in_row_bound(i as int);
                into.lemma_rows_cover();
                crate::array::mul_le_mono(i as int + 1, n as int, rl as int);
                crate::array::mul_le_mono(n as int, into.row_count_spec(), rl as int);
                assert((i + 1) * rl == i * rl + rl) by (nonlinear_arith);
                assert(into.shape@.skip(0) =~= into.shape@);
                assert(into.data@.len() <= usize::MAX);
            }
            if counts[i] == 0 {
                crate::array::extend_range(&mut out, &into.data, i * rl, rl);
            } else {
                proof {
                    assert(j < self.row_count_spec());
                    assert(self.row_len_spec() == into.row_len_spec());
                    self.lemma_in_row_bound(j as int);
                    self.lemma_rows_cover();
                    assert(self.shape@.skip(0) =~= self.shape@);
                    assert(self.data@.len() <= usize::MAX);
                }
                crate::array::extend_range(&mut out, &self.data, j * rl, rl);
                j = j + 1;
            }
            i = i + 1;
        }
        proof {
            assert(out@ =~= merge_keep(
                counts@,
                n as int,
                rl as int,
                self.data@,
                into.data@,
                0,
                0,
            ));
        }
        let mut ns: Vec<usize> = Vec::new();
        ns.push(n);
        let islen = into.shape.len();
        crate::array::extend_range(&mut ns, &into.shape, 1, islen - 1);
        proof {
            assert(into.shape@.subrange(1, islen as int) =~= into.shape@.skip(1));
            assert(ns@ =~= seq![n] + into.shape@.skip(1));
            lemma_suffix_fits_skip(into.shape@, 1);
            crate::array::mul_le_mono(n as int, into.row_count_spec(), rl as int);
            into.lemma_rows_cover();
            assert(into.shape@.skip(0) =~= into.shape@);
            lemma_suffix_fits_cons(n, into.shape@.skip(1));
        }
        Ok(Array { shape: ns, data: out })
    }
}

} // verus!
