//! Membership and lookup: `member`, `index_of` and `progressive_index_of`.
//!
//! All three compare rows for exact element-wise equality, align mismatched
//! ranks by recursing on the higher-ranked side, and signal "not found" with
//! the row count, one past the last valid position.

use vstd::prelude::*;

use crate::array::{extend_range, row_at, Array};
use crate::elem::ArrayElem;
use crate::error::ArrayError;
use crate::shape::{lemma_prod_nonneg, prod, suffix_fits, try_prod};

verus! {

/// The first row of `od` equal to `row`, or `rc` when none is.
pub open spec fn first_row_idx<T>(rc: int, rl: int, od: Seq<T>, row: Seq<T>, j: int) -> int
    decreases rc - j,
{
    if j < 0 || j >= rc {
        rc
    } else if row_at(od, rl, j) == row {
        j
    } else {
        first_row_idx(rc, rl, od, row, j + 1)
    }
}

/// The first not-yet-consumed row of `od` equal to `row`, or `rc`.
pub open spec fn prog_first<T>(
    rc: int,
    rl: int,
    od: Seq<T>,
    row: Seq<T>,
    used: Seq<bool>,
    j: int,
) -> int
    decreases rc - j,
{
    if j < 0 || j >= rc {
        rc
    } else if row_at(od, rl, j) == row && !used[j] {
        j
    } else {
        prog_first(rc, rl, od, row, used, j + 1)
    }
}

/// The shape every one of the three lookups produces.
pub open spec fn lookup_shape(es: Seq<usize>, os: Seq<usize>) -> Seq<usize>
    decreases es.len() + os.len(),
{
    if es.len() == os.len() {
        if es.len() == 0 {
            Seq::empty()
        } else {
            es.take(1)
        }
    } else if es.len() > os.len() {
        seq![es[0]] + lookup_shape(es.skip(1), os)
    } else if os.len() - es.len() == 1 {
        Seq::empty()
    } else {
        seq![os[0]] + lookup_shape(es, os.skip(1))
    }
}

/// The row count and row length an array's shape gives its leading axis.
pub open spec fn rc_of(s: Seq<usize>) -> int {
    if s.len() == 0 {
        1
    } else {
        s[0] as int
    }
}

pub open spec fn rl_of(s: Seq<usize>) -> int {
    if s.len() == 0 {
        1
    } else {
        prod(s.skip(1))
    }
}

/// The data `member` produces.
pub open spec fn member_data<T>(es: Seq<usize>, ed: Seq<T>, os: Seq<usize>, od: Seq<T>) -> Seq<u8>
    decreases es.len() + os.len(), 1int, 0int,
{
    if es.len() == os.len() {
        member_rows(ed, rl_of(es), os, od, 0, rc_of(es))
    } else if es.len() > os.len() {
        member_cat_e(es, ed, os, od, 0)
    } else if os.len() - es.len() == 1 {
        seq![
            if os.skip(1) == es && exists|j: int|
                0 <= j < rc_of(os) && row_at(od, rl_of(os), j) == ed {
                1u8
            } else {
                0u8
            },
        ]
    } else {
        member_cat_o(es, ed, os, od, 0)
    }
}

/// One membership bit per row `i..end` of the elements.
pub open spec fn member_rows<T>(
    ed: Seq<T>,
    erl: int,
    os: Seq<usize>,
    od: Seq<T>,
    i: int,
    end: int,
) -> Seq<u8>
    decreases end - i,
{
    if i < 0 || i >= end {
        Seq::empty()
    } else {
        seq![
            if exists|j: int|
                0 <= j < rc_of(os) && row_at(od, rl_of(os), j) == row_at(ed, erl, i) {
                1u8
            } else {
                0u8
            },
        ] + member_rows(ed, erl, os, od, i + 1, end)
    }
}

/// Recursion on the elements' rows when their rank is higher.
pub open spec fn member_cat_e<T>(es: Seq<usize>, ed: Seq<T>, os: Seq<usize>, od: Seq<T>, i: int) -> Seq<u8>
    decreases es.len() + os.len(), 0int, rc_of(es) - i,
{
    if es.len() <= os.len() || !(0 <= i < rc_of(es)) {
        Seq::empty()
    } else {
        member_data(es.skip(1), row_at(ed, rl_of(es), i), os, od) + member_cat_e(
            es,
            ed,
            os,
            od,
            i + 1,
        )
    }
}

/// Recursion on the target's rows when its rank is higher by two or more.
pub open spec fn member_cat_o<T>(es: Seq<usize>, ed: Seq<T>, os: Seq<usize>, od: Seq<T>, i: int) -> Seq<u8>
    decreases es.len() + os.len(), 0int, rc_of(os) - i,
{
    if os.len() <= es.len() || !(0 <= i < rc_of(os)) {
        Seq::empty()
    } else {
        member_data(es, ed, os.skip(1), row_at(od, rl_of(os), i)) + member_cat_o(
            es,
            ed,
            os,
            od,
            i + 1,
        )
    }
}

/// The lookup result covers its shape.
pub proof fn lemma_member_data_len<T>(es: Seq<usize>, ed: Seq<T>, os: Seq<usize>, od: Seq<T>)
    ensures
        member_data(es, ed, os, od).len() == prod(lookup_shape(es, os)),
    decreases es.len() + os.len(), 1int, 0int,
{
    if es.len() == os.len() {
        lemma_member_rows_len(ed, rl_of(es), os, od, 0, rc_of(es));
        if es.len() == 0 {
            assert(lookup_shape(es, os) =~= Seq::<usize>::empty());
        } else {
            crate::shape::lemma_prod_singleton(es.take(1));
        }
    } else if es.len() > os.len() {
        lemma_member_cat_e_len(es, ed, os, od, 0);
        let sub = lookup_shape(es.skip(1), os);
        assert(lookup_shape(es, os).skip(1) =~= sub);
        assert(prod(lookup_shape(es, os)) == es[0] * prod(sub));
    } else if os.len() - es.len() == 1 {
        assert(lookup_shape(es, os) =~= Seq::<usize>::empty());
    } else {
        lemma_member_cat_o_len(es, ed, os, od, 0);
        let sub = lookup_shape(es, os.skip(1));
        assert(lookup_shape(es, os).skip(1) =~= sub);
        assert(prod(lookup_shape(es, os)) == os[0] * prod(sub));
    }
}

pub proof fn lemma_member_rows_len<T>(
    ed: Seq<T>,
    erl: int,
    os: Seq<usize>,
    od: Seq<T>,
    i: int,
    end: int,
)
    requires
        0 <= i <= end,
    ensures
        member_rows(ed, erl, os, od, i, end).len() == end - i,
    decreases end - i,
{
    if i < end {
        lemma_member_rows_len(ed, erl, os, od, i + 1, end);
    }
}

pub proof fn lemma_member_cat_e_len<T>(
    es: Seq<usize>,
    ed: Seq<T>,
    os: Seq<usize>,
    od: Seq<T>,
    i: int,
)
    requires
        es.len() > os.len(),
        0 <= i <= rc_of(es),
    ensures
        member_cat_e(es, ed, os, od, i).len() == (rc_of(es) - i) * prod(
            lookup_shape(es.skip(1), os),
        ),
    decreases es.len() + os.len(), 0int, rc_of(es) - i,
{
    let sub = prod(lookup_shape(es.skip(1), os));
    lemma_prod_nonneg(lookup_shape(es.skip(1), os));
    if i >= rc_of(es) {
        assert((rc_of(es) - i) * sub == 0) by (nonlinear_arith)
            requires
                rc_of(es) == i,
        ;
    } else {
        lemma_member_cat_e_len(es, ed, os, od, i + 1);
        lemma_member_data_len(es.skip(1), row_at(ed, rl_of(es), i), os, od);
        assert(sub + (rc_of(es) - i - 1) * sub == (rc_of(es) - i) * sub) by (nonlinear_arith);
    }
}

pub proof fn lemma_member_cat_o_len<T>(
    es: Seq<usize>,
    ed: Seq<T>,
    os: Seq<usize>,
    od: Seq<T>,
    i: int,
)
    requires
        os.len() > es.len() + 1,
        0 <= i <= rc_of(os),
    ensures
        member_cat_o(es, ed, os, od, i).len() == (rc_of(os) - i) * prod(
            lookup_shape(es, os.skip(1)),
        ),
    decreases es.len() + os.len(), 0int, rc_of(os) - i,
{
    let sub = prod(lookup_shape(es, os.skip(1)));
    lemma_prod_nonneg(lookup_shape(es, os.skip(1)));
    if i >= rc_of(os) {
        assert((rc_of(os) - i) * sub == 0) by (nonlinear_arith)
            requires
                rc_of(os) == i,
        ;
    } else {
        lemma_member_cat_o_len(es, ed, os, od, i + 1);
        lemma_member_data_len(es, ed, os.skip(1), row_at(od, rl_of(os), i));
        assert(sub + (rc_of(os) - i - 1) * sub == (rc_of(os) - i) * sub) by (nonlinear_arith);
    }
}

/// Compare two same-length blocks element by element.
pub fn blocks_equal<T: ArrayElem>(
    a: &Vec<T>,
    astart: usize,
    b: &Vec<T>,
    bstart: usize,
    n: usize,
) -> (r: bool)
    requires
        astart + n <= a@.len(),
        bstart + n <= b@.len(),
    ensures
        r == (a@.subrange(astart as int, astart + n) == b@.subrange(bstart as int, bstart + n)),
{
    let alen = a.len();
    let blen = b.len();
    let mut q: usize = 0;
    while q < n
        invariant
            q <= n,
            astart + n <= a@.len() <= usize::MAX,
            bstart + n <= b@.len() <= usize::MAX,
            forall|p: int| 0 <= p < q ==> #[trigger] a@[astart + p] == b@[bstart + p],
        decreases n - q,
    {
        let x = a[astart + q];
        let y = b[bstart + q];
        if !x.eq_elem(&y) {
            proof {
                assert(a@.subrange(astart as int, astart + n)[q as int] != b@.subrange(
                    bstart as int,
                    bstart + n,
                )[q as int]);
            }
            return false;
        }
        q = q + 1;
    }
    proof {
        assert forall|p: int|
            0 <= p < n implies #[trigger] a@.subrange(astart as int, astart + n)[p] == b@.subrange(
            bstart as int,
            bstart + n,
        )[p] by {
            assert(a@[astart + p] == b@[bstart + p]);
        }
        assert(a@.subrange(astart as int, astart + n) =~= b@.subrange(bstart as int, bstart + n));
    }
    true
}

/// The first row of `od` equal to `row`, or the row count when none is.
fn first_match_row<T: ArrayElem>(od: &Vec<T>, orc: usize, orl: usize, row: &Vec<T>) -> (r: usize)
    requires
        od@.len() == orc * orl,
        row@.len() == orl,
    ensures
        r == first_row_idx(orc as int, orl as int, od@, row@, 0),
        r <= orc,
{
    let odlen = od.len();
    let mut j: usize = 0;
    while j < orc
        invariant
            j <= orc,
            od@.len() <= usize::MAX,
            od@.len() == orc * orl,
            row@.len() == orl,
            first_row_idx(orc as int, orl as int, od@, row@, 0) == first_row_idx(
                orc as int,
                orl as int,
                od@,
                row@,
                j as int,
            ),
        decreases orc - j,
    {
        proof {
            crate::array::mul_le_mono(j as int, orc as int - 1, orl as int);
            assert((orc - 1) * orl + orl == orc * orl) by (nonlinear_arith);
            crate::array::mul_le_mono(0, j as int, orl as int);
        }
        if blocks_equal(od, j * orl, row, 0, orl) {
            proof {
                assert(row@.subrange(0, orl as int) =~= row@);
                assert(row_at(od@, orl as int, j as int) == row@);
            }
            return j;
        }
        proof {
            assert(row@.subrange(0, orl as int) =~= row@);
            assert(row_at(od@, orl as int, j as int) != row@);
        }
        j = j + 1;
    }
    orc
}

impl<T: ArrayElem> Array<T> {
    /// Which rows of this array are `member`s of another: a boolean per row,
    /// recursing on whichever side has the greater rank until the ranks
    /// match or differ by one.
    pub fn member(&self, of: &Array<T>) -> (r: Result<Array<u8>, ArrayError>)
        requires
            self.wf(),
            of.wf(),
        ensures
            !suffix_fits(lookup_shape(self.shape@, of.shape@)) ==> r == Err::<
                Array<u8>,
                ArrayError,
            >(ArrayError::TooLarge),
            suffix_fits(lookup_shape(self.shape@, of.shape@)) ==> r is Ok && r->Ok_0.wf()
                && r->Ok_0.shape@ == lookup_shape(self.shape@, of.shape@) && r->Ok_0.data@
                == member_data(self.shape@, self.data@, of.shape@, of.data@),
    {
        let ns = lookup_shape_exec(&self.shape, &of.shape);
        match try_prod(&ns) {
            None => Err(ArrayError::TooLarge),
            Some(total) => {
                proof {
                    lemma_member_data_len(self.shape@, self.data@, of.shape@, of.data@);
                }
                let data = member_block(self, of);
                Ok(Array { shape: ns, data })
            },
        }
    }
}

/// Assemble the membership data, recursing on ranks.
fn member_block<T: ArrayElem>(elems: &Array<T>, of: &Array<T>) -> (r: Vec<u8>)
    requires
        elems.wf(),
        of.wf(),
        suffix_fits(lookup_shape(elems.shape@, of.shape@)),
    ensures
        r@ == member_data(elems.shape@, elems.data@, of.shape@, of.data@),
    decreases elems.shape@.len() + of.shape@.len(),
{
    let ghost es = elems.shape@;
    let ghost os = of.shape@;
    proof {
        lemma_member_data_len(es, elems.data@, os, of.data@);
        lemma_prod_nonneg(lookup_shape(es, os));
        assert(lookup_shape(es, os).skip(0) =~= lookup_shape(es, os));
        assert(prod(lookup_shape(es, os)) <= usize::MAX);
    }
    if elems.shape.len() == of.shape.len() {
        // Equal rank: one bit per row of the elements.
        let erc = elems.row_count();
        let erl = elems.row_len();
        let orc = of.row_count();
        let orl = of.row_len();
        proof {
            if es.len() > 0 {
                elems.lemma_rows_cover();
            }
            if os.len() > 0 {
                of.lemma_rows_cover();
            }
            lemma_prod_nonneg(es.skip(1));
            lemma_prod_nonneg(os.skip(1));
        }
        let edlen = elems.data.len();
        let odlen = of.data.len();
        let mut out: Vec<u8> = Vec::new();
        let mut i: usize = 0;
        while i < erc
            invariant
                i <= erc,
                elems.wf(),
                of.wf(),
                elems.data@.len() <= usize::MAX,
                of.data@.len() <= usize::MAX,
                es == elems.shape@,
                os == of.shape@,
                es.len() == os.len(),
                erc == rc_of(es),
                erl == rl_of(es),
                orc == rc_of(os),
                orl == rl_of(os),
                elems.data@.len() == erc * erl,
                of.data@.len() == orc * orl,
                out@ + member_rows(elems.data@, erl as int, os, of.data@, i as int, erc as int)
                    =~= member_rows(elems.data@, erl as int, os, of.data@, 0, erc as int),
            decreases erc - i,
        {
            proof {
                crate::array::mul_le_mono(i as int, erc as int - 1, erl as int);
                assert((erc - 1) * erl + erl == erc * erl) by (nonlinear_arith);
                crate::array::mul_le_mono(0, i as int, erl as int);
            }
            let row = crate::array::copy_range(&elems.data, i * erl, erl);
            proof {
                assert(row@ == row_at(elems.data@, erl as int, i as int));
            }
            let flag: u8 = if erl == orl {
                let p = first_match_row(&of.data, orc, orl, &row);
                if p < orc {
                    proof {
                        lemma_first_match_found(orc as int, orl as int, of.data@, row@, 0);
                    }
                    1
                } else {
                    proof {
                        lemma_first_match_missing(orc as int, orl as int, of.data@, row@, 0);
                    }
                    0
                }
            } else {
                proof {
                    assert forall|j: int|
                        0 <= j < orc implies row_at(of.data@, orl as int, j) != row@ by {
                        if 0 <= j < orc {
                            crate::array::mul_le_mono(j, orc as int - 1, orl as int);
                            assert((orc - 1) * orl + orl == orc * orl) by (nonlinear_arith);
                            crate::array::mul_le_mono(0, j, orl as int);
                            assert(row_at(of.data@, orl as int, j).len() == orl);
                        }
                    }
                }
                0
            };
            out.push(flag);
            i = i + 1;
        }
        proof {
            assert(member_rows(
                elems.data@,
                erl as int,
                os,
                of.data@,
                erc as int,
                erc as int,
            ) =~= Seq::<u8>::empty());
            assert(out@ =~= member_data(es, elems.data@, os, of.data@));
        }
        out
    } else if elems.shape.len() > of.shape.len() {
        // Recurse per row of the elements.
        let erc = elems.row_count();
        let erl = elems.row_len();
        proof {
            elems.lemma_rows_cover();
            lemma_prod_nonneg(es.skip(1));
            assert(lookup_shape(es, os).skip(1) =~= lookup_shape(es.skip(1), os));
            crate::shape::lemma_suffix_fits_skip(lookup_shape(es, os), 1);
        }
        let ghost sub = prod(lookup_shape(es.skip(1), os));
        proof {
            lemma_prod_nonneg(lookup_shape(es.skip(1), os));
            assert(lookup_shape(es, os)[0] == es[0]);
            assert(prod(lookup_shape(es, os)) == es[0] * sub);
        }
        let edlen = elems.data.len();
        let mut out: Vec<u8> = Vec::new();
        let mut i: usize = 0;
        while i < erc
            invariant
                i <= erc,
                elems.wf(),
                of.wf(),
                elems.data@.len() <= usize::MAX,
                es == elems.shape@,
                os == of.shape@,
                es.len() > os.len(),
                erc == rc_of(es),
                erl == rl_of(es),
                elems.data@.len() == erc * erl,
                suffix_fits(lookup_shape(es.skip(1), os)),
                sub == prod(lookup_shape(es.skip(1), os)),
                0 <= sub,
                erc * sub <= usize::MAX,
                out@.len() == i * sub,
                out@ + member_cat_e(es, elems.data@, os, of.data@, i as int) =~= member_cat_e(
                    es,
                    elems.data@,
                    os,
                    of.data@,
                    0,
                ),
            decreases erc - i,
        {
            proof {
                crate::array::mul_le_mono(i as int, erc as int - 1, erl as int);
                assert((erc - 1) * erl + erl == erc * erl) by (nonlinear_arith);
                crate::array::mul_le_mono(0, i as int, erl as int);
            }
            let row = elems.row_array(i);
            let subv = member_block(&row, of);
            proof {
                assert(row.shape@ =~= es.skip(1));
                lemma_member_data_len(es.skip(1), row.data@, os, of.data@);
                crate::array::mul_le_mono(i as int + 1, erc as int, sub);
                assert((i + 1) * sub == i * sub + sub) by (nonlinear_arith);
            }
            let sl = subv.len();
            crate::array::extend_range(&mut out, &subv, 0, sl);
            proof {
                assert(subv@.subrange(0, sl as int) =~= subv@);
            }
            i = i + 1;
        }
        proof {
            assert(member_cat_e(es, elems.data@, os, of.data@, erc as int) =~= Seq::<
                u8,
            >::empty());
            assert(out@ =~= member_cat_e(es, elems.data@, os, of.data@, 0));
            assert(prod(lookup_shape(es, os)) == rc_of(es) * sub);
        }
        out
    } else if of.shape.len() - elems.shape.len() == 1 {
        // One rank apart: one comparison of the whole elements against the
        // target's rows.
        let orc = of.row_count();
        let orl = of.row_len();
        proof {
            of.lemma_rows_cover();
            lemma_prod_nonneg(os.skip(1));
        }
        let shape_same = crate::array::tails_equal(&of.shape, &elems.shape, 1, 0);
        proof {
            assert(elems.shape@.skip(0) =~= elems.shape@);
        }
        let mut flag: u8 = 0;
        if shape_same {
            proof {
                assert(elems.data@.len() == prod(es));
                assert(prod(os.skip(1)) == prod(es));
            }
            let elen = elems.data.len();
            let p = first_match_row(&of.data, orc, orl, &elems.data);
            if p < orc {
                proof {
                    lemma_first_match_found(orc as int, orl as int, of.data@, elems.data@, 0);
                    let j0 = first_row_idx(orc as int, orl as int, of.data@, elems.data@, 0);
                    assert(rl_of(os) == orl as int);
                    assert(rc_of(os) == orc as int);
                    assert(row_at(of.data@, rl_of(os), j0) == elems.data@);
                    assert(0 <= j0 < rc_of(os));
                    assert(exists|j: int|
                        0 <= j < rc_of(os) && row_at(of.data@, rl_of(os), j) == elems.data@);
                }
                flag = 1;
            } else {
                proof {
                    lemma_first_match_missing(orc as int, orl as int, of.data@, elems.data@, 0);
                    assert(!(exists|j: int|
                        0 <= j < rc_of(os) && row_at(of.data@, rl_of(os), j) == elems.data@)) by {
                        if exists|j: int|
                            0 <= j < rc_of(os) && row_at(of.data@, rl_of(os), j) == elems.data@ {
                            let j = choose|j: int|
                                0 <= j < rc_of(os) && row_at(of.data@, rl_of(os), j)
                                    == elems.data@;
                            assert(row_at(of.data@, orl as int, j) != elems.data@);
                        }
                    }
                }
            }
        }
        let mut out: Vec<u8> = Vec::new();
        out.push(flag);
        proof {
            assert(out@ =~= member_data(es, elems.data@, os, of.data@));
        }
        out
    } else {
        // Two or more ranks apart: recurse per row of the target.
        let orc = of.row_count();
        let orl = of.row_len();
        proof {
            of.lemma_rows_cover();
            lemma_prod_nonneg(os.skip(1));
            assert(lookup_shape(es, os).skip(1) =~= lookup_shape(es, os.skip(1)));
            crate::shape::lemma_suffix_fits_skip(lookup_shape(es, os), 1);
        }
        let ghost sub = prod(lookup_shape(es, os.skip(1)));
        proof {
            lemma_prod_nonneg(lookup_shape(es, os.skip(1)));
            assert(lookup_shape(es, os)[0] == os[0]);
            assert(prod(lookup_shape(es, os)) == os[0] * sub);
        }
        let odlen = of.data.len();
        let mut out: Vec<u8> = Vec::new();
        let mut i: usize = 0;
        while i < orc
            invariant
                i <= orc,
                elems.wf(),
                of.wf(),
                of.data@.len() <= usize::MAX,
                es == elems.shape@,
                os == of.shape@,
                os.len() > es.len() + 1,
                orc == rc_of(os),
                orl == rl_of(os),
                of.data@.len() == orc * orl,
                suffix_fits(lookup_shape(es, os.skip(1))),
                sub == prod(lookup_shape(es, os.skip(1))),
                0 <= sub,
                orc * sub <= usize::MAX,
                out@.len() == i * sub,
                out@ + member_cat_o(es, elems.data@, os, of.data@, i as int) =~= member_cat_o(
                    es,
                    elems.data@,
                    os,
                    of.data@,
                    0,
                ),
            decreases orc - i,
        {
            proof {
                crate::array::mul_le_mono(i as int, orc as int - 1, orl as int);
                assert((orc - 1) * orl + orl == orc * orl) by (nonlinear_arith);
                crate::array::mul_le_mono(0, i as int, orl as int);
            }
            let row = of.row_array(i);
            let subv = member_block(elems, &row);
            proof {
                assert(row.shape@ =~= os.skip(1));
                lemma_member_data_len(es, elems.data@, os.skip(1), row.data@);
                crate::array::mul_le_mono(i as int + 1, orc as int, sub);
                assert((i + 1) * sub == i * sub + sub) by (nonlinear_arith);
            }
            let sl = subv.len();
            crate::array::extend_range(&mut out, &subv, 0, sl);
            proof {
                assert(subv@.subrange(0, sl as int) =~= subv@);
            }
            i = i + 1;
        }
        proof {
            assert(member_cat_o(es, elems.data@, os, of.data@, orc as int) =~= Seq::<
                u8,
            >::empty());
            assert(out@ =~= member_cat_o(es, elems.data@, os, of.data@, 0));
            assert(prod(lookup_shape(es, os)) == rc_of(os) * sub);
        }
        out
    }
}

/// A found first match is a witness.
proof fn lemma_first_match_found<T>(rc: int, rl: int, od: Seq<T>, row: Seq<T>, j: int)
    requires
        0 <= j,
        first_row_idx(rc, rl, od, row, j) < rc,
    ensures
        exists|q: int| 0 <= q < rc && row_at(od, rl, q) == row,
        row_at(od, rl, first_row_idx(rc, rl, od, row, j)) == row,
        j <= first_row_idx(rc, rl, od, row, j),
    decreases rc - j,
{
    if j < rc {
        if row_at(od, rl, j) == row {
        } else {
            lemma_first_match_found(rc, rl, od, row, j + 1);
        }
    }
}

/// A missing first match rules every row out.
proof fn lemma_first_match_missing<T>(rc: int, rl: int, od: Seq<T>, row: Seq<T>, j: int)
    requires
        0 <= j,
        first_row_idx(rc, rl, od, row, j) == rc,
        j <= rc,
    ensures
        forall|q: int| j <= q < rc ==> row_at(od, rl, q) != row,
    decreases rc - j,
{
    if j < rc {
        lemma_first_match_missing(rc, rl, od, row, j + 1);
    }
}

/// The lookup's rank never exceeds either operand's.
pub proof fn lemma_lookup_shape_rank(es: Seq<usize>, os: Seq<usize>)
    ensures
        lookup_shape(es, os).len() <= es.len() || lookup_shape(es, os).len() <= os.len(),
        lookup_shape(es, os).len() <= es.len() + os.len(),
    decreases es.len() + os.len(),
{
    if es.len() == os.len() {
    } else if es.len() > os.len() {
        lemma_lookup_shape_rank(es.skip(1), os);
    } else if os.len() - es.len() == 1 {
    } else {
        lemma_lookup_shape_rank(es, os.skip(1));
    }
}

/// Compute the shape all three lookups produce.
fn lookup_shape_exec(es: &Vec<usize>, os: &Vec<usize>) -> (r: Vec<usize>)
    ensures
        r@ == lookup_shape(es@, os@),
    decreases es@.len() + os@.len(),
{
    if es.len() == os.len() {
        if es.len() == 0 {
            let r: Vec<usize> = Vec::new();
            proof {
                assert(r@ =~= lookup_shape(es@, os@));
            }
            r
        } else {
            let mut r: Vec<usize> = Vec::new();
            r.push(es[0]);
            proof {
                assert(r@ =~= lookup_shape(es@, os@));
            }
            r
        }
    } else if es.len() > os.len() {
        let et = crate::takedrop::row_shape_tail(es);
        let sub = lookup_shape_exec(&et, os);
        let mut r: Vec<usize> = Vec::new();
        r.push(es[0]);
        let sl = sub.len();
        proof {
            lemma_lookup_shape_rank(es@.skip(1), os@);
        }
        crate::array::extend_range(&mut r, &sub, 0, sl);
        proof {
            assert(sub@.subrange(0, sl as int) =~= sub@);
            assert(r@ =~= lookup_shape(es@, os@));
        }
        r
    } else if os.len() - es.len() == 1 {
        let r: Vec<usize> = Vec::new();
        proof {
            assert(r@ =~= lookup_shape(es@, os@));
        }
        r
    } else {
        let ot = crate::takedrop::row_shape_tail(os);
        let sub = lookup_shape_exec(es, &ot);
        let mut r: Vec<usize> = Vec::new();
        r.push(os[0]);
        let sl = sub.len();
        proof {
            lemma_lookup_shape_rank(es@, os@.skip(1));
        }
        crate::array::extend_range(&mut r, &sub, 0, sl);
        proof {
            assert(sub@.subrange(0, sl as int) =~= sub@);
            assert(r@ =~= lookup_shape(es@, os@));
        }
        r
    }
}

} // verus!
// Index-of: the first-match position of each row, with the row count as the
// "not found" sentinel; the progressive variant consumes each matched
// position so that no two queries share one.

verus! {

/// The data `index_of` produces.
pub open spec fn index_data<T>(es: Seq<usize>, ed: Seq<T>, os: Seq<usize>, od: Seq<T>) -> Seq<i64>
    decreases es.len() + os.len(), 1int, 0int,
{
    if es.len() == os.len() {
        index_rows(ed, rl_of(es), os, od, 0, rc_of(es))
    } else if es.len() > os.len() {
        index_cat_e(es, ed, os, od, 0)
    } else if os.len() - es.len() == 1 {
        seq![
            (if os.skip(1) == es {
                first_row_idx(rc_of(os), rl_of(os), od, ed, 0)
            } else {
                rc_of(os)
            }) as i64,
        ]
    } else {
        index_cat_o(es, ed, os, od, 0)
    }
}

/// One first-match position per row `i..end` of the elements.
pub open spec fn index_rows<T>(
    ed: Seq<T>,
    erl: int,
    os: Seq<usize>,
    od: Seq<T>,
    i: int,
    end: int,
) -> Seq<i64>
    decreases end - i,
{
    if i < 0 || i >= end {
        Seq::empty()
    } else {
        seq![first_row_idx(rc_of(os), rl_of(os), od, row_at(ed, erl, i), 0) as i64] + index_rows(
            ed,
            erl,
            os,
            od,
            i + 1,
            end,
        )
    }
}

pub open spec fn index_cat_e<T>(es: Seq<usize>, ed: Seq<T>, os: Seq<usize>, od: Seq<T>, i: int) -> Seq<i64>
    decreases es.len() + os.len(), 0int, rc_of(es) - i,
{
    if es.len() <= os.len() || !(0 <= i < rc_of(es)) {
        Seq::empty()
    } else {
        index_data(es.skip(1), row_at(ed, rl_of(es), i), os, od) + index_cat_e(es, ed, os, od, i + 1)
    }
}

pub open spec fn index_cat_o<T>(es: Seq<usize>, ed: Seq<T>, os: Seq<usize>, od: Seq<T>, i: int) -> Seq<i64>
    decreases es.len() + os.len(), 0int, rc_of(os) - i,
{
    if os.len() <= es.len() + 1 || !(0 <= i < rc_of(os)) {
        Seq::empty()
    } else {
        index_data(es, ed, os.skip(1), row_at(od, rl_of(os), i)) + index_cat_o(es, ed, os, od, i + 1)
    }
}

pub proof fn lemma_index_data_len<T>(es: Seq<usize>, ed: Seq<T>, os: Seq<usize>, od: Seq<T>)
    ensures
        index_data(es, ed, os, od).len() == prod(lookup_shape(es, os)),
    decreases es.len() + os.len(), 1int, 0int,
{
    if es.len() == os.len() {
        lemma_index_rows_len(ed, rl_of(es), os, od, 0, rc_of(es));
        if es.len() == 0 {
            assert(lookup_shape(es, os) =~= Seq::<usize>::empty());
        } else {
            crate::shape::lemma_prod_singleton(es.take(1));
        }
    } else if es.len() > os.len() {
        lemma_index_cat_e_len(es, ed, os, od, 0);
        let sub = lookup_shape(es.skip(1), os);
        assert(lookup_shape(es, os).skip(1) =~= sub);
        assert(prod(lookup_shape(es, os)) == es[0] * prod(sub));
    } else if os.len() - es.len() == 1 {
        assert(lookup_shape(es, os) =~= Seq::<usize>::empty());
    } else {
        lemma_index_cat_o_len(es, ed, os, od, 0);
        let sub = lookup_shape(es, os.skip(1));
        assert(lookup_shape(es, os).skip(1) =~= sub);
        assert(prod(lookup_shape(es, os)) == os[0] * prod(sub));
    }
}

pub proof fn lemma_index_rows_len<T>(
    ed: Seq<T>,
    erl: int,
    os: Seq<usize>,
    od: Seq<T>,
    i: int,
    end: int,
)
    requires
        0 <= i <= end,
    ensures
        index_rows(ed, erl, os, od, i, end).len() == end - i,
    decreases end - i,
{
    if i < end {
        lemma_index_rows_len(ed, erl, os, od, i + 1, end);
    }
}

pub proof fn lemma_index_cat_e_len<T>(es: Seq<usize>, ed: Seq<T>, os: Seq<usize>, od: Seq<T>, i: int)
    requires
        es.len() > os.len(),
        0 <= i <= rc_of(es),
    ensures
        index_cat_e(es, ed, os, od, i).len() == (rc_of(es) - i) * prod(
            lookup_shape(es.skip(1), os),
        ),
    decreases es.len() + os.len(), 0int, rc_of(es) - i,
{
    let sub = prod(lookup_shape(es.skip(1), os));
    lemma_prod_nonneg(lookup_shape(es.skip(1), os));
    if i >= rc_of(es) {
        assert((rc_of(es) - i) * sub == 0) by (nonlinear_arith)
            requires
                rc_of(es) == i,
        ;
    } else {
        lemma_index_cat_e_len(es, ed, os, od, i + 1);
        lemma_index_data_len(es.skip(1), row_at(ed, rl_of(es), i), os, od);
        assert(sub + (rc_of(es) - i - 1) * sub == (rc_of(es) - i) * sub) by (nonlinear_arith);
    }
}

pub proof fn lemma_index_cat_o_len<T>(es: Seq<usize>, ed: Seq<T>, os: Seq<usize>, od: Seq<T>, i: int)
    requires
        os.len() > es.len() + 1,
        0 <= i <= rc_of(os),
    ensures
        index_cat_o(es, ed, os, od, i).len() == (rc_of(os) - i) * prod(
            lookup_shape(es, os.skip(1)),
        ),
    decreases es.len() + os.len(), 0int, rc_of(os) - i,
{
    let sub = prod(lookup_shape(es, os.skip(1)));
    lemma_prod_nonneg(lookup_shape(es, os.skip(1)));
    if i >= rc_of(os) {
        assert((rc_of(os) - i) * sub == 0) by (nonlinear_arith)
            requires
                rc_of(os) == i,
        ;
    } else {
        lemma_index_cat_o_len(es, ed, os, od, i + 1);
        lemma_index_data_len(es, ed, os.skip(1), row_at(od, rl_of(os), i));
        assert(sub + (rc_of(os) - i - 1) * sub == (rc_of(os) - i) * sub) by (nonlinear_arith);
    }
}

/// Do all dimensions stay within the result element range?
pub open spec fn dims_fit_i64(os: Seq<usize>) -> bool {
    forall|q: int| 0 <= q < os.len() ==> #[trigger] os[q] <= i64::MAX
}

impl<T: ArrayElem> Array<T> {
    /// The first-match position of each of this array's rows within the rows
    /// of another, `row_count` standing for "not found"; the same matched
    /// row may satisfy any number of queries.
    pub fn index_of(&self, of: &Array<T>) -> (r: Result<Array<i64>, ArrayError>)
        requires
            self.wf(),
            of.wf(),
        ensures
            !(suffix_fits(lookup_shape(self.shape@, of.shape@)) && dims_fit_i64(of.shape@)) ==> r
                == Err::<Array<i64>, ArrayError>(ArrayError::TooLarge),
            suffix_fits(lookup_shape(self.shape@, of.shape@)) && dims_fit_i64(of.shape@) ==> r
                is Ok && r->Ok_0.wf() && r->Ok_0.shape@ == lookup_shape(self.shape@, of.shape@)
                && r->Ok_0.data@ == index_data(self.shape@, self.data@, of.shape@, of.data@),
    {
        // Every possible sentinel must be representable.
        let mut q: usize = 0;
        while q < of.shape.len()
            invariant
                q <= of.shape@.len(),
                of.wf(),
                self.wf(),
                forall|p: int| 0 <= p < q ==> #[trigger] of.shape@[p] <= i64::MAX,
            decreases of.shape@.len() - q,
        {
            if (of.shape[q] as u128) > (i64::MAX as u128) {
                proof {
                    assert(of.shape@[q as int] > i64::MAX);
                    assert(!dims_fit_i64(of.shape@));
                }
                return Err(ArrayError::TooLarge);
            }
            q = q + 1;
        }
        let ns = lookup_shape_exec(&self.shape, &of.shape);
        match try_prod(&ns) {
            None => Err(ArrayError::TooLarge),
            Some(total) => {
                proof {
                    lemma_index_data_len(self.shape@, self.data@, of.shape@, of.data@);
                }
                let data = index_block(self, of);
                Ok(Array { shape: ns, data })
            },
        }
    }
}

/// Assemble the first-match positions, recursing on ranks.
fn index_block<T: ArrayElem>(elems: &Array<T>, of: &Array<T>) -> (r: Vec<i64>)
    requires
        elems.wf(),
        of.wf(),
        suffix_fits(lookup_shape(elems.shape@, of.shape@)),
        dims_fit_i64(of.shape@),
    ensures
        r@ == index_data(elems.shape@, elems.data@, of.shape@, of.data@),
    decreases elems.shape@.len() + of.shape@.len(),
{
    let ghost es = elems.shape@;
    let ghost os = of.shape@;
    proof {
        lemma_index_data_len(es, elems.data@, os, of.data@);
        lemma_prod_nonneg(lookup_shape(es, os));
        assert(lookup_shape(es, os).skip(0) =~= lookup_shape(es, os));
        assert(prod(lookup_shape(es, os)) <= usize::MAX);
    }
    if elems.shape.len() == of.shape.len() {
        let erc = elems.row_count();
        let erl = elems.row_len();
        let orc = of.row_count();
        let orl = of.row_len();
        proof {
            if es.len() > 0 {
                elems.lemma_rows_cover();
            }
            if os.len() > 0 {
                of.lemma_rows_cover();
            }
            lemma_prod_nonneg(es.skip(1));
            lemma_prod_nonneg(os.skip(1));
        }
        let edlen = elems.data.len();
        let mut out: Vec<i64> = Vec::new();
        let mut i: usize = 0;
        while i < erc
            invariant
                i <= erc,
                elems.wf(),
                of.wf(),
                elems.data@.len() <= usize::MAX,
                es == elems.shape@,
                os == of.shape@,
                es.len() == os.len(),
                erc == rc_of(es),
                erl == rl_of(es),
                orc == rc_of(os),
                orl == rl_of(os),
                orc <= i64::MAX,
                elems.data@.len() == erc * erl,
                of.data@.len() == orc * orl,
                out@ + index_rows(elems.data@, erl as int, os, of.data@, i as int, erc as int)
                    =~= index_rows(elems.data@, erl as int, os, of.data@, 0, erc as int),
            decreases erc - i,
        {
            proof {
                crate::array::mul_le_mono(i as int, erc as int - 1, erl as int);
                assert((erc - 1) * erl + erl == erc * erl) by (nonlinear_arith);
                crate::array::mul_le_mono(0, i as int, erl as int);
            }
            let row = crate::array::copy_range(&elems.data, i * erl, erl);
            proof {
                assert(row@ == row_at(elems.data@, erl as int, i as int));
            }
            let val: usize = if erl == orl {
                first_match_row(&of.data, orc, orl, &row)
            } else {
                proof {
                    lemma_rows_unequal(of.data@, orc as int, orl as int, row@);
                    lemma_first_never(orc as int, orl as int, of.data@, row@, 0);
                }
                orc
            };
            out.push(val as i64);
            i = i + 1;
        }
        proof {
            assert(index_rows(elems.data@, erl as int, os, of.data@, erc as int, erc as int)
                =~= Seq::<i64>::empty());
            assert(out@ =~= index_data(es, elems.data@, os, of.data@));
        }
        out
    } else if elems.shape.len() > of.shape.len() {
        let erc = elems.row_count();
        let erl = elems.row_len();
        proof {
            elems.lemma_rows_cover();
            lemma_prod_nonneg(es.skip(1));
            assert(lookup_shape(es, os).skip(1) =~= lookup_shape(es.skip(1), os));
            crate::shape::lemma_suffix_fits_skip(lookup_shape(es, os), 1);
        }
        let ghost sub = prod(lookup_shape(es.skip(1), os));
        proof {
            lemma_prod_nonneg(lookup_shape(es.skip(1), os));
            assert(lookup_shape(es, os)[0] == es[0]);
            assert(prod(lookup_shape(es, os)) == es[0] * sub);
        }
        let edlen = elems.data.len();
        let mut out: Vec<i64> = Vec::new();
        let mut i: usize = 0;
        while i < erc
            invariant
                i <= erc,
                elems.wf(),
                of.wf(),
                elems.data@.len() <= usize::MAX,
                es == elems.shape@,
                os == of.shape@,
                es.len() > os.len(),
                erc == rc_of(es),
                erl == rl_of(es),
                dims_fit_i64(os),
                elems.data@.len() == erc * erl,
                suffix_fits(lookup_shape(es.skip(1), os)),
                sub == prod(lookup_shape(es.skip(1), os)),
                0 <= sub,
                erc * sub <= usize::MAX,
                out@.len() == i * sub,
                out@ + index_cat_e(es, elems.data@, os, of.data@, i as int) =~= index_cat_e(
                    es,
                    elems.data@,
                    os,
                    of.data@,
                    0,
                ),
            decreases erc - i,
        {
            proof {
                crate::array::mul_le_mono(i as int, erc as int - 1, erl as int);
                assert((erc - 1) * erl + erl == erc * erl) by (nonlinear_arith);
                crate::array::mul_le_mono(0, i as int, erl as int);
            }
            let row = elems.row_array(i);
            let subv = index_block(&row, of);
            proof {
                assert(row.shape@ =~= es.skip(1));
                lemma_index_data_len(es.skip(1), row.data@, os, of.data@);
                crate::array::mul_le_mono(i as int + 1, erc as int, sub);
                assert((i + 1) * sub == i * sub + sub) by (nonlinear_arith);
            }
            let sl = subv.len();
            extend_range(&mut out, &subv, 0, sl);
            proof {
                assert(subv@.subrange(0, sl as int) =~= subv@);
            }
            i = i + 1;
        }
        proof {
            assert(index_cat_e(es, elems.data@, os, of.data@, erc as int) =~= Seq::<i64>::empty());
            assert(out@ =~= index_cat_e(es, elems.data@, os, of.data@, 0));
        }
        out
    } else if of.shape.len() - elems.shape.len() == 1 {
        let orc = of.row_count();
        let orl = of.row_len();
        proof {
            of.lemma_rows_cover();
            lemma_prod_nonneg(os.skip(1));
        }
        let shape_same = crate::array::tails_equal(&of.shape, &elems.shape, 1, 0);
        proof {
            assert(elems.shape@.skip(0) =~= elems.shape@);
            assert(rc_of(os) == orc && os[0] <= i64::MAX);
        }
        let mut val: usize = orc;
        if shape_same {
            proof {
                assert(elems.data@.len() == prod(es));
                assert(prod(os.skip(1)) == prod(es));
            }
            val = first_match_row(&of.data, orc, orl, &elems.data);
        }
        let mut out: Vec<i64> = Vec::new();
        out.push(val as i64);
        proof {
            assert(out@ =~= index_data(es, elems.data@, os, of.data@));
        }
        out
    } else {
        let orc = of.row_count();
        let orl = of.row_len();
        proof {
            of.lemma_rows_cover();
            lemma_prod_nonneg(os.skip(1));
            assert(lookup_shape(es, os).skip(1) =~= lookup_shape(es, os.skip(1)));
            crate::shape::lemma_suffix_fits_skip(lookup_shape(es, os), 1);
        }
        let ghost sub = prod(lookup_shape(es, os.skip(1)));
        proof {
            lemma_prod_nonneg(lookup_shape(es, os.skip(1)));
            assert(lookup_shape(es, os)[0] == os[0]);
            assert(prod(lookup_shape(es, os)) == os[0] * sub);
        }
        let odlen = of.data.len();
        let mut out: Vec<i64> = Vec::new();
        let mut i: usize = 0;
        while i < orc
            invariant
                i <= orc,
                elems.wf(),
                of.wf(),
                of.data@.len() <= usize::MAX,
                es == elems.shape@,
                os == of.shape@,
                os.len() > es.len() + 1,
                orc == rc_of(os),
                orl == rl_of(os),
                dims_fit_i64(os),
                of.data@.len() == orc * orl,
                suffix_fits(lookup_shape(es, os.skip(1))),
                sub == prod(lookup_shape(es, os.skip(1))),
                0 <= sub,
                orc * sub <= usize::MAX,
                out@.len() == i * sub,
                out@ + index_cat_o(es, elems.data@, os, of.data@, i as int) =~= index_cat_o(
                    es,
                    elems.data@,
                    os,
                    of.data@,
                    0,
                ),
            decreases orc - i,
        {
            proof {
                crate::array::mul_le_mono(i as int, orc as int - 1, orl as int);
                assert((orc - 1) * orl + orl == orc * orl) by (nonlinear_arith);
                crate::array::mul_le_mono(0, i as int, orl as int);
                assert forall|p: int| 0 <= p < os.skip(1).len() implies #[trigger] os.skip(1)[p]
                    <= i64::MAX by {
                    assert(os.skip(1)[p] == os[p + 1]);
                }
            }
            let row = of.row_array(i);
            let subv = index_block(elems, &row);
            proof {
                assert(row.shape@ =~= os.skip(1));
                lemma_index_data_len(es, elems.data@, os.skip(1), row.data@);
                crate::array::mul_le_mono(i as int + 1, orc as int, sub);
                assert((i + 1) * sub == i * sub + sub) by (nonlinear_arith);
            }
            let sl = subv.len();
            extend_range(&mut out, &subv, 0, sl);
            proof {
                assert(subv@.subrange(0, sl as int) =~= subv@);
            }
            i = i + 1;
        }
        proof {
            assert(index_cat_o(es, elems.data@, os, of.data@, orc as int) =~= Seq::<i64>::empty());
            assert(out@ =~= index_cat_o(es, elems.data@, os, of.data@, 0));
        }
        out
    }
}

/// Rows of a different length never equal the query row.
proof fn lemma_rows_unequal<T>(od: Seq<T>, rc: int, rl: int, row: Seq<T>)
    requires
        od.len() == rc * rl,
        rl >= 0,
        row.len() != rl,
    ensures
        forall|j: int| 0 <= j < rc ==> row_at(od, rl, j) != row,
{
    assert forall|j: int| 0 <= j < rc implies row_at(od, rl, j) != row by {
        crate::array::mul_le_mono(j, rc - 1, rl);
        assert((rc - 1) * rl + rl == rc * rl) by (nonlinear_arith);
        crate::array::mul_le_mono(0, j, rl);
        assert(row_at(od, rl, j).len() == rl);
    }
}

/// With no row equal, the first match is the sentinel.
proof fn lemma_first_never<T>(rc: int, rl: int, od: Seq<T>, row: Seq<T>, j: int)
    requires
        0 <= j <= rc,
        forall|q: int| 0 <= q < rc ==> row_at(od, rl, q) != row,
    ensures
        first_row_idx(rc, rl, od, row, j) == rc,
    decreases rc - j,
{
    if j < rc {
        lemma_first_never(rc, rl, od, row, j + 1);
    }
}

} // verus!
// Progressive index-of: each matched position is consumed and serves at
// most one query.

verus! {

/// The consumed positions after the first `i` query rows.
pub open spec fn prog_used<T>(
    ed: Seq<T>,
    erl: int,
    orc: int,
    orl: int,
    od: Seq<T>,
    i: int,
) -> Seq<bool>
    decreases i,
{
    if i <= 0 {
        Seq::new(orc as nat, |q: int| false)
    } else {
        let u = prog_used(ed, erl, orc, orl, od, i - 1);
        let p = prog_first(orc, orl, od, row_at(ed, erl, i - 1), u, 0);
        if 0 <= p < orc {
            u.update(p, true)
        } else {
            u
        }
    }
}

/// One progressive first-match position per query row `i..end`.
pub open spec fn prog_rows<T>(
    ed: Seq<T>,
    erl: int,
    orc: int,
    orl: int,
    od: Seq<T>,
    i: int,
    end: int,
) -> Seq<i64>
    decreases end - i,
{
    if i < 0 || i >= end {
        Seq::empty()
    } else {
        seq![
            prog_first(orc, orl, od, row_at(ed, erl, i), prog_used(ed, erl, orc, orl, od, i), 0)
                as i64,
        ] + prog_rows(ed, erl, orc, orl, od, i + 1, end)
    }
}

/// The data `progressive_index_of` produces.
pub open spec fn prog_data<T>(es: Seq<usize>, ed: Seq<T>, os: Seq<usize>, od: Seq<T>) -> Seq<i64>
    decreases es.len() + os.len(), 1int, 0int,
{
    if es.len() == os.len() {
        prog_rows(ed, rl_of(es), rc_of(os), rl_of(os), od, 0, rc_of(es))
    } else if es.len() > os.len() {
        prog_cat_e(es, ed, os, od, 0)
    } else if os.len() - es.len() == 1 {
        seq![
            (if os.skip(1) == es {
                first_row_idx(rc_of(os), rl_of(os), od, ed, 0)
            } else {
                rc_of(os)
            }) as i64,
        ]
    } else {
        prog_cat_o(es, ed, os, od, 0)
    }
}

pub open spec fn prog_cat_e<T>(es: Seq<usize>, ed: Seq<T>, os: Seq<usize>, od: Seq<T>, i: int) -> Seq<i64>
    decreases es.len() + os.len(), 0int, rc_of(es) - i,
{
    if es.len() <= os.len() || !(0 <= i < rc_of(es)) {
        Seq::empty()
    } else {
        prog_data(es.skip(1), row_at(ed, rl_of(es), i), os, od) + prog_cat_e(es, ed, os, od, i + 1)
    }
}

pub open spec fn prog_cat_o<T>(es: Seq<usize>, ed: Seq<T>, os: Seq<usize>, od: Seq<T>, i: int) -> Seq<i64>
    decreases es.len() + os.len(), 0int, rc_of(os) - i,
{
    if os.len() <= es.len() + 1 || !(0 <= i < rc_of(os)) {
        Seq::empty()
    } else {
        prog_data(es, ed, os.skip(1), row_at(od, rl_of(os), i)) + prog_cat_o(es, ed, os, od, i + 1)
    }
}

pub proof fn lemma_prog_data_len<T>(es: Seq<usize>, ed: Seq<T>, os: Seq<usize>, od: Seq<T>)
    ensures
        prog_data(es, ed, os, od).len() == prod(lookup_shape(es, os)),
    decreases es.len() + os.len(), 1int, 0int,
{
    if es.len() == os.len() {
        lemma_prog_rows_len(ed, rl_of(es), rc_of(os), rl_of(os), od, 0, rc_of(es));
        if es.len() == 0 {
            assert(lookup_shape(es, os) =~= Seq::<usize>::empty());
        } else {
            crate::shape::lemma_prod_singleton(es.take(1));
        }
    } else if es.len() > os.len() {
        lemma_prog_cat_e_len(es, ed, os, od, 0);
        let sub = lookup_shape(es.skip(1), os);
        assert(lookup_shape(es, os).skip(1) =~= sub);
        assert(prod(lookup_shape(es, os)) == es[0] * prod(sub));
    } else if os.len() - es.len() == 1 {
        assert(lookup_shape(es, os) =~= Seq::<usize>::empty());
    } else {
        lemma_prog_cat_o_len(es, ed, os, od, 0);
        let sub = lookup_shape(es, os.skip(1));
        assert(lookup_shape(es, os).skip(1) =~= sub);
        assert(prod(lookup_shape(es, os)) == os[0] * prod(sub));
    }
}

pub proof fn lemma_prog_rows_len<T>(
    ed: Seq<T>,
    erl: int,
    orc: int,
    orl: int,
    od: Seq<T>,
    i: int,
    end: int,
)
    requires
        0 <= i <= end,
    ensures
        prog_rows(ed, erl, orc, orl, od, i, end).len() == end - i,
    decreases end - i,
{
    if i < end {
        lemma_prog_rows_len(ed, erl, orc, orl, od, i + 1, end);
    }
}

pub proof fn lemma_prog_cat_e_len<T>(es: Seq<usize>, ed: Seq<T>, os: Seq<usize>, od: Seq<T>, i: int)
    requires
        es.len() > os.len(),
        0 <= i <= rc_of(es),
    ensures
        prog_cat_e(es, ed, os, od, i).len() == (rc_of(es) - i) * prod(
            lookup_shape(es.skip(1), os),
        ),
    decreases es.len() + os.len(), 0int, rc_of(es) - i,
{
    let sub = prod(lookup_shape(es.skip(1), os));
    lemma_prod_nonneg(lookup_shape(es.skip(1), os));
    if i >= rc_of(es) {
        assert((rc_of(es) - i) * sub == 0) by (nonlinear_arith)
            requires
                rc_of(es) == i,
        ;
    } else {
        lemma_prog_cat_e_len(es, ed, os, od, i + 1);
        lemma_prog_data_len(es.skip(1), row_at(ed, rl_of(es), i), os, od);
        assert(sub + (rc_of(es) - i - 1) * sub == (rc_of(es) - i) * sub) by (nonlinear_arith);
    }
}

pub proof fn lemma_prog_cat_o_len<T>(es: Seq<usize>, ed: Seq<T>, os: Seq<usize>, od: Seq<T>, i: int)
    requires
        os.len() > es.len() + 1,
        0 <= i <= rc_of(os),
    ensures
        prog_cat_o(es, ed, os, od, i).len() == (rc_of(os) - i) * prod(
            lookup_shape(es, os.skip(1)),
        ),
    decreases es.len() + os.len(), 0int, rc_of(os) - i,
{
    let sub = prod(lookup_shape(es, os.skip(1)));
    lemma_prod_nonneg(lookup_shape(es, os.skip(1)));
    if i >= rc_of(os) {
        assert((rc_of(os) - i) * sub == 0) by (nonlinear_arith)
            requires
                rc_of(os) == i,
        ;
    } else {
        lemma_prog_cat_o_len(es, ed, os, od, i + 1);
        lemma_prog_data_len(es, ed, os.skip(1), row_at(od, rl_of(os), i));
        assert(sub + (rc_of(os) - i - 1) * sub == (rc_of(os) - i) * sub) by (nonlinear_arith);
    }
}

/// The first not-yet-consumed row equal to `row`, or the row count.
fn prog_match_row<T: ArrayElem>(
    od: &Vec<T>,
    orc: usize,
    orl: usize,
    row: &Vec<T>,
    used: &Vec<bool>,
) -> (r: usize)
    requires
        od@.len() == orc * orl,
        row@.len() == orl,
        used@.len() == orc,
    ensures
        r == prog_first(orc as int, orl as int, od@, row@, used@, 0),
        r <= orc,
{
    let odlen = od.len();
    let mut j: usize = 0;
    while j < orc
        invariant
            j <= orc,
            od@.len() <= usize::MAX,
            od@.len() == orc * orl,
            row@.len() == orl,
            used@.len() == orc,
            prog_first(orc as int, orl as int, od@, row@, used@, 0) == prog_first(
                orc as int,
                orl as int,
                od@,
                row@,
                used@,
                j as int,
            ),
        decreases orc - j,
    {
        proof {
            crate::array::mul_le_mono(j as int, orc as int - 1, orl as int);
            assert((orc - 1) * orl + orl == orc * orl) by (nonlinear_arith);
            crate::array::mul_le_mono(0, j as int, orl as int);
        }
        if !used[j] && blocks_equal(od, j * orl, row, 0, orl) {
            proof {
                assert(row@.subrange(0, orl as int) =~= row@);
                assert(row_at(od@, orl as int, j as int) == row@);
            }
            return j;
        }
        proof {
            assert(row@.subrange(0, orl as int) =~= row@);
            if !used@[j as int] {
                assert(row_at(od@, orl as int, j as int) != row@);
            }
        }
        j = j + 1;
    }
    orc
}

impl<T: ArrayElem> Array<T> {
    /// The progressive first-match position of each of this array's rows
    /// within the rows of another: once matched, a position is consumed and
    /// will not satisfy a later query.
    pub fn progressive_index_of(&self, of: &Array<T>) -> (r: Result<Array<i64>, ArrayError>)
        requires
            self.wf(),
            of.wf(),
        ensures
            !(suffix_fits(lookup_shape(self.shape@, of.shape@)) && dims_fit_i64(of.shape@)) ==> r
                == Err::<Array<i64>, ArrayError>(ArrayError::TooLarge),
            suffix_fits(lookup_shape(self.shape@, of.shape@)) && dims_fit_i64(of.shape@) ==> r
                is Ok && r->Ok_0.wf() && r->Ok_0.shape@ == lookup_shape(self.shape@, of.shape@)
                && r->Ok_0.data@ == prog_data(self.shape@, self.data@, of.shape@, of.data@),
    {
        let mut q: usize = 0;
        while q < of.shape.len()
            invariant
                q <= of.shape@.len(),
                of.wf(),
                self.wf(),
                forall|p: int| 0 <= p < q ==> #[trigger] of.shape@[p] <= i64::MAX,
            decreases of.shape@.len() - q,
        {
            if (of.shape[q] as u128) > (i64::MAX as u128) {
                proof {
                    assert(of.shape@[q as int] > i64::MAX);
                    assert(!dims_fit_i64(of.shape@));
                }
                return Err(ArrayError::TooLarge);
            }
            q = q + 1;
        }
        let ns = lookup_shape_exec(&self.shape, &of.shape);
        match try_prod(&ns) {
            None => Err(ArrayError::TooLarge),
            Some(total) => {
                proof {
                    lemma_prog_data_len(self.shape@, self.data@, of.shape@, of.data@);
                }
                let data = prog_block(self, of);
                Ok(Array { shape: ns, data })
            },
        }
    }
}

/// Assemble the progressive positions, recursing on ranks.
fn prog_block<T: ArrayElem>(elems: &Array<T>, of: &Array<T>) -> (r: Vec<i64>)
    requires
        elems.wf(),
        of.wf(),
        suffix_fits(lookup_shape(elems.shape@, of.shape@)),
        dims_fit_i64(of.shape@),
    ensures
        r@ == prog_data(elems.shape@, elems.data@, of.shape@, of.data@),
    decreases elems.shape@.len() + of.shape@.len(),
{
    let ghost es = elems.shape@;
    let ghost os = of.shape@;
    proof {
        lemma_prog_data_len(es, elems.data@, os, of.data@);
        lemma_prod_nonneg(lookup_shape(es, os));
        assert(lookup_shape(es, os).skip(0) =~= lookup_shape(es, os));
        assert(prod(lookup_shape(es, os)) <= usize::MAX);
    }
    if elems.shape.len() == of.shape.len() {
        let erc = elems.row_count();
        let erl = elems.row_len();
        let orc = of.row_count();
        let orl = of.row_len();
        proof {
            if es.len() > 0 {
                elems.lemma_rows_cover();
            }
            if os.len() > 0 {
                of.lemma_rows_cover();
            }
            lemma_prod_nonneg(es.skip(1));
            lemma_prod_nonneg(os.skip(1));
        }
        let edlen = elems.data.len();
        let mut used: Vec<bool> = Vec::new();
        crate::array::extend_repeat(&mut used, false, orc);
        proof {
            assert(used@ =~= prog_used(
                elems.data@,
                erl as int,
                orc as int,
                orl as int,
                of.data@,
                0,
            ));
        }
        let mut out: Vec<i64> = Vec::new();
        let mut i: usize = 0;
        while i < erc
            invariant
                i <= erc,
                elems.wf(),
                of.wf(),
                elems.data@.len() <= usize::MAX,
                es == elems.shape@,
                os == of.shape@,
                es.len() == os.len(),
                erc == rc_of(es),
                erl == rl_of(es),
                orc == rc_of(os),
                orl == rl_of(os),
                orc <= i64::MAX,
                elems.data@.len() == erc * erl,
                of.data@.len() == orc * orl,
                used@.len() == orc,
                used@ == prog_used(
                    elems.data@,
                    erl as int,
                    orc as int,
                    orl as int,
                    of.data@,
                    i as int,
                ),
                out@ + prog_rows(
                    elems.data@,
                    erl as int,
                    orc as int,
                    orl as int,
                    of.data@,
                    i as int,
                    erc as int,
                ) =~= prog_rows(
                    elems.data@,
                    erl as int,
                    orc as int,
                    orl as int,
                    of.data@,
                    0,
                    erc as int,
                ),
            decreases erc - i,
        {
            proof {
                crate::array::mul_le_mono(i as int, erc as int - 1, erl as int);
                assert((erc - 1) * erl + erl == erc * erl) by (nonlinear_arith);
                crate::array::mul_le_mono(0, i as int, erl as int);
            }
            let row = crate::array::copy_range(&elems.data, i * erl, erl);
            proof {
                assert(row@ == row_at(elems.data@, erl as int, i as int));
            }
            let val: usize = if erl == orl {
                let p = prog_match_row(&of.data, orc, orl, &row, &used);
                if p < orc {
                    used.set(p, true);
                }
                p
            } else {
                proof {
                    lemma_rows_unequal(of.data@, orc as int, orl as int, row@);
                    lemma_prog_never(orc as int, orl as int, of.data@, row@, used@, 0);
                }
                orc
            };
            proof {
                assert(used@ =~= prog_used(
                    elems.data@,
                    erl as int,
                    orc as int,
                    orl as int,
                    of.data@,
                    i + 1,
                ));
            }
            out.push(val as i64);
            i = i + 1;
        }
        proof {
            assert(prog_rows(
                elems.data@,
                erl as int,
                orc as int,
                orl as int,
                of.data@,
                erc as int,
                erc as int,
            ) =~= Seq::<i64>::empty());
            assert(out@ =~= prog_data(es, elems.data@, os, of.data@));
        }
        out
    } else if elems.shape.len() > of.shape.len() {
        let erc = elems.row_count();
        let erl = elems.row_len();
        proof {
            elems.lemma_rows_cover();
            lemma_prod_nonneg(es.skip(1));
            assert(lookup_shape(es, os).skip(1) =~= lookup_shape(es.skip(1), os));
            crate::shape::lemma_suffix_fits_skip(lookup_shape(es, os), 1);
        }
        let ghost sub = prod(lookup_shape(es.skip(1), os));
        proof {
            lemma_prod_nonneg(lookup_shape(es.skip(1), os));
            assert(lookup_shape(es, os)[0] == es[0]);
            assert(prod(lookup_shape(es, os)) == es[0] * sub);
        }
        let edlen = elems.data.len();
        let mut out: Vec<i64> = Vec::new();
        let mut i: usize = 0;
        while i < erc
            invariant
                i <= erc,
                elems.wf(),
                of.wf(),
                elems.data@.len() <= usize::MAX,
                es == elems.shape@,
                os == of.shape@,
                es.len() > os.len(),
                erc == rc_of(es),
                erl == rl_of(es),
                dims_fit_i64(os),
                elems.data@.len() == erc * erl,
                suffix_fits(lookup_shape(es.skip(1), os)),
                sub == prod(lookup_shape(es.skip(1), os)),
                0 <= sub,
                erc * sub <= usize::MAX,
                out@.len() == i * sub,
                out@ + prog_cat_e(es, elems.data@, os, of.data@, i as int) =~= prog_cat_e(
                    es,
                    elems.data@,
                    os,
                    of.data@,
                    0,
                ),
            decreases erc - i,
        {
            proof {
                crate::array::mul_le_mono(i as int, erc as int - 1, erl as int);
                assert((erc - 1) * erl + erl == erc * erl) by (nonlinear_arith);
                crate::array::mul_le_mono(0, i as int, erl as int);
            }
            let row = elems.row_array(i);
            let subv = prog_block(&row, of);
            proof {
                assert(row.shape@ =~= es.skip(1));
                lemma_prog_data_len(es.skip(1), row.data@, os, of.data@);
                crate::array::mul_le_mono(i as int + 1, erc as int, sub);
                assert((i + 1) * sub == i * sub + sub) by (nonlinear_arith);
            }
            let sl = subv.len();
            extend_range(&mut out, &subv, 0, sl);
            proof {
                assert(subv@.subrange(0, sl as int) =~= subv@);
            }
            i = i + 1;
        }
        proof {
            assert(prog_cat_e(es, elems.data@, os, of.data@, erc as int) =~= Seq::<i64>::empty());
            assert(out@ =~= prog_cat_e(es, elems.data@, os, of.data@, 0));
        }
        out
    } else if of.shape.len() - elems.shape.len() == 1 {
        let orc = of.row_count();
        let orl = of.row_len();
        proof {
            of.lemma_rows_cover();
            lemma_prod_nonneg(os.skip(1));
        }
        let shape_same = crate::array::tails_equal(&of.shape, &elems.shape, 1, 0);
        proof {
            assert(elems.shape@.skip(0) =~= elems.shape@);
            assert(rc_of(os) == orc && os[0] <= i64::MAX);
        }
        let mut val: usize = orc;
        if shape_same {
            proof {
                assert(elems.data@.len() == prod(es));
                assert(prod(os.skip(1)) == prod(es));
            }
            val = first_match_row(&of.data, orc, orl, &elems.data);
        }
        let mut out: Vec<i64> = Vec::new();
        out.push(val as i64);
        proof {
            assert(out@ =~= prog_data(es, elems.data@, os, of.data@));
        }
        out
    } else {
        let orc = of.row_count();
        let orl = of.row_len();
        proof {
            of.lemma_rows_cover();
            lemma_prod_nonneg(os.skip(1));
            assert(lookup_shape(es, os).skip(1) =~= lookup_shape(es, os.skip(1)));
            crate::shape::lemma_suffix_fits_skip(lookup_shape(es, os), 1);
        }
        let ghost sub = prod(lookup_shape(es, os.skip(1)));
        proof {
            lemma_prod_nonneg(lookup_shape(es, os.skip(1)));
            assert(lookup_shape(es, os)[0] == os[0]);
            assert(prod(lookup_shape(es, os)) == os[0] * sub);
        }
        let odlen = of.data.len();
        let mut out: Vec<i64> = Vec::new();
        let mut i: usize = 0;
        while i < orc
            invariant
                i <= orc,
                elems.wf(),
                of.wf(),
                of.data@.len() <= usize::MAX,
                es == elems.shape@,
                os == of.shape@,
                os.len() > es.len() + 1,
                orc == rc_of(os),
                orl == rl_of(os),
                dims_fit_i64(os),
                of.data@.len() == orc * orl,
                suffix_fits(lookup_shape(es, os.skip(1))),
                sub == prod(lookup_shape(es, os.skip(1))),
                0 <= sub,
                orc * sub <= usize::MAX,
                out@.len() == i * sub,
                out@ + prog_cat_o(es, elems.data@, os, of.data@, i as int) =~= prog_cat_o(
                    es,
                    elems.data@,
                    os,
                    of.data@,
                    0,
                ),
            decreases orc - i,
        {
            proof {
                crate::array::mul_le_mono(i as int, orc as int - 1, orl as int);
                assert((orc - 1) * orl + orl == orc * orl) by (nonlinear_arith);
                crate::array::mul_le_mono(0, i as int, orl as int);
                assert forall|p: int| 0 <= p < os.skip(1).len() implies #[trigger] os.skip(1)[p]
                    <= i64::MAX by {
                    assert(os.skip(1)[p] == os[p + 1]);
                }
            }
            let row = of.row_array(i);
            let subv = prog_block(elems, &row);
            proof {
                assert(row.shape@ =~= os.skip(1));
                lemma_prog_data_len(es, elems.data@, os.skip(1), row.data@);
                crate::array::mul_le_mono(i as int + 1, orc as int, sub);
                assert((i + 1) * sub == i * sub + sub) by (nonlinear_arith);
            }
            let sl = subv.len();
            extend_range(&mut out, &subv, 0, sl);
            proof {
                assert(subv@.subrange(0, sl as int) =~= subv@);
            }
            i = i + 1;
        }
        proof {
            assert(prog_cat_o(es, elems.data@, os, of.data@, orc as int) =~= Seq::<i64>::empty());
            assert(out@ =~= prog_cat_o(es, elems.data@, os, of.data@, 0));
        }
        out
    }
}

/// With no row equal, the progressive first match is the sentinel.
proof fn lemma_prog_never<T>(rc: int, rl: int, od: Seq<T>, row: Seq<T>, used: Seq<bool>, j: int)
    requires
        0 <= j <= rc,
        forall|q: int| 0 <= q < rc ==> row_at(od, rl, q) != row,
    ensures
        prog_first(rc, rl, od, row, used, j) == rc,
    decreases rc - j,
{
    if j < rc {
        lemma_prog_never(rc, rl, od, row, used, j + 1);
    }
}

} // verus!
