//! Laws of the engine: inverse and identity properties that relate the
//! operations to one another, stated over the same specifications the
//! operations' own contracts use.

use vstd::prelude::*;

use crate::array::row_at;
use crate::reshape::{derived_shape, neg_count, reshape_data, reshape_spec};
use crate::shape::{lemma_prod_nonneg, lemma_sum_last, prod, repeat_seq, suffix_fits, sum};
use crate::takedrop::{abs_sp, drop_cat, drop_data, drop_shape, take_cat, take_data, take_shape};

verus! {

/// Reshaping an array to its own shape is a no-op on shape and data.
///
/// The dimension request carries the array's own dimensions (as signed
/// numbers), so no placeholder is present, the derived shape is the shape
/// itself, and the data is "truncated" to its own length.
pub proof fn lemma_reshape_identity<T>(dims: Seq<isize>, s: Seq<usize>, d: Seq<T>, fill: Option<T>)
    requires
        d.len() == prod(s),
        suffix_fits(s),
        dims.len() == s.len(),
        forall|i: int| 0 <= i < dims.len() ==> #[trigger] dims[i] == s[i],
    ensures
        reshape_spec(d, dims, fill) == Ok::<(Seq<usize>, Seq<T>), crate::error::ArrayError>(
            (s, d),
        ),
{
    lemma_no_neg_all(dims, s);
    let ns = derived_shape(d.len() as int, dims, fill is Some);
    assert(ns =~= s);
    assert(s.skip(0) =~= s);
    assert(reshape_data(d, prod(ns), fill) =~= d);
    assert(reshape_spec(d, dims, fill) == Ok::<(Seq<usize>, Seq<T>), crate::error::ArrayError>(
        (ns, reshape_data(d, prod(ns), fill)),
    ));
    assert((ns, reshape_data(d, prod(ns), fill)) == (s, d));
}

proof fn lemma_no_neg_all(dims: Seq<isize>, s: Seq<usize>)
    requires
        dims.len() == s.len(),
        forall|i: int| 0 <= i < dims.len() ==> #[trigger] dims[i] == s[i],
    ensures
        neg_count(dims) == 0,
    decreases dims.len(),
{
    if dims.len() > 0 {
        assert(forall|i: int|
            0 <= i < dims.skip(1).len() ==> #[trigger] dims.skip(1)[i] == dims[i + 1]);
        assert(forall|i: int|
            0 <= i < dims.skip(1).len() ==> #[trigger] dims.skip(1)[i] == s.skip(1)[i]);
        lemma_no_neg_all(dims.skip(1), s.skip(1));
    }
}

/// Consecutive rows, concatenated, are exactly the matching slice of the
/// buffer.
pub proof fn lemma_rows_concat<T>(d: Seq<T>, rl: int, i: int, end: int, f: spec_fn(int) -> Seq<T>)
    requires
        0 <= i <= end,
        rl >= 0,
        end * rl <= d.len(),
        forall|q: int| i <= q < end ==> #[trigger] f(q) == row_at(d, rl, q),
    ensures
        cat_rows(f, i, end) == d.subrange(i * rl, end * rl),
    decreases end - i,
{
    crate::array::mul_le_mono(i, end, rl);
    crate::array::mul_le_mono(0, i, rl);
    if i == end {
        assert(cat_rows(f, i, end) =~= d.subrange(i * rl, end * rl));
    } else {
        lemma_rows_concat(d, rl, i + 1, end, f);
        assert((i + 1) * rl == i * rl + rl) by (nonlinear_arith);
        crate::array::mul_le_mono(i + 1, end, rl);
        assert(cat_rows(f, i, end) == f(i) + cat_rows(f, i + 1, end));
        assert(f(i) + d.subrange((i + 1) * rl, end * rl) =~= d.subrange(i * rl, end * rl));
    }
}

/// Rows `i..end` produced by `f`, concatenated.
pub open spec fn cat_rows<T>(f: spec_fn(int) -> Seq<T>, i: int, end: int) -> Seq<T>
    decreases end - i,
{
    if i < 0 || i >= end {
        Seq::empty()
    } else {
        f(i) + cat_rows(f, i + 1, end)
    }
}

/// A single-axis in-bounds take is the leading slice of the buffer.
pub proof fn lemma_take_prefix<T>(n: isize, s: Seq<usize>, d: Seq<T>, fill: Option<T>)
    requires
        s.len() >= 1,
        d.len() == prod(s),
        0 <= n <= s[0],
    ensures
        take_data(seq![n], s, d, fill) == d.subrange(0, n * prod(s.skip(1))),
{
    let rl = prod(s.skip(1));
    lemma_prod_nonneg(s.skip(1));
    assert(prod(s) == s[0] * rl);
    crate::array::mul_le_mono(n as int, s[0] as int, rl);
    lemma_take_cat_is_rows(seq![n], s, d, fill, 0, n as int);
    let f = |q: int| row_at(d, rl, q);
    lemma_rows_concat(d, rl, 0, n as int, f);
    let idx = seq![n];
    let orl = prod(take_shape(idx.skip(1), s.skip(1)).skip(0));
    assert(abs_sp(idx[0]) == n as int);
    assert(((n as int - n as int) * orl) == 0) by (nonlinear_arith);
    assert(crate::structure::fill_rep(fill, (n as int - n as int) * orl) =~= Seq::<T>::empty());
    assert(take_data(seq![n], s, d, fill) =~= take_cat(seq![n], s, d, fill, 0, n as int));
    assert(take_cat(seq![n], s, d, fill, 0, n as int) == cat_rows(f, 0, n as int));
}

proof fn lemma_take_cat_is_rows<T>(
    index: Seq<isize>,
    s: Seq<usize>,
    d: Seq<T>,
    fill: Option<T>,
    i: int,
    end: int,
)
    requires
        index.len() == 1,
        s.len() >= 1,
        0 <= i,
        end <= s[0],
    ensures
        take_cat(index, s, d, fill, i, end) == cat_rows(|q: int| row_at(d, prod(s.skip(1)), q), i, end),
    decreases end - i,
{
    let f = |q: int| row_at(d, prod(s.skip(1)), q);
    if i >= end {
        assert(take_cat(index, s, d, fill, i, end) =~= Seq::<T>::empty());
        assert(cat_rows(f, i, end) =~= Seq::<T>::empty());
    } else {
        lemma_take_cat_is_rows(index, s, d, fill, i + 1, end);
        assert(take_data(index.skip(1), s.skip(1), row_at(d, prod(s.skip(1)), i), fill)
            == row_at(d, prod(s.skip(1)), i));
    }
}

/// A single-axis drop is the trailing slice of the buffer.
pub proof fn lemma_drop_suffix<T>(n: isize, s: Seq<usize>, d: Seq<T>)
    requires
        s.len() >= 1,
        d.len() == prod(s),
        0 <= n <= s[0],
    ensures
        drop_data(seq![n], s, d) == d.subrange(n * prod(s.skip(1)), d.len() as int),
{
    let rl = prod(s.skip(1));
    lemma_prod_nonneg(s.skip(1));
    assert(prod(s) == s[0] * rl);
    lemma_drop_cat_is_rows(seq![n], s, d, n as int, s[0] as int);
    let f = |q: int| row_at(d, rl, q);
    lemma_rows_concat(d, rl, n as int, s[0] as int, f);
    assert(drop_data(seq![n], s, d) =~= drop_cat(seq![n], s, d, n as int, s[0] as int));
    assert(drop_cat(seq![n], s, d, n as int, s[0] as int) == cat_rows(f, n as int, s[0] as int));
    assert(d.subrange(n * rl, (s[0] as int) * rl) =~= d.subrange(n * rl, d.len() as int));
}

proof fn lemma_drop_cat_is_rows<T>(index: Seq<isize>, s: Seq<usize>, d: Seq<T>, i: int, end: int)
    requires
        index.len() == 1,
        s.len() >= 1,
        0 <= i,
        end <= s[0],
    ensures
        drop_cat(index, s, d, i, end) == cat_rows(|q: int| row_at(d, prod(s.skip(1)), q), i, end),
    decreases end - i,
{
    let f = |q: int| row_at(d, prod(s.skip(1)), q);
    if i >= end {
        assert(drop_cat(index, s, d, i, end) =~= Seq::<T>::empty());
        assert(cat_rows(f, i, end) =~= Seq::<T>::empty());
    } else {
        lemma_drop_cat_is_rows(index, s, d, i + 1, end);
        assert(drop_data(index.skip(1), s.skip(1), row_at(d, prod(s.skip(1)), i))
            == row_at(d, prod(s.skip(1)), i));
    }
}

/// A take of `n` rows and a drop of `n` rows partition the array: their
/// concatenation is the array itself, without overlap or gap.
pub proof fn lemma_take_drop_partition<T>(n: isize, s: Seq<usize>, d: Seq<T>, fill: Option<T>)
    requires
        s.len() >= 1,
        d.len() == prod(s),
        0 <= n <= s[0],
    ensures
        take_data(seq![n], s, d, fill) + drop_data(seq![n], s, d) == d,
        take_shape(seq![n], s)[0] + drop_shape(seq![n], s)[0] == s[0],
{
    lemma_take_prefix(n, s, d, fill);
    lemma_drop_suffix(n, s, d);
    let rl = prod(s.skip(1));
    lemma_prod_nonneg(s.skip(1));
    assert(prod(s) == s[0] * rl);
    crate::array::mul_le_mono(n as int, s[0] as int, rl);
    crate::array::mul_le_mono(0, n as int, rl);
    assert(d.subrange(0, n * rl) + d.subrange(n * rl, d.len() as int) =~= d);
}

} // verus!
// Keep identities, membership of an array in itself, and undoing a
// selection.

verus! {

/// All-1 counts keep every row: the kept data is the array's own.
pub proof fn lemma_keep_ones_identity<T>(counts: Seq<usize>, s: Seq<usize>, d: Seq<T>)
    requires
        s.len() >= 1,
        d.len() == prod(s),
        counts.len() == s[0],
        forall|i: int| 0 <= i < counts.len() ==> #[trigger] counts[i] == 1,
    ensures
        crate::keep::keep_rows(counts, prod(s.skip(1)), d, 0) == d,
        sum(counts) == s[0],
    decreases s.len(),
{
    let rl = prod(s.skip(1));
    lemma_prod_nonneg(s.skip(1));
    assert(prod(s) == s[0] * rl);
    lemma_keep_ones_rows(counts, rl, d, 0);
    let f = |q: int| row_at(d, rl, q);
    lemma_rows_concat(d, rl, 0, s[0] as int, f);
    assert(crate::keep::keep_rows(counts, rl, d, 0) == cat_rows(f, 0, s[0] as int));
    assert(d.subrange(0, (s[0] as int) * rl) =~= d);
    lemma_sum_ones(counts);
}

proof fn lemma_keep_ones_rows<T>(counts: Seq<usize>, rl: int, d: Seq<T>, i: int)
    requires
        rl >= 0,
        0 <= i,
        forall|q: int| 0 <= q < counts.len() ==> #[trigger] counts[q] == 1,
    ensures
        crate::keep::keep_rows(counts, rl, d, i) == cat_rows(
            |q: int| row_at(d, rl, q),
            i,
            counts.len() as int,
        ),
    decreases counts.len() - i,
{
    let f = |q: int| row_at(d, rl, q);
    if i >= counts.len() {
        assert(crate::keep::keep_rows(counts, rl, d, i) =~= Seq::<T>::empty());
        assert(cat_rows(f, i, counts.len() as int) =~= Seq::<T>::empty());
    } else {
        lemma_keep_ones_rows(counts, rl, d, i + 1);
        assert(repeat_seq(row_at(d, rl, i), 0) =~= Seq::<T>::empty());
        assert(repeat_seq(row_at(d, rl, i), 1) == repeat_seq(row_at(d, rl, i), 0) + row_at(
            d,
            rl,
            i,
        ));
        assert(repeat_seq(row_at(d, rl, i), 1) =~= row_at(d, rl, i));
    }
}

proof fn lemma_sum_ones(counts: Seq<usize>)
    requires
        forall|q: int| 0 <= q < counts.len() ==> #[trigger] counts[q] == 1,
    ensures
        sum(counts) == counts.len(),
    decreases counts.len(),
{
    if counts.len() > 0 {
        assert(forall|q: int|
            0 <= q < counts.skip(1).len() ==> #[trigger] counts.skip(1)[q] == counts[q + 1]);
        lemma_sum_ones(counts.skip(1));
    }
}

/// All-0 counts keep nothing: the leading axis empties.
pub proof fn lemma_keep_zeros_empty<T>(counts: Seq<usize>, rl: int, d: Seq<T>)
    requires
        forall|i: int| 0 <= i < counts.len() ==> #[trigger] counts[i] == 0,
    ensures
        crate::keep::keep_rows(counts, rl, d, 0) == Seq::<T>::empty(),
        sum(counts) == 0,
    decreases counts.len(),
{
    lemma_keep_zeros_rows(counts, rl, d, 0);
    lemma_sum_zeros(counts);
}

proof fn lemma_keep_zeros_rows<T>(counts: Seq<usize>, rl: int, d: Seq<T>, i: int)
    requires
        0 <= i,
        forall|q: int| 0 <= q < counts.len() ==> #[trigger] counts[q] == 0,
    ensures
        crate::keep::keep_rows(counts, rl, d, i) =~= Seq::<T>::empty(),
    decreases counts.len() - i,
{
    if i < counts.len() {
        lemma_keep_zeros_rows(counts, rl, d, i + 1);
        assert(repeat_seq(row_at(d, rl, i), 0) =~= Seq::<T>::empty());
    }
}

proof fn lemma_sum_zeros(counts: Seq<usize>)
    requires
        forall|q: int| 0 <= q < counts.len() ==> #[trigger] counts[q] == 0,
    ensures
        sum(counts) == 0,
    decreases counts.len(),
{
    if counts.len() > 0 {
        assert(forall|q: int|
            0 <= q < counts.skip(1).len() ==> #[trigger] counts.skip(1)[q] == counts[q + 1]);
        lemma_sum_zeros(counts.skip(1));
    }
}

/// Every row of an array is a member of the array itself.
pub proof fn lemma_member_self_all_true<T>(s: Seq<usize>, d: Seq<T>, i: int)
    requires
        s.len() >= 1,
        d.len() == prod(s),
        0 <= i < s[0],
    ensures
        crate::search::member_data(s, d, s, d)[i] == 1u8,
{
    lemma_member_rows_at(d, crate::search::rl_of(s), s, d, 0, s[0] as int, i);
    assert(row_at(d, crate::search::rl_of(s), i) == row_at(d, crate::search::rl_of(s), i));
}

proof fn lemma_member_rows_at<T>(
    ed: Seq<T>,
    erl: int,
    os: Seq<usize>,
    od: Seq<T>,
    lo: int,
    end: int,
    i: int,
)
    requires
        0 <= lo <= i < end,
    ensures
        crate::search::member_rows(ed, erl, os, od, lo, end)[i - lo] == (if exists|j: int|
            0 <= j < crate::search::rc_of(os) && row_at(od, crate::search::rl_of(os), j) == row_at(
                ed,
                erl,
                i,
            ) {
            1u8
        } else {
            0u8
        }),
    decreases i - lo,
{
    crate::search::lemma_member_rows_len(ed, erl, os, od, lo + 1, end);
    if lo < i {
        lemma_member_rows_at(ed, erl, os, od, lo + 1, end, i);
    }
}

/// With pairwise distinct rows, each row's first match in the array itself
/// is its own position.
pub proof fn lemma_index_of_self_identity<T>(s: Seq<usize>, d: Seq<T>, i: int)
    requires
        s.len() >= 1,
        d.len() == prod(s),
        0 <= i < s[0],
        forall|p: int, q: int|
            0 <= p < q < s[0] ==> row_at(d, crate::search::rl_of(s), p) != row_at(
                d,
                crate::search::rl_of(s),
                q,
            ),
    ensures
        crate::search::index_data(s, d, s, d)[i] == i as i64,
{
    let rl = crate::search::rl_of(s);
    lemma_index_rows_at(d, rl, s, d, 0, s[0] as int, i);
    lemma_first_is_self(s[0] as int, rl, d, i, 0);
}

proof fn lemma_index_rows_at<T>(
    ed: Seq<T>,
    erl: int,
    os: Seq<usize>,
    od: Seq<T>,
    lo: int,
    end: int,
    i: int,
)
    requires
        0 <= lo <= i < end,
    ensures
        crate::search::index_rows(ed, erl, os, od, lo, end)[i - lo]
            == crate::search::first_row_idx(
            crate::search::rc_of(os),
            crate::search::rl_of(os),
            od,
            row_at(ed, erl, i),
            0,
        ) as i64,
    decreases i - lo,
{
    crate::search::lemma_index_rows_len(ed, erl, os, od, lo + 1, end);
    if lo < i {
        lemma_index_rows_at(ed, erl, os, od, lo + 1, end, i);
    }
}

proof fn lemma_first_is_self<T>(rc: int, rl: int, d: Seq<T>, i: int, j: int)
    requires
        0 <= j <= i < rc,
        forall|p: int, q: int| 0 <= p < q < rc ==> row_at(d, rl, p) != row_at(d, rl, q),
    ensures
        crate::search::first_row_idx(rc, rl, d, row_at(d, rl, i), j) == i,
    decreases i - j,
{
    if j < i {
        assert(row_at(d, rl, j) != row_at(d, rl, i));
        lemma_first_is_self(rc, rl, d, i, j + 1);
    }
}

/// Writing a selection's rows back where they came from changes nothing:
/// `unselect` after `select` (with in-bounds indices and no edit) restores
/// the array.
pub proof fn lemma_unselect_select_identity<T>(
    indices: Seq<isize>,
    rc: int,
    rl: int,
    d: Seq<T>,
    fill: Option<T>,
)
    requires
        rl >= 0,
        rc >= 0,
        d.len() == rc * rl,
        !crate::structure::sel_has_oob(indices, rc),
    ensures
        crate::structure::select_res(indices, rc, rl, d, fill, 0) matches Ok(kd)
            && crate::structure::unselect_fold(indices, rc, rl, kd, d, 0) == d,
{
    lemma_select_rows_value(indices, rc, rl, d, fill, 0);
    let g = |q: int| row_at(d, rl, crate::structure::resolve_idx(indices[q], rc));
    let kd = cat_rows(g, 0, indices.len() as int);
    lemma_unselect_writeback(indices, rc, rl, kd, d, 0, g);
}

/// An in-bounds selection succeeds and gathers exactly the indexed rows.
proof fn lemma_select_rows_value<T>(
    indices: Seq<isize>,
    rc: int,
    rl: int,
    d: Seq<T>,
    fill: Option<T>,
    k: int,
)
    requires
        rl >= 0,
        rc >= 0,
        d.len() == rc * rl,
        0 <= k <= indices.len(),
        !crate::structure::sel_has_oob(indices, rc),
    ensures
        crate::structure::select_res(indices, rc, rl, d, fill, k) == Ok::<
            Seq<T>,
            crate::error::ArrayError,
        >(
            cat_rows(
                |q: int| row_at(d, rl, crate::structure::resolve_idx(indices[q], rc)),
                k,
                indices.len() as int,
            ),
        ),
    decreases indices.len() - k,
{
    let g = |q: int| row_at(d, rl, crate::structure::resolve_idx(indices[q], rc));
    if k == indices.len() {
        assert(cat_rows(g, k, indices.len() as int) =~= Seq::<T>::empty());
    } else {
        assert(0 <= crate::structure::resolve_idx(indices[k], rc) < rc) by {
            if !(0 <= crate::structure::resolve_idx(indices[k], rc) < rc) {
                assert(crate::structure::sel_has_oob(indices, rc));
            }
        }
        lemma_select_rows_value(indices, rc, rl, d, fill, k + 1);
    }
}

/// Rows taken from the target and written back at the very same positions
/// leave it as it was.
proof fn lemma_unselect_writeback<T>(
    indices: Seq<isize>,
    rc: int,
    rl: int,
    kd: Seq<T>,
    id: Seq<T>,
    k: int,
    g: spec_fn(int) -> Seq<T>,
)
    requires
        rl >= 0,
        rc >= 0,
        id.len() == rc * rl,
        0 <= k <= indices.len(),
        g == (|q: int| row_at(id, rl, crate::structure::resolve_idx(indices[q], rc))),
        kd == cat_rows(g, 0, indices.len() as int),
        !crate::structure::sel_has_oob(indices, rc),
    ensures
        crate::structure::unselect_fold(indices, rc, rl, kd, id, k) == id,
    decreases indices.len() - k,
{
    if k < indices.len() {
        let j = crate::structure::resolve_idx(indices[k], rc);
        assert(0 <= j < rc) by {
            if !(0 <= j < rc) {
                assert(crate::structure::sel_has_oob(indices, rc));
            }
        }
        crate::array::mul_le_mono(j, rc - 1, rl);
        assert((rc - 1) * rl + rl == rc * rl) by (nonlinear_arith);
        crate::array::mul_le_mono(0, j, rl);
        lemma_cat_rows_at(g, 0, indices.len() as int, k, rl, id, rc, indices);
        assert(row_at(kd, rl, k) == row_at(id, rl, j));
        assert(crate::structure::splice(id, j * rl, row_at(kd, rl, k)) =~= id);
        lemma_unselect_writeback(indices, rc, rl, kd, id, k + 1, g);
    }
}

/// Row `k` of a concatenation of uniform rows is the `k`-th piece.
proof fn lemma_cat_rows_at<T>(
    g: spec_fn(int) -> Seq<T>,
    lo: int,
    end: int,
    k: int,
    rl: int,
    id: Seq<T>,
    rc: int,
    indices: Seq<isize>,
)
    requires
        0 <= lo <= k < end,
        rl >= 0,
        rc >= 0,
        id.len() == rc * rl,
        end == indices.len(),
        g == (|q: int| row_at(id, rl, crate::structure::resolve_idx(indices[q], rc))),
        !crate::structure::sel_has_oob(indices, rc),
    ensures
        row_at(cat_rows(g, lo, end), rl, k - lo) == g(k),
    decreases k - lo,
{
    assert(0 <= crate::structure::resolve_idx(indices[lo], rc) < rc) by {
        if !(0 <= crate::structure::resolve_idx(indices[lo], rc) < rc) {
            assert(crate::structure::sel_has_oob(indices, rc));
        }
    }
    let j0 = crate::structure::resolve_idx(indices[lo], rc);
    crate::array::mul_le_mono(j0, rc - 1, rl);
    assert((rc - 1) * rl + rl == rc * rl) by (nonlinear_arith);
    crate::array::mul_le_mono(0, j0, rl);
    assert(g(lo).len() == rl);
    lemma_cat_rows_uniform_len(g, lo + 1, end, rl, id, rc, indices);
    if k == lo {
        assert(row_at(cat_rows(g, lo, end), rl, 0) =~= g(lo));
    } else {
        lemma_cat_rows_at(g, lo + 1, end, k, rl, id, rc, indices);
        lemma_cat_rows_uniform_len(g, lo, end, rl, id, rc, indices);
        assert((k - lo) * rl == (k - lo - 1) * rl + rl) by (nonlinear_arith);
        crate::array::mul_le_mono(k - lo + 1, end - lo, rl);
        assert((k - lo + 1) * rl == (k - lo) * rl + rl) by (nonlinear_arith);
        crate::array::mul_le_mono(k - lo, end - lo - 1, rl);
        crate::array::mul_le_mono(0, k - lo - 1, rl);
        assert(row_at(cat_rows(g, lo, end), rl, k - lo) =~= row_at(
            cat_rows(g, lo + 1, end),
            rl,
            k - lo - 1,
        ));
    }
}

proof fn lemma_cat_rows_uniform_len<T>(
    g: spec_fn(int) -> Seq<T>,
    lo: int,
    end: int,
    rl: int,
    id: Seq<T>,
    rc: int,
    indices: Seq<isize>,
)
    requires
        0 <= lo,
        rl >= 0,
        rc >= 0,
        id.len() == rc * rl,
        end == indices.len(),
        g == (|q: int| row_at(id, rl, crate::structure::resolve_idx(indices[q], rc))),
        !crate::structure::sel_has_oob(indices, rc),
    ensures
        cat_rows(g, lo, end).len() == (if lo <= end {
            (end - lo) * rl
        } else {
            0
        }),
    decreases end - lo,
{
    if lo < end {
        assert(0 <= crate::structure::resolve_idx(indices[lo], rc) < rc) by {
            if !(0 <= crate::structure::resolve_idx(indices[lo], rc) < rc) {
                assert(crate::structure::sel_has_oob(indices, rc));
            }
        }
        let j0 = crate::structure::resolve_idx(indices[lo], rc);
        crate::array::mul_le_mono(j0, rc - 1, rl);
        assert((rc - 1) * rl + rl == rc * rl) by (nonlinear_arith);
        crate::array::mul_le_mono(0, j0, rl);
        lemma_cat_rows_uniform_len(g, lo + 1, end, rl, id, rc, indices);
        assert(rl + (end - lo - 1) * rl == (end - lo) * rl) by (nonlinear_arith);
    } else {
        if lo <= end {
            assert((end - lo) * rl == 0) by (nonlinear_arith)
                requires
                    end == lo,
            ;
        }
    }
}

} // verus!
// Rotating back by the negated offset undoes a rotation.

verus! {

/// Row `k` of a concatenation of uniform-length rows is the `k`-th piece.
proof fn lemma_cat_rows_row<T>(g: spec_fn(int) -> Seq<T>, lo: int, end: int, k: int, rl: int)
    requires
        0 <= lo <= k < end,
        rl >= 0,
        forall|q: int| lo <= q < end ==> (#[trigger] g(q)).len() == rl,
    ensures
        row_at(cat_rows(g, lo, end), rl, k - lo) == g(k),
    decreases k - lo,
{
    lemma_cat_rows_len(g, lo, end, rl);
    lemma_cat_rows_len(g, lo + 1, end, rl);
    if k == lo {
        assert(0 * rl == 0) by (nonlinear_arith);
        crate::array::mul_le_mono(1, end - lo, rl);
        assert(1 * rl == rl);
        assert(cat_rows(g, lo, end) == g(lo) + cat_rows(g, lo + 1, end));
        assert(row_at(cat_rows(g, lo, end), rl, 0) =~= g(lo));
    } else {
        lemma_cat_rows_row(g, lo + 1, end, k, rl);
        assert((k - lo) * rl == (k - lo - 1) * rl + rl) by (nonlinear_arith);
        crate::array::mul_le_mono(k - lo + 1, end - lo, rl);
        assert((k - lo + 1) * rl == (k - lo) * rl + rl) by (nonlinear_arith);
        crate::array::mul_le_mono(0, k - lo - 1, rl);
        assert(row_at(cat_rows(g, lo, end), rl, k - lo) =~= row_at(
            cat_rows(g, lo + 1, end),
            rl,
            k - lo - 1,
        ));
    }
}

proof fn lemma_cat_rows_len<T>(g: spec_fn(int) -> Seq<T>, lo: int, end: int, rl: int)
    requires
        rl >= 0,
        forall|q: int| lo <= q < end ==> (#[trigger] g(q)).len() == rl,
    ensures
        cat_rows(g, lo, end).len() == (if lo >= 0 && lo <= end {
            (end - lo) * rl
        } else {
            0
        }),
    decreases end - lo,
{
    if 0 <= lo < end {
        lemma_cat_rows_len(g, lo + 1, end, rl);
        assert(rl + (end - lo - 1) * rl == (end - lo) * rl) by (nonlinear_arith);
    } else {
        if lo >= 0 && lo <= end {
            assert((end - lo) * rl == 0) by (nonlinear_arith)
                requires
                    end == lo,
            ;
        }
    }
}

/// A rotation is, level by level, the concatenation of the cyclically
/// shifted rows, each rotated in turn by the remaining offsets.
proof fn lemma_rotate_as_cat<T>(by: Seq<isize>, s: Seq<usize>, d: Seq<T>, i: int)
    requires
        by.len() >= 1,
        s.len() >= 1,
        s[0] > 0,
        0 <= i,
    ensures
        crate::rotate::rotate_cat(by, s, d, i) == cat_rows(
            |q: int|
                crate::rotate::rotate_spec(
                    by.skip(1),
                    s.skip(1),
                    row_at(d, prod(s.skip(1)), crate::shape::emod(q + by[0], s[0] as int)),
                ),
            i,
            s[0] as int,
        ),
    decreases s[0] - i,
{
    let rc = s[0] as int;
    let rl = prod(s.skip(1));
    let g = |q: int|
        crate::rotate::rotate_spec(
            by.skip(1),
            s.skip(1),
            row_at(d, rl, crate::shape::emod(q + by[0], rc)),
        );
    if i >= rc {
        assert(crate::rotate::rotate_cat(by, s, d, i) =~= Seq::<T>::empty());
        assert(cat_rows(g, i, rc) =~= Seq::<T>::empty());
    } else {
        lemma_rotate_as_cat(by, s, d, i + 1);
    }
}

/// Cyclic rotation is invertible: rotating by an offset vector and then by
/// its negation restores the array, when no fill value turns the rotation
/// into a shift.
pub proof fn lemma_rotate_inverse<T>(by1: Seq<isize>, by2: Seq<isize>, s: Seq<usize>, d: Seq<T>)
    requires
        d.len() == prod(s),
        by1.len() == by2.len(),
        forall|i: int| 0 <= i < by1.len() ==> #[trigger] by1[i] + by2[i] == 0,
    ensures
        crate::rotate::rotate_spec(by1, s, crate::rotate::rotate_spec(by2, s, d)) == d,
    decreases s.len(),
{
    if by1.len() == 0 || s.len() == 0 || s[0] == 0 {
        // Both rotations leave the data alone.
    } else {
        let rc = s[0] as int;
        let rl = prod(s.skip(1));
        lemma_prod_nonneg(s.skip(1));
        assert(prod(s) == rc * rl);
        let g2 = |q: int|
            crate::rotate::rotate_spec(
                by2.skip(1),
                s.skip(1),
                row_at(d, rl, crate::shape::emod(q + by2[0], rc)),
            );
        let inner = crate::rotate::rotate_spec(by2, s, d);
        lemma_rotate_as_cat(by2, s, d, 0);
        assert(inner == cat_rows(g2, 0, rc));
        // Every shifted-and-rotated row keeps the row length.
        assert forall|q: int| 0 <= q < rc implies (#[trigger] g2(q)).len() == rl by {
            vstd::arithmetic::div_mod::lemma_mod_bound(q + by2[0], rc);
            let m = crate::shape::emod(q + by2[0], rc);
            crate::array::mul_le_mono(m, rc - 1, rl);
            assert((rc - 1) * rl + rl == rc * rl) by (nonlinear_arith);
            crate::array::mul_le_mono(0, m, rl);
            assert(row_at(d, rl, m).len() == rl);
            crate::rotate::lemma_rotate_spec_len(by2.skip(1), s.skip(1), row_at(d, rl, m));
        }
        lemma_cat_rows_len(g2, 0, rc, rl);
        let g1 = |q: int|
            crate::rotate::rotate_spec(
                by1.skip(1),
                s.skip(1),
                row_at(inner, rl, crate::shape::emod(q + by1[0], rc)),
            );
        lemma_rotate_as_cat(by1, s, inner, 0);
        assert(crate::rotate::rotate_spec(by1, s, inner) == cat_rows(g1, 0, rc));
        // The two shifts cancel row by row, and the tails cancel by
        // induction.
        assert forall|q: int| 0 <= q < rc implies #[trigger] g1(q) == row_at(d, rl, q) by {
            vstd::arithmetic::div_mod::lemma_mod_bound(q + by1[0], rc);
            let m1 = crate::shape::emod(q + by1[0], rc);
            lemma_cat_rows_row(g2, 0, rc, m1, rl);
            assert(row_at(inner, rl, m1) == g2(m1));
            assert(by1[0] + by2[0] == 0);
            assert(crate::shape::emod(m1 + by2[0], rc) == crate::shape::emod((q + by1[0]) + by2[0], rc))
                by {
                vstd::arithmetic::div_mod::lemma_add_mod_noop(m1, by2[0] as int, rc);
                vstd::arithmetic::div_mod::lemma_mod_twice(q + by1[0], rc);
                vstd::arithmetic::div_mod::lemma_add_mod_noop(q + by1[0], by2[0] as int, rc);
                assert(m1 % rc == (q + by1[0]) % rc);
            }
            assert((q + by1[0]) + by2[0] == q);
            vstd::arithmetic::div_mod::lemma_small_mod(q as nat, rc as nat);
            assert(g2(m1) == crate::rotate::rotate_spec(
                by2.skip(1),
                s.skip(1),
                row_at(d, rl, q),
            ));
            // The remaining offsets still negate each other pairwise.
            assert forall|p: int|
                0 <= p < by1.skip(1).len() implies #[trigger] by1.skip(1)[p] + by2.skip(1)[p]
                == 0 by {
                assert(by1[p + 1] + by2[p + 1] == 0);
            }
            crate::array::mul_le_mono(q, rc - 1, rl);
            assert((rc - 1) * rl + rl == rc * rl) by (nonlinear_arith);
            crate::array::mul_le_mono(0, q, rl);
            assert(row_at(d, rl, q).len() == rl);
            lemma_rotate_inverse(by1.skip(1), by2.skip(1), s.skip(1), row_at(d, rl, q));
        }
        let gid = |q: int| row_at(d, rl, q);
        assert forall|q: int| 0 <= q < rc implies #[trigger] gid(q) == g1(q) by {}
        lemma_cat_rows_ext(g1, gid, 0, rc);
        lemma_rows_concat(d, rl, 0, rc, gid);
        assert(d.subrange(0, rc * rl) =~= d);
    }
}

/// Concatenation respects pointwise-equal row producers.
proof fn lemma_cat_rows_ext<T>(g1: spec_fn(int) -> Seq<T>, g2: spec_fn(int) -> Seq<T>, lo: int, end: int)
    requires
        forall|q: int| lo <= q < end ==> #[trigger] g1(q) == g2(q),
    ensures
        cat_rows(g1, lo, end) == cat_rows(g2, lo, end),
    decreases end - lo,
{
    if lo < end && lo >= 0 {
        lemma_cat_rows_ext(g1, g2, lo + 1, end);
    }
}

} // verus!
// Undoing a point pick restores the array.

verus! {

/// An in-bounds point pick succeeds and is exactly the block starting at
/// the position `unpick` splices back to.
pub proof fn lemma_pick_is_block<T>(index: Seq<isize>, s: Seq<usize>, d: Seq<T>, fill: Option<T>, axis: int)
    requires
        index.len() <= s.len(),
        d.len() == prod(s),
        !crate::structure::index_has_oob(index, s),
    ensures
        crate::structure::pick_single_res(index, s, d, fill, axis) == Ok::<
            Seq<T>,
            crate::error::ArrayError,
        >(
            d.subrange(
                crate::structure::unpick_start(index, s),
                crate::structure::unpick_start(index, s) + prod(s.skip(index.len() as int)),
            ),
        ),
    decreases index.len(),
{
    crate::structure::lemma_unpick_start_bound(index, s);
    if index.len() == 0 {
        assert(s.skip(0) =~= s);
        assert(d.subrange(0, d.len() as int) =~= d);
    } else {
        let rc = s[0] as int;
        let rl = prod(s.skip(1));
        lemma_prod_nonneg(s.skip(1));
        assert(prod(s) == rc * rl);
        let j = crate::structure::resolve_idx(index[0], rc);
        assert(0 <= j < rc) by {
            if !(0 <= j < rc) {
                assert(crate::structure::index_has_oob(index, s));
            }
        }
        assert forall|a: int|
            0 <= a < index.skip(1).len() implies 0 <= crate::structure::resolve_idx(
            #[trigger] index.skip(1)[a],
            s.skip(1)[a] as int,
        ) < s.skip(1)[a] by {
            assert(index[a + 1] == index.skip(1)[a]);
            assert(s[a + 1] == s.skip(1)[a]);
            if !(0 <= crate::structure::resolve_idx(index[a + 1], s[a + 1] as int) < s[a + 1]) {
                assert(crate::structure::index_has_oob(index, s));
            }
        }
        assert(!crate::structure::index_has_oob(index.skip(1), s.skip(1))) by {
            if crate::structure::index_has_oob(index.skip(1), s.skip(1)) {
                let a = choose|a: int|
                    0 <= a < index.skip(1).len() && !(0 <= crate::structure::resolve_idx(
                        #[trigger] index.skip(1)[a],
                        s.skip(1)[a] as int,
                    ) < s.skip(1)[a]);
                assert(false);
            }
        }
        crate::array::mul_le_mono(j, rc - 1, rl);
        assert((rc - 1) * rl + rl == rc * rl) by (nonlinear_arith);
        crate::array::mul_le_mono(0, j, rl);
        let row = row_at(d, rl, j);
        assert(row.len() == rl);
        lemma_pick_is_block(index.skip(1), s.skip(1), row, fill, axis + 1);
        crate::structure::lemma_unpick_start_bound(index.skip(1), s.skip(1));
        let st = crate::structure::unpick_start(index.skip(1), s.skip(1));
        assert(s.skip(1).skip(index.len() - 1) =~= s.skip(index.len() as int));
        let block = prod(s.skip(index.len() as int));
        assert(0 <= st);
        assert(st + block <= rl);
        assert(0 <= j * rl);
        assert(j * rl + rl <= d.len());
        assert(block >= 0) by {
            lemma_prod_nonneg(s.skip(index.len() as int));
        }
        assert forall|q: int| 0 <= q < block implies #[trigger] row.subrange(st, st + block)[q]
            == d.subrange(j * rl + st, j * rl + st + block)[q] by {
            assert(row.subrange(st, st + block)[q] == row[st + q]);
            assert(row[st + q] == d[j * rl + st + q]);
        }
        assert(row.subrange(st, st + block) =~= d.subrange(j * rl + st, j * rl + st + block));
    }
}

/// Splicing a pick's own block back where it came from changes nothing:
/// `unpick` after `pick` (with in-bounds indices and no edit) restores the
/// array.
pub proof fn lemma_unpick_pick_identity<T>(index: Seq<isize>, s: Seq<usize>, d: Seq<T>, fill: Option<T>)
    requires
        index.len() <= s.len(),
        d.len() == prod(s),
        !crate::structure::index_has_oob(index, s),
    ensures
        crate::structure::pick_single_res(index, s, d, fill, 0) matches Ok(nd)
            && crate::structure::splice(d, crate::structure::unpick_start(index, s), nd) == d,
{
    lemma_pick_is_block(index, s, d, fill, 0);
    crate::structure::lemma_unpick_start_bound(index, s);
    let st = crate::structure::unpick_start(index, s);
    let block = prod(s.skip(index.len() as int));
    assert(0 <= st && st + block <= d.len());
    assert(block >= 0) by {
        lemma_prod_nonneg(s.skip(index.len() as int));
    }
    assert(crate::structure::splice(d, st, d.subrange(st, st + block)) =~= d);
}

} // verus!
// Undoing a boolean keep restores the array.

verus! {

/// For boolean counts, the kept data holds `sum(counts[a..])` rows.
proof fn lemma_keep_rows_len_bool<T>(counts: Seq<usize>, rl: int, d: Seq<T>, a: int)
    requires
        0 <= a <= counts.len(),
        rl >= 0,
        crate::keep::all_boolean(counts),
        counts.len() * rl <= d.len(),
    ensures
        crate::keep::keep_rows(counts, rl, d, a).len() == (sum(counts) - sum(counts.take(a)))
            * rl,
    decreases counts.len() - a,
{
    crate::shape::lemma_sum_split(counts, a);
    crate::shape::lemma_sum_nonneg(counts.skip(a));
    if a == counts.len() {
        assert(counts.take(a) =~= counts);
        assert((sum(counts) - sum(counts)) * rl == 0) by (nonlinear_arith);
    } else {
        lemma_keep_rows_len_bool(counts, rl, d, a + 1);
        lemma_sum_last(counts.take(a + 1));
        assert(counts.take(a + 1).take(a) =~= counts.take(a));
        assert(counts.take(a + 1)[a] == counts[a]);
        crate::array::mul_le_mono(a, counts.len() as int - 1, rl);
        assert((counts.len() - 1) * rl + rl == counts.len() * rl) by (nonlinear_arith);
        crate::array::mul_le_mono(0, a, rl);
        assert(row_at(d, rl, a).len() == rl);
        crate::shape::lemma_repeat_seq_len(row_at(d, rl, a), counts[a] as int);
        let ca = counts[a] as int;
        let rest = sum(counts) - sum(counts.take(a + 1));
        assert(ca * rl + rest * rl == (ca + rest) * rl) by (nonlinear_arith);
    }
}

/// For boolean counts, the kept row numbered `sum(counts[..i])` is row `i`
/// of the source, when row `i` was kept.
proof fn lemma_kept_row_is_source_row<T>(counts: Seq<usize>, rl: int, d: Seq<T>, a: int, i: int)
    requires
        0 <= a <= i < counts.len(),
        rl >= 0,
        counts[i] == 1,
        crate::keep::all_boolean(counts),
        counts.len() * rl <= d.len(),
    ensures
        row_at(
            crate::keep::keep_rows(counts, rl, d, a),
            rl,
            sum(counts.take(i)) - sum(counts.take(a)),
        ) == row_at(d, rl, i),
    decreases i - a,
{
    let kd = crate::keep::keep_rows(counts, rl, d, a);
    let kd1 = crate::keep::keep_rows(counts, rl, d, a + 1);
    crate::array::mul_le_mono(a, counts.len() as int - 1, rl);
    assert((counts.len() - 1) * rl + rl == counts.len() * rl) by (nonlinear_arith);
    crate::array::mul_le_mono(0, a, rl);
    assert(row_at(d, rl, a).len() == rl);
    crate::shape::lemma_repeat_seq_len(row_at(d, rl, a), counts[a] as int);
    lemma_keep_rows_len_bool(counts, rl, d, a + 1);
    lemma_sum_last(counts.take(a + 1));
    assert(counts.take(a + 1).take(a) =~= counts.take(a));
    assert(counts.take(a + 1)[a] == counts[a]);
    crate::shape::lemma_sum_nonneg(counts.take(a));
    if a == i {
        // The first kept row here is row `i` itself.
        assert(kd == repeat_seq(row_at(d, rl, a), 1) + kd1);
        assert(repeat_seq(row_at(d, rl, a), 0) =~= Seq::<T>::empty());
        assert(repeat_seq(row_at(d, rl, a), 1) =~= row_at(d, rl, a));
        assert(0 * rl == 0) by (nonlinear_arith);
        assert(row_at(kd, rl, 0) =~= row_at(d, rl, a));
    } else {
        crate::shape::lemma_sum_monotone(counts, a + 1, i);
        lemma_kept_row_is_source_row(counts, rl, d, a + 1, i);
        let k = sum(counts.take(i)) - sum(counts.take(a));
        let k1 = sum(counts.take(i)) - sum(counts.take(a + 1));
        let ca = counts[a] as int;
        assert(k == k1 + ca);
        crate::shape::lemma_sum_monotone(counts, i, i + 1);
        lemma_sum_last(counts.take(i + 1));
        assert(counts.take(i + 1).take(i) =~= counts.take(i));
        assert(counts.take(i + 1)[i] == counts[i]);
        // Row `k` of the suffix's kept data sits after the `ca` copies of
        // row `a`.
        assert(kd == repeat_seq(row_at(d, rl, a), ca) + kd1);
        assert(k1 >= 0);
        assert(k * rl == ca * rl + k1 * rl) by (nonlinear_arith)
            requires
                k == k1 + ca,
        ;
        crate::shape::lemma_sum_split(counts, i);
        crate::shape::lemma_sum_nonneg(counts.skip(i));
        assert((k1 + 1) * rl == k1 * rl + rl) by (nonlinear_arith);
        // Bounds: the looked-up row lies inside the suffix's kept data.
        assert(sum(counts.take(i)) + 1 <= sum(counts)) by {
            crate::shape::lemma_sum_monotone(counts, i + 1, counts.len() as int);
            assert(counts.take(counts.len() as int) =~= counts);
        }
        assert(k1 * rl + rl <= kd1.len()) by {
            assert(kd1.len() == (sum(counts) - sum(counts.take(a + 1))) * rl);
            assert((k1 + 1) <= sum(counts) - sum(counts.take(a + 1)));
            crate::array::mul_le_mono(k1 + 1, sum(counts) - sum(counts.take(a + 1)), rl);
        }
        assert(row_at(kd, rl, k) =~= row_at(kd1, rl, k1));
    }
}

/// Undoing a keep with the unedited kept array restores the source: kept
/// positions take back their own rows, dropped positions keep the target's.
pub proof fn lemma_unkeep_restores<T>(counts: Seq<usize>, s: Seq<usize>, d: Seq<T>, i: int)
    requires
        s.len() >= 1,
        d.len() == prod(s),
        counts.len() == s[0],
        crate::keep::all_boolean(counts),
        0 <= i <= counts.len(),
    ensures
        crate::keep::merge_keep(
            counts,
            counts.len() as int,
            prod(s.skip(1)),
            crate::keep::keep_rows(counts, prod(s.skip(1)), d, 0),
            d,
            i,
            sum(counts.take(i)),
        ) == d.subrange(i * prod(s.skip(1)), d.len() as int),
    decreases counts.len() - i,
{
    let rl = prod(s.skip(1));
    let n = counts.len() as int;
    lemma_prod_nonneg(s.skip(1));
    assert(prod(s) == s[0] * rl);
    let kd = crate::keep::keep_rows(counts, rl, d, 0);
    crate::array::mul_le_mono(i, n, rl);
    crate::array::mul_le_mono(0, i, rl);
    if i == n {
        assert(d.subrange(n * rl, d.len() as int) =~= Seq::<T>::empty());
    } else {
        lemma_unkeep_restores(counts, s, d, i + 1);
        lemma_sum_last(counts.take(i + 1));
        assert(counts.take(i + 1).take(i) =~= counts.take(i));
        assert(counts.take(i + 1)[i] == counts[i]);
        crate::array::mul_le_mono(i + 1, n, rl);
        assert((i + 1) * rl == i * rl + rl) by (nonlinear_arith);
        if counts[i] == 0 {
            assert(row_at(d, rl, i) + d.subrange((i + 1) * rl, d.len() as int) =~= d.subrange(
                i * rl,
                d.len() as int,
            ));
        } else {
            assert(counts.take(0) =~= Seq::<usize>::empty());
            lemma_kept_row_is_source_row(counts, rl, d, 0, i);
            assert(row_at(kd, rl, sum(counts.take(i))) == row_at(d, rl, i));
            assert(row_at(d, rl, i) + d.subrange((i + 1) * rl, d.len() as int) =~= d.subrange(
                i * rl,
                d.len() as int,
            ));
        }
    }
}

} // verus!
