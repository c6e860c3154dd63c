//! Shapes: ordered lists of per-axis element counts, outermost first.
//!
//! The product of a shape is the element count of an array of that shape; the
//! product of all but the leading dimension is the row length.

use vstd::prelude::*;

verus! {

/// Element count of an array whose shape is `s`: the product of all dimensions.
pub open spec fn prod(s: Seq<usize>) -> int
    decreases s.len(),
{
    if s.len() == 0 {
        1
    } else {
        s[0] * prod(s.skip(1))
    }
}

pub proof fn lemma_prod_nonneg(s: Seq<usize>)
    ensures
        prod(s) >= 0,
    decreases s.len(),
{
    if s.len() > 0 {
        lemma_prod_nonneg(s.skip(1));
    }
}

/// Peeling a dimension off the back of a shape divides the product.
pub proof fn lemma_prod_last(s: Seq<usize>)
    requires
        s.len() > 0,
    ensures
        prod(s) == prod(s.take(s.len() - 1)) * s[s.len() - 1],
    decreases s.len(),
{
    if s.len() == 1 {
        assert(s.take(0) =~= Seq::<usize>::empty());
        assert(s.skip(1) =~= Seq::<usize>::empty());
    } else {
        lemma_prod_last(s.skip(1));
        assert(s.skip(1).take(s.len() - 2) =~= s.take(s.len() - 1).skip(1));
        assert(s.skip(1)[s.len() - 2] == s[s.len() - 1]);
        let h = s[0] as int;
        let p = prod(s.take(s.len() - 1).skip(1));
        let l = s[s.len() - 1] as int;
        assert(prod(s) == h * (p * l));
        assert(prod(s.take(s.len() - 1)) == h * p);
        assert(h * (p * l) == (h * p) * l) by (nonlinear_arith);
    }
}

/// Every suffix product of the shape fits in the machine's address space.
///
/// Row lengths at every depth are suffix products, so this is what lets the
/// engine compute them without overflow.
pub open spec fn suffix_fits(s: Seq<usize>) -> bool {
    forall|i: int| 0 <= i <= s.len() ==> prod(#[trigger] s.skip(i)) <= usize::MAX
}

pub proof fn lemma_suffix_fits_skip(s: Seq<usize>, k: int)
    requires
        suffix_fits(s),
        0 <= k <= s.len(),
    ensures
        suffix_fits(s.skip(k)),
{
    assert forall|i: int| 0 <= i <= s.skip(k).len() implies prod(
        #[trigger] s.skip(k).skip(i),
    ) <= usize::MAX by {
        assert(s.skip(k).skip(i) =~= s.skip(k + i));
    }
}

/// Prepending a dimension keeps every suffix product addressable as long as
/// the new total is.
pub proof fn lemma_suffix_fits_cons(n: usize, s: Seq<usize>)
    requires
        suffix_fits(s),
        n * prod(s) <= usize::MAX,
    ensures
        suffix_fits(seq![n] + s),
        prod(seq![n] + s) == n * prod(s),
{
    let c = seq![n] + s;
    assert(c.skip(1) =~= s);
    assert forall|i: int| 0 <= i <= c.len() implies prod(#[trigger] c.skip(i)) <= usize::MAX by {
        if i == 0 {
            assert(c.skip(0) =~= c);
        } else {
            assert(c.skip(i) =~= s.skip(i - 1));
        }
    }
}

/// `d` repeated `n` times, end to end.
pub open spec fn repeat_seq<T>(d: Seq<T>, n: int) -> Seq<T>
    decreases n,
{
    if n <= 0 {
        Seq::empty()
    } else {
        repeat_seq(d, n - 1) + d
    }
}

pub proof fn lemma_repeat_seq_len<T>(d: Seq<T>, n: int)
    requires
        n >= 0,
    ensures
        repeat_seq(d, n).len() == n * d.len(),
    decreases n,
{
    let l = d.len() as int;
    if n > 0 {
        lemma_repeat_seq_len(d, n - 1);
        assert(repeat_seq(d, n) == repeat_seq(d, n - 1) + d);
        assert(repeat_seq(d, n).len() == (n - 1) * l + l);
        assert((n - 1) * l + l == n * l) by (nonlinear_arith);
        assert(repeat_seq(d, n).len() == n * l);
    } else {
        assert(repeat_seq(d, 0).len() == 0);
        assert(n * l == 0) by (nonlinear_arith)
            requires n == 0,
        ;
    }
}

/// A shape with a zero dimension has product zero; one without has a positive product.
pub proof fn lemma_prod_zero(s: Seq<usize>)
    ensures
        (exists|i: int| 0 <= i < s.len() && s[i] == 0) <==> prod(s) == 0,
    decreases s.len(),
{
    if s.len() > 0 {
        lemma_prod_zero(s.skip(1));
        lemma_prod_nonneg(s.skip(1));
        let h = s[0] as int;
        let t = prod(s.skip(1));
        assert(h * t == 0 <==> h == 0 || t == 0) by (nonlinear_arith);
        assert(prod(s) == h * t);
        if s[0] == 0 {
            assert(s[0] == 0 && 0 <= 0 < s.len());
        } else if exists|i: int| 0 <= i < s.skip(1).len() && s.skip(1)[i] == 0 {
            let i = choose|i: int| 0 <= i < s.skip(1).len() && s.skip(1)[i] == 0;
            assert(s[i + 1] == s.skip(1)[i]);
        } else {
            assert(t != 0);
            assert(prod(s) != 0);
            assert forall|i: int| 0 <= i < s.len() implies s[i] != 0 by {
                if i > 0 {
                    assert(s.skip(1)[i - 1] == s[i]);
                }
            }
        }
    }
}

/// The product of a one-dimension shape is that dimension.
pub proof fn lemma_prod_singleton(s: Seq<usize>)
    requires
        s.len() == 1,
    ensures
        prod(s) == s[0],
{
    assert(s.skip(1) =~= Seq::<usize>::empty());
    assert(prod(s.skip(1)) == 1);
}

/// Compute the product of `s[from..]`, the row length at depth `from`.
pub fn suffix_product(s: &Vec<usize>, from: usize) -> (r: usize)
    requires
        suffix_fits(s@),
        from <= s.len(),
    ensures
        r == prod(s@.skip(from as int)),
{
    let mut acc: usize = 1;
    let mut j: usize = s.len();
    assert(s@.skip(j as int) =~= Seq::<usize>::empty());
    while j > from
        invariant
            from <= j <= s.len(),
            suffix_fits(s@),
            acc == prod(s@.skip(j as int)),
        decreases j,
    {
        j = j - 1;
        proof {
            assert(s@.skip(j as int).skip(1) =~= s@.skip(j + 1));
            assert(prod(s@.skip(j as int)) == s[j as int] * prod(s@.skip(j + 1)));
            lemma_prod_nonneg(s@.skip(j + 1));
        }
        acc = s[j] * acc;
    }
    acc
}

/// Try to compute the product of a would-be shape, deciding at the same time
/// whether all of its suffix products are addressable.
pub fn try_prod(s: &Vec<usize>) -> (r: Option<usize>)
    ensures
        match r {
            Some(p) => suffix_fits(s@) && p == prod(s@),
            None => !suffix_fits(s@),
        },
{
    let mut acc: usize = 1;
    let mut j: usize = s.len();
    assert(s@.skip(j as int) =~= Seq::<usize>::empty());
    while j > 0
        invariant
            j <= s.len(),
            acc == prod(s@.skip(j as int)),
            forall|i: int| j <= i <= s@.len() ==> prod(#[trigger] s@.skip(i)) <= usize::MAX,
        decreases j,
    {
        j = j - 1;
        proof {
            assert(s@.skip(j as int).skip(1) =~= s@.skip(j + 1));
            assert(prod(s@.skip(j as int)) == s[j as int] * prod(s@.skip(j + 1)));
            lemma_prod_nonneg(s@.skip(j + 1));
        }
        match s[j].checked_mul(acc) {
            Some(p) => {
                acc = p;
            },
            None => {
                assert(prod(s@.skip(j as int)) > usize::MAX);
                return None;
            },
        }
    }
    assert(s@.skip(0) =~= s@);
    Some(acc)
}

/// Splitting a shape splits its product.
pub proof fn lemma_prod_split(s: Seq<usize>, k: int)
    requires
        0 <= k <= s.len(),
    ensures
        prod(s) == prod(s.take(k)) * prod(s.skip(k)),
    decreases k,
{
    if k == 0 {
        assert(s.take(0) =~= Seq::<usize>::empty());
        assert(s.skip(0) =~= s);
    } else {
        lemma_prod_split(s.skip(1), k - 1);
        assert(s.skip(1).take(k - 1) =~= s.take(k).skip(1));
        assert(s.skip(1).skip(k - 1) =~= s.skip(k));
        let h = s[0] as int;
        let a = prod(s.take(k).skip(1));
        let b = prod(s.skip(k));
        assert(prod(s) == h * (a * b));
        assert(prod(s.take(k)) == h * a);
        assert(h * (a * b) == (h * a) * b) by (nonlinear_arith);
    }
}

/// Try to compute the product of the first `k` dimensions.
pub fn try_prefix_prod(s: &Vec<usize>, k: usize) -> (r: Option<usize>)
    requires
        k <= s.len(),
    ensures
        match r {
            Some(p) => p == prod(s@.take(k as int)),
            None => prod(s@.take(k as int)) > usize::MAX,
        },
{
    let mut acc_opt: Option<usize> = Some(1);
    let mut j: usize = 0;
    proof {
        assert(s@.take(0) =~= Seq::<usize>::empty());
    }
    while j < k
        invariant
            j <= k <= s@.len(),
            match acc_opt {
                Some(a) => a == prod(s@.take(j as int)),
                None => prod(s@.take(j as int)) > usize::MAX,
            },
        decreases k - j,
    {
        proof {
            lemma_prod_last(s@.take(j + 1));
            assert(s@.take(j + 1).take(j as int) =~= s@.take(j as int));
            assert(s@.take(j + 1)[j as int] == s@[j as int]);
            lemma_prod_nonneg(s@.take(j as int));
        }
        let x = s[j];
        match acc_opt {
            Some(a) => {
                acc_opt = a.checked_mul(x);
            },
            None => {
                let p = Ghost(prod(s@.take(j as int)));
                if x == 0 {
                    proof {
                        assert(p@ * x == 0) by (nonlinear_arith)
                            requires
                                x == 0,
                        ;
                    }
                    acc_opt = Some(0);
                } else {
                    proof {
                        assert(p@ * x >= p@) by (nonlinear_arith)
                            requires
                                x >= 1,
                                p@ >= 0,
                        ;
                    }
                    acc_opt = None;
                }
            },
        }
        j = j + 1;
    }
    acc_opt
}

/// Sum of a sequence of counts.
pub open spec fn sum(s: Seq<usize>) -> int
    decreases s.len(),
{
    if s.len() == 0 {
        0
    } else {
        s[0] + sum(s.skip(1))
    }
}

pub proof fn lemma_sum_nonneg(s: Seq<usize>)
    ensures
        sum(s) >= 0,
    decreases s.len(),
{
    if s.len() > 0 {
        lemma_sum_nonneg(s.skip(1));
    }
}

/// Peeling a count off the back of the sequence splits the sum.
pub proof fn lemma_sum_last(s: Seq<usize>)
    requires
        s.len() > 0,
    ensures
        sum(s) == sum(s.take(s.len() - 1)) + s[s.len() - 1],
    decreases s.len(),
{
    if s.len() == 1 {
        assert(s.take(0) =~= Seq::<usize>::empty());
        assert(s.skip(1) =~= Seq::<usize>::empty());
    } else {
        lemma_sum_last(s.skip(1));
        assert(s.skip(1).take(s.len() - 2) =~= s.take(s.len() - 1).skip(1));
        assert(s.skip(1)[s.len() - 2] == s[s.len() - 1]);
    }
}

/// Splitting the sequence splits the sum.
pub proof fn lemma_sum_split(s: Seq<usize>, k: int)
    requires
        0 <= k <= s.len(),
    ensures
        sum(s) == sum(s.take(k)) + sum(s.skip(k)),
    decreases k,
{
    if k == 0 {
        assert(s.take(0) =~= Seq::<usize>::empty());
        assert(s.skip(0) =~= s);
    } else {
        lemma_sum_split(s.skip(1), k - 1);
        assert(s.skip(1).take(k - 1) =~= s.take(k).skip(1));
        assert(s.skip(1).skip(k - 1) =~= s.skip(k));
    }
}

/// Try to compute the sum of a sequence of counts.
pub fn try_sum(s: &Vec<usize>, upto: usize) -> (r: Option<usize>)
    requires
        upto <= s.len(),
    ensures
        match r {
            Some(p) => p == sum(s@.take(upto as int)),
            None => sum(s@.take(upto as int)) > usize::MAX,
        },
{
    let mut acc: usize = 0;
    let mut j: usize = 0;
    proof {
        assert(s@.take(0) =~= Seq::<usize>::empty());
    }
    while j < upto
        invariant
            j <= upto <= s@.len(),
            acc == sum(s@.take(j as int)),
        decreases upto - j,
    {
        proof {
            lemma_sum_last(s@.take(j + 1));
            assert(s@.take(j + 1).take(j as int) =~= s@.take(j as int));
            assert(s@.take(j + 1)[j as int] == s@[j as int]);
            lemma_sum_nonneg(s@.take(j as int));
        }
        let x = s[j];
        if acc > usize::MAX - x {
            proof {
                lemma_sum_monotone(s@, j + 1, upto as int);
            }
            return None;
        }
        acc = acc + x;
        j = j + 1;
    }
    Some(acc)
}

/// Sums of counts only grow with more counts.
pub proof fn lemma_sum_monotone(s: Seq<usize>, i: int, j: int)
    requires
        0 <= i <= j <= s.len(),
    ensures
        sum(s.take(i)) <= sum(s.take(j)),
    decreases j - i,
{
    if i < j {
        lemma_sum_monotone(s, i + 1, j);
        lemma_sum_last(s.take(i + 1));
        assert(s.take(i + 1).take(i) =~= s.take(i));
    }
}

/// Magnitude of a signed index.
pub fn abs_isize(i: isize) -> (r: usize)
    ensures
        i >= 0 ==> r == i,
        i < 0 ==> r == -(i as int),
{
    if i >= 0 {
        i as usize
    } else {
        let j = i + 1;
        ((-j) as usize) + 1
    }
}

/// Euclidean remainder of `a` modulo a positive `m`: always in `[0, m)`.
pub open spec fn emod(a: int, m: int) -> int {
    a % m
}

/// Reduce a signed offset to an equivalent position in `[0, len)`.
pub fn wrap_offset(i: isize, len: usize) -> (r: usize)
    requires
        len > 0,
    ensures
        r == emod(i as int, len as int),
{
    let m = len;
    if i >= 0 {
        let r = (i as usize) % m;
        proof {
            vstd::arithmetic::div_mod::lemma_mod_bound(i as int, m as int);
        }
        r
    } else {
        let a = abs_isize(i);
        let r0 = a % m;
        proof {
            let mi = m as int;
            let ai = a as int;
            let q = ai / mi;
            vstd::arithmetic::div_mod::lemma_fundamental_div_mod(ai, mi);
            vstd::arithmetic::div_mod::lemma_mod_bound(ai, mi);
            assert(mi * (-q) == -(mi * q)) by (nonlinear_arith);
            assert(i as int == mi * (-q) + (-(r0 as int)));
            vstd::arithmetic::div_mod::lemma_mod_multiples_vanish(-q, -(r0 as int), mi);
            if r0 == 0 {
                assert((i as int) % mi == 0int % mi);
                vstd::arithmetic::div_mod::lemma_small_mod(0, m as nat);
            } else {
                vstd::arithmetic::div_mod::lemma_mod_multiples_vanish(1, -(r0 as int), mi);
                assert(mi * 1 + (-(r0 as int)) == mi - r0);
                vstd::arithmetic::div_mod::lemma_small_mod((m - r0) as nat, m as nat);
            }
        }
        if r0 == 0 {
            0
        } else {
            m - r0
        }
    }
}

} // verus!
