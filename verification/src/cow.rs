//! The shared buffer: reference-counted, copy-on-write flat storage for the
//! engine's numeric cells.
//!
//! Duplication and sub-range views are cheap handle copies over the same
//! storage; a mutation first secures exclusive, full-extent ownership of the
//! region it touches, copying the live range into fresh storage when another
//! handle aliases it or the view does not span the whole allocation. Readers
//! never observe a later writer's mutation: the buffer has value semantics.

use vstd::prelude::*;

verus! {

#[verifier::external_type_specification]
#[verifier::external_body]
#[verifier::reject_recursive_types(T)]
pub struct ExEcoVec<T>(ecow::EcoVec<T>);

/// The cells a reference-counted storage buffer holds, in order.
pub uninterp spec fn eco_view(v: ecow::EcoVec<i64>) -> Seq<i64>;

/// Relies on `ecow::EcoVec::new`: a new buffer holds nothing.
#[verifier::external_body]
fn eco_new() -> (r: ecow::EcoVec<i64>)
    ensures
        eco_view(r) == Seq::<i64>::empty(),
{
    ecow::EcoVec::new()
}

/// Relies on `ecow::EcoVec::with_capacity`: a new buffer holds nothing,
/// whatever space it reserves.
#[verifier::external_body]
fn eco_with_capacity(capacity: usize) -> (r: ecow::EcoVec<i64>)
    ensures
        eco_view(r) == Seq::<i64>::empty(),
{
    ecow::EcoVec::with_capacity(capacity)
}

/// Relies on `ecow::EcoVec::len`: the number of cells held.
#[verifier::external_body]
fn eco_len(v: &ecow::EcoVec<i64>) -> (r: usize)
    ensures
        r == eco_view(*v).len(),
{
    v.len()
}

/// Relies on slice indexing through `ecow::EcoVec::as_slice`.
#[verifier::external_body]
fn eco_get(v: &ecow::EcoVec<i64>, i: usize) -> (r: i64)
    requires
        i < eco_view(*v).len(),
    ensures
        r == eco_view(*v)[i as int],
{
    v.as_slice()[i]
}

/// Relies on `ecow::EcoVec::push`: one cell appended (cloning the storage
/// first when other handles share it).
#[verifier::external_body]
fn eco_push(v: &mut ecow::EcoVec<i64>, x: i64)
    requires
        eco_view(*old(v)).len() < usize::MAX,
    ensures
        eco_view(*final(v)) == eco_view(*old(v)).push(x),
{
    v.push(x)
}

/// Relies on `ecow::EcoVec::clone`: an O(1) handle over the same cells.
#[verifier::external_body]
fn eco_clone(v: &ecow::EcoVec<i64>) -> (r: ecow::EcoVec<i64>)
    ensures
        eco_view(r) == eco_view(*v),
{
    v.clone()
}

/// Relies on `ecow::EcoVec::is_unique`: whether no other handle shares the
/// storage right now. Nothing can be promised of the answer: it depends on
/// the reference count at the moment of the call.
#[verifier::external_body]
fn eco_is_unique(v: &mut ecow::EcoVec<i64>) -> (r: bool)
    ensures
        eco_view(*final(v)) == eco_view(*old(v)),
{
    v.is_unique()
}

/// Relies on `ecow::EcoVec::make_mut` and slice assignment: writing one cell
/// in place, cloning the storage first when other handles share it.
#[verifier::external_body]
fn eco_set(v: &mut ecow::EcoVec<i64>, i: usize, x: i64)
    requires
        i < eco_view(*old(v)).len(),
    ensures
        eco_view(*final(v)) == eco_view(*old(v)).update(i as int, x),
{
    v.make_mut()[i] = x;
}

/// A sub-range view over reference-counted storage: the engine's flat
/// buffer. Cloning it and slicing it are O(1); mutations copy only when the
/// storage is shared or the view partial.
pub struct CowSlice {
    data: ecow::EcoVec<i64>,
    start: usize,
    end: usize,
}

impl CowSlice {
    /// The view is a window into the storage.
    pub closed spec fn wf(self) -> bool {
        self.start <= self.end <= eco_view(self.data).len()
    }

    /// The visible cells.
    pub closed spec fn contents(self) -> Seq<i64> {
        eco_view(self.data).subrange(self.start as int, self.end as int)
    }

    /// An empty buffer.
    pub fn new() -> (r: CowSlice)
        ensures
            r.wf(),
            r.contents() == Seq::<i64>::empty(),
    {
        let r = CowSlice { data: eco_new(), start: 0, end: 0 };
        proof {
            assert(r.contents() =~= Seq::<i64>::empty());
        }
        r
    }

    /// An empty buffer with space reserved.
    pub fn with_capacity(capacity: usize) -> (r: CowSlice)
        ensures
            r.wf(),
            r.contents() == Seq::<i64>::empty(),
    {
        let r = CowSlice { data: eco_with_capacity(capacity), start: 0, end: 0 };
        proof {
            assert(r.contents() =~= Seq::<i64>::empty());
        }
        r
    }

    /// A buffer holding the given cells.
    pub fn from_vec(v: Vec<i64>) -> (r: CowSlice)
        ensures
            r.wf(),
            r.contents() == v@,
    {
        let mut data = eco_with_capacity(v.len());
        let mut i: usize = 0;
        while i < v.len()
            invariant
                i <= v@.len(),
                eco_view(data) =~= v@.take(i as int),
            decreases v@.len() - i,
        {
            eco_push(&mut data, v[i]);
            i = i + 1;
        }
        let n = eco_len(&data);
        proof {
            assert(eco_view(data) =~= v@);
        }
        let r = CowSlice { data, start: 0, end: n };
        proof {
            assert(r.contents() =~= v@);
        }
        r
    }

    /// The number of visible cells.
    pub fn len(&self) -> (r: usize)
        requires
            self.wf(),
        ensures
            r == self.contents().len(),
    {
        self.end - self.start
    }

    /// The visible cell at `i`.
    pub fn get(&self, i: usize) -> (r: i64)
        requires
            self.wf(),
            i < self.contents().len(),
        ensures
            r == self.contents()[i as int],
    {
        eco_get(&self.data, self.start + i)
    }

    /// Copy the visible cells out.
    pub fn to_vec(&self) -> (r: Vec<i64>)
        requires
            self.wf(),
        ensures
            r@ == self.contents(),
    {
        let n = self.end - self.start;
        let mut out: Vec<i64> = Vec::new();
        let mut i: usize = 0;
        while i < n
            invariant
                i <= n,
                self.wf(),
                n == self.contents().len(),
                out@ =~= self.contents().take(i as int),
            decreases n - i,
        {
            let x = eco_get(&self.data, self.start + i);
            out.push(x);
            i = i + 1;
        }
        proof {
            assert(out@ =~= self.contents());
        }
        out
    }

    /// Shrink the visible window to at most `len` cells. The storage is
    /// never freed eagerly.
    pub fn truncate(&mut self, len: usize)
        requires
            old(self).wf(),
        ensures
            final(self).wf(),
            final(self).contents() == old(self).contents().take(
                (if len <= old(self).contents().len() {
                    len as int
                } else {
                    old(self).contents().len() as int
                }),
            ),
    {
        if len < self.end - self.start {
            self.end = self.start + len;
        }
        proof {
            assert(self.contents() =~= old(self).contents().take(
                (if len <= old(self).contents().len() {
                    len as int
                } else {
                    old(self).contents().len() as int
                }),
            ));
        }
    }

    /// An O(1) view of the sub-range `start..end` of the visible cells, over
    /// the same storage.
    pub fn slice(&self, start: usize, end: usize) -> (r: CowSlice)
        requires
            self.wf(),
            start <= end <= self.contents().len(),
        ensures
            r.wf(),
            r.contents() == self.contents().subrange(start as int, end as int),
    {
        let r = CowSlice {
            data: eco_clone(&self.data),
            start: self.start + start,
            end: self.start + end,
        };
        proof {
            assert(r.contents() =~= self.contents().subrange(start as int, end as int));
        }
        r
    }

    /// Whether no other handle shares the storage right now. The answer is a
    /// moment-in-time fact about reference counts; nothing else is promised
    /// of it.
    pub fn is_unique(&mut self) -> (r: bool)
        requires
            old(self).wf(),
        ensures
            final(self).wf(),
            final(self).contents() == old(self).contents(),
    {
        let r = eco_is_unique(&mut self.data);
        proof {
            assert(self.contents() =~= old(self).contents());
        }
        r
    }

    /// Secure exclusive, full-extent ownership: unless this handle uniquely
    /// owns storage that its view covers entirely, copy the visible range
    /// into fresh storage. This is the one primitive every mutation routes
    /// through; it never changes the visible cells.
    fn make_exclusive(&mut self)
        requires
            old(self).wf(),
        ensures
            final(self).wf(),
            final(self).contents() == old(self).contents(),
            final(self).start == 0,
            final(self).end == eco_view(final(self).data).len(),
    {
        let total = eco_len(&self.data);
        let unique = eco_is_unique(&mut self.data);
        proof {
            assert(self.contents() =~= old(self).contents());
        }
        if unique && self.start == 0 && self.end == total {
            proof {
                assert(self.contents() =~= eco_view(self.data));
            }
            return ;
        }
        let n = self.end - self.start;
        let mut fresh = eco_with_capacity(n);
        let mut i: usize = 0;
        proof {
            assert(self.contents() =~= old(self).contents());
        }
        while i < n
            invariant
                i <= n,
                self.wf(),
                self.contents() == old(self).contents(),
                n == self.contents().len(),
                eco_view(fresh) =~= self.contents().take(i as int),
            decreases n - i,
        {
            let x = eco_get(&self.data, self.start + i);
            proof {
                assert(x == self.contents()[i as int]);
            }
            eco_push(&mut fresh, x);
            i = i + 1;
        }
        proof {
            assert(eco_view(fresh) =~= old(self).contents());
        }
        self.data = fresh;
        self.start = 0;
        self.end = n;
        proof {
            assert(self.contents() =~= old(self).contents());
        }
    }

    /// Append one cell, copying the storage first only when it is shared or
    /// partially viewed.
    pub fn push(&mut self, x: i64)
        requires
            old(self).wf(),
            old(self).contents().len() < usize::MAX,
        ensures
            final(self).wf(),
            final(self).contents() == old(self).contents().push(x),
    {
        self.make_exclusive();
        eco_push(&mut self.data, x);
        self.end = self.end + 1;
        proof {
            assert(self.contents() =~= old(self).contents().push(x));
        }
    }

    /// Append the cells of a vector.
    pub fn extend_from_slice(&mut self, other: &Vec<i64>)
        requires
            old(self).wf(),
            old(self).contents().len() + other@.len() <= usize::MAX,
        ensures
            final(self).wf(),
            final(self).contents() == old(self).contents() + other@,
    {
        self.make_exclusive();
        let n = other.len();
        let mut i: usize = 0;
        while i < n
            invariant
                i <= n == other@.len(),
                self.wf(),
                self.start == 0,
                self.end == eco_view(self.data).len(),
                old(self).contents().len() + n <= usize::MAX,
                self.contents() =~= old(self).contents() + other@.take(i as int),
            decreases n - i,
        {
            proof {
                assert(self.contents() =~= eco_view(self.data));
            }
            eco_push(&mut self.data, other[i]);
            self.end = self.end + 1;
            proof {
                assert(self.contents() =~= old(self).contents() + other@.take(i + 1));
            }
            i = i + 1;
        }
        proof {
            assert(self.contents() =~= old(self).contents() + other@);
        }
    }

    /// Overwrite the visible cell at `i`, copying the storage first only
    /// when it is shared or partially viewed.
    pub fn set(&mut self, i: usize, x: i64)
        requires
            old(self).wf(),
            i < old(self).contents().len(),
        ensures
            final(self).wf(),
            final(self).contents() == old(self).contents().update(i as int, x),
    {
        self.make_exclusive();
        eco_set(&mut self.data, i, x);
        proof {
            assert(self.contents() =~= old(self).contents().update(i as int, x));
        }
    }

    /// Split the buffer: the cells from `at` on move to a fresh buffer, and
    /// this one keeps the prefix.
    pub fn split_off(&mut self, at: usize) -> (r: CowSlice)
        requires
            old(self).wf(),
            at <= old(self).contents().len(),
        ensures
            final(self).wf(),
            r.wf(),
            final(self).contents() == old(self).contents().take(at as int),
            r.contents() == old(self).contents().skip(at as int),
    {
        let n = self.end - self.start;
        let other = self.slice(at, n);
        self.truncate(at);
        proof {
            assert(other.contents() =~= old(self).contents().skip(at as int));
        }
        other
    }
}

} // verus!
