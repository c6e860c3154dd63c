//! The polymorphic value: a closed sum over the concrete element-type
//! arrays. Every operation is defined once per concrete array type and
//! lifted here by exhaustive dispatch; mixed numeric operands are promoted
//! (bytes to numbers), anything else is a named type mismatch.

use vstd::prelude::*;

use crate::array::Array;
use crate::elem::{Complex, Fill};
use crate::error::{ArrayError, TypeTag};

verus! {

/// A dense array of one of the engine's element types.
#[derive(Debug)]
pub enum Value {
    Num(Array<i64>),
    Byte(Array<u8>),
    Char(Array<char>),
    Complex(Array<Complex>),
}

/// Bytes promoted to numbers.
pub open spec fn bytes_as_nums(d: Seq<u8>) -> Seq<i64> {
    Seq::new(d.len(), |i: int| d[i] as i64)
}

/// Numbers reinterpreted as signed machine indices.
pub open spec fn nums_as_indices(d: Seq<i64>) -> Seq<isize> {
    Seq::new(d.len(), |i: int| d[i] as isize)
}

pub open spec fn bytes_as_indices(d: Seq<u8>) -> Seq<isize> {
    Seq::new(d.len(), |i: int| d[i] as isize)
}

/// Do all numbers fit a signed machine index?
pub open spec fn nums_fit_isize(d: Seq<i64>) -> bool {
    forall|i: int| 0 <= i < d.len() ==> isize::MIN <= #[trigger] d[i] <= isize::MAX
}

/// Numbers reinterpreted as counts.
pub open spec fn nums_as_counts(d: Seq<i64>) -> Seq<usize> {
    Seq::new(d.len(), |i: int| d[i] as usize)
}

pub open spec fn bytes_as_counts(d: Seq<u8>) -> Seq<usize> {
    Seq::new(d.len(), |i: int| d[i] as usize)
}

/// Are all numbers within the count range?
pub open spec fn nums_fit_usize(d: Seq<i64>) -> bool {
    forall|i: int| 0 <= i < d.len() ==> 0 <= #[trigger] d[i]
}

/// The first negative number, where one exists.
pub open spec fn first_negative(d: Seq<i64>) -> int
    decreases d.len(),
{
    if d.len() == 0 {
        0
    } else if d[0] < 0 {
        0
    } else {
        1 + first_negative(d.skip(1))
    }
}

/// What reading a value as a list of signed indices yields.
pub open spec fn ints_of(v: Value) -> Result<Seq<isize>, ArrayError> {
    match v {
        Value::Num(a) => if a.shape@.len() > 1 {
            Err(ArrayError::NotIntegers { tag: TypeTag::Num })
        } else if !nums_fit_isize(a.data@) {
            Err(ArrayError::TooLarge)
        } else {
            Ok(nums_as_indices(a.data@))
        },
        Value::Byte(a) => if a.shape@.len() > 1 {
            Err(ArrayError::NotIntegers { tag: TypeTag::Byte })
        } else {
            Ok(bytes_as_indices(a.data@))
        },
        _ => Err(ArrayError::NotIntegers { tag: v.tag_spec() }),
    }
}

/// What reading a value as a list of counts yields.
pub open spec fn nats_of(v: Value) -> Result<Seq<usize>, ArrayError> {
    match v {
        Value::Num(a) => if a.shape@.len() > 1 {
            Err(ArrayError::NotIntegers { tag: TypeTag::Num })
        } else if !nums_fit_usize(a.data@) {
            Err(ArrayError::NegativeCount { value: a.data@[first_negative(a.data@)] })
        } else {
            Ok(nums_as_counts(a.data@))
        },
        Value::Byte(a) => if a.shape@.len() > 1 {
            Err(ArrayError::NotIntegers { tag: TypeTag::Byte })
        } else {
            Ok(bytes_as_counts(a.data@))
        },
        _ => Err(ArrayError::NotIntegers { tag: v.tag_spec() }),
    }
}

/// What reading a value as a shaped index array yields.
pub open spec fn shaped_of(v: Value) -> Result<(Seq<usize>, Seq<isize>), ArrayError> {
    match v {
        Value::Num(a) => if !nums_fit_isize(a.data@) {
            Err(ArrayError::TooLarge)
        } else {
            Ok((a.shape@, nums_as_indices(a.data@)))
        },
        Value::Byte(a) => Ok((a.shape@, bytes_as_indices(a.data@))),
        _ => Err(ArrayError::NotIntegers { tag: v.tag_spec() }),
    }
}

proof fn lemma_first_negative_at(d: Seq<i64>, i: int)
    requires
        0 <= i < d.len(),
        d[i] < 0,
        forall|q: int| 0 <= q < i ==> 0 <= #[trigger] d[q],
    ensures
        first_negative(d) == i,
    decreases i,
{
    if i > 0 {
        assert(forall|q: int| 0 <= q < i - 1 ==> 0 <= #[trigger] d.skip(1)[q]);
        lemma_first_negative_at(d.skip(1), i - 1);
    }
}

impl Value {
    /// Validity of the underlying array.
    pub open spec fn wf(self) -> bool {
        match self {
            Value::Num(a) => a.wf(),
            Value::Byte(a) => a.wf(),
            Value::Char(a) => a.wf(),
            Value::Complex(a) => a.wf(),
        }
    }

    /// The underlying array's shape.
    pub open spec fn shape_spec(self) -> Seq<usize> {
        match self {
            Value::Num(a) => a.shape@,
            Value::Byte(a) => a.shape@,
            Value::Char(a) => a.shape@,
            Value::Complex(a) => a.shape@,
        }
    }

    /// The element-type tag, for type-mismatch reports.
    pub open spec fn tag_spec(self) -> TypeTag {
        match self {
            Value::Num(_) => TypeTag::Num,
            Value::Byte(_) => TypeTag::Byte,
            Value::Char(_) => TypeTag::Char,
            Value::Complex(_) => TypeTag::Complex,
        }
    }

    /// The element-type tag of this value.
    pub fn tag(&self) -> (r: TypeTag)
        ensures
            r == self.tag_spec(),
    {
        match self {
            Value::Num(_) => TypeTag::Num,
            Value::Byte(_) => TypeTag::Byte,
            Value::Char(_) => TypeTag::Char,
            Value::Complex(_) => TypeTag::Complex,
        }
    }

    /// The number of axes.
    pub fn rank(&self) -> (r: usize)
        ensures
            r == self.shape_spec().len(),
    {
        match self {
            Value::Num(a) => a.rank(),
            Value::Byte(a) => a.rank(),
            Value::Char(a) => a.rank(),
            Value::Complex(a) => a.rank(),
        }
    }

    /// Read this value as a list (or scalar) of signed indices, as `take`,
    /// `drop`, `rotate` and the index-taking operations do. Only numeric
    /// values qualify.
    pub fn as_ints(&self) -> (r: Result<Vec<isize>, ArrayError>)
        requires
            self.wf(),
        ensures
            match self {
                Value::Num(a) => {
                    if a.shape@.len() > 1 {
                        r == Err::<Vec<isize>, ArrayError>(
                            ArrayError::NotIntegers { tag: TypeTag::Num },
                        )
                    } else if !nums_fit_isize(a.data@) {
                        r == Err::<Vec<isize>, ArrayError>(ArrayError::TooLarge)
                    } else {
                        r matches Ok(v) && v@ == nums_as_indices(a.data@)
                    }
                },
                Value::Byte(a) => {
                    if a.shape@.len() > 1 {
                        r == Err::<Vec<isize>, ArrayError>(
                            ArrayError::NotIntegers { tag: TypeTag::Byte },
                        )
                    } else {
                        r matches Ok(v) && v@ == bytes_as_indices(a.data@)
                    }
                },
                _ => r == Err::<Vec<isize>, ArrayError>(
                    ArrayError::NotIntegers { tag: self.tag_spec() },
                ),
            },
    {
        match self {
            Value::Num(a) => {
                if a.shape.len() > 1 {
                    return Err(ArrayError::NotIntegers { tag: TypeTag::Num });
                }
                let mut out: Vec<isize> = Vec::new();
                let n = a.data.len();
                let mut i: usize = 0;
                while i < n
                    invariant
                        i <= n == a.data@.len(),
                        *self == Value::Num(*a),
                        a.shape@.len() <= 1,
                        forall|q: int|
                            0 <= q < i ==> isize::MIN <= #[trigger] a.data@[q] <= isize::MAX,
                        out@ =~= nums_as_indices(a.data@).take(i as int),
                    decreases n - i,
                {
                    let x = a.data[i];
                    if (x as i128) < (isize::MIN as i128) || (x as i128) > (isize::MAX as i128) {
                        proof {
                            assert(!nums_fit_isize(a.data@));
                        }
                        return Err(ArrayError::TooLarge);
                    }
                    out.push(x as isize);
                    i = i + 1;
                }
                proof {
                    assert(out@ =~= nums_as_indices(a.data@));
                }
                Ok(out)
            },
            Value::Byte(a) => {
                if a.shape.len() > 1 {
                    return Err(ArrayError::NotIntegers { tag: TypeTag::Byte });
                }
                let mut out: Vec<isize> = Vec::new();
                let n = a.data.len();
                let mut i: usize = 0;
                while i < n
                    invariant
                        i <= n == a.data@.len(),
                        out@ =~= bytes_as_indices(a.data@).take(i as int),
                    decreases n - i,
                {
                    let x = a.data[i];
                    out.push(x as isize);
                    i = i + 1;
                }
                proof {
                    assert(out@ =~= bytes_as_indices(a.data@));
                }
                Ok(out)
            },
            Value::Char(_) => Err(ArrayError::NotIntegers { tag: TypeTag::Char }),
            Value::Complex(_) => Err(ArrayError::NotIntegers { tag: TypeTag::Complex }),
        }
    }

    /// Read this value as a list (or scalar) of non-negative counts, as
    /// `keep` and `unreshape` do.
    pub fn as_nats(&self) -> (r: Result<Vec<usize>, ArrayError>)
        requires
            self.wf(),
        ensures
            match self {
                Value::Num(a) => {
                    if a.shape@.len() > 1 {
                        r == Err::<Vec<usize>, ArrayError>(
                            ArrayError::NotIntegers { tag: TypeTag::Num },
                        )
                    } else if !nums_fit_usize(a.data@) {
                        r == Err::<Vec<usize>, ArrayError>(
                            ArrayError::NegativeCount { value: a.data@[first_negative(a.data@)] },
                        )
                    } else {
                        r matches Ok(v) && v@ == nums_as_counts(a.data@)
                    }
                },
                Value::Byte(a) => {
                    if a.shape@.len() > 1 {
                        r == Err::<Vec<usize>, ArrayError>(
                            ArrayError::NotIntegers { tag: TypeTag::Byte },
                        )
                    } else {
                        r matches Ok(v) && v@ == bytes_as_counts(a.data@)
                    }
                },
                _ => r == Err::<Vec<usize>, ArrayError>(
                    ArrayError::NotIntegers { tag: self.tag_spec() },
                ),
            },
    {
        match self {
            Value::Num(a) => {
                if a.shape.len() > 1 {
                    return Err(ArrayError::NotIntegers { tag: TypeTag::Num });
                }
                let mut out: Vec<usize> = Vec::new();
                let n = a.data.len();
                let mut i: usize = 0;
                while i < n
                    invariant
                        i <= n == a.data@.len(),
                        *self == Value::Num(*a),
                        a.shape@.len() <= 1,
                        forall|q: int| 0 <= q < i ==> 0 <= #[trigger] a.data@[q],
                        out@ =~= nums_as_counts(a.data@).take(i as int),
                    decreases n - i,
                {
                    let x = a.data[i];
                    if x < 0 {
                        proof {
                            assert(!nums_fit_usize(a.data@));
                            lemma_first_negative_at(a.data@, i as int);
                        }
                        return Err(ArrayError::NegativeCount { value: x });
                    }
                    out.push(#[verifier::truncate] (x as usize));
                    i = i + 1;
                }
                proof {
                    assert(out@ =~= nums_as_counts(a.data@));
                }
                Ok(out)
            },
            Value::Byte(a) => {
                if a.shape.len() > 1 {
                    return Err(ArrayError::NotIntegers { tag: TypeTag::Byte });
                }
                let mut out: Vec<usize> = Vec::new();
                let n = a.data.len();
                let mut i: usize = 0;
                while i < n
                    invariant
                        i <= n == a.data@.len(),
                        out@ =~= bytes_as_counts(a.data@).take(i as int),
                    decreases n - i,
                {
                    let x = a.data[i];
                    out.push(x as usize);
                    i = i + 1;
                }
                proof {
                    assert(out@ =~= bytes_as_counts(a.data@));
                }
                Ok(out)
            },
            Value::Char(_) => Err(ArrayError::NotIntegers { tag: TypeTag::Char }),
            Value::Complex(_) => Err(ArrayError::NotIntegers { tag: TypeTag::Complex }),
        }
    }

    /// Read this value as a shaped integer index array, as `pick` and
    /// `select` do: the index array's shape together with its flat entries.
    pub fn as_shaped_indices(&self) -> (r: Result<(Vec<usize>, Vec<isize>), ArrayError>)
        requires
            self.wf(),
        ensures
            match self {
                Value::Num(a) => {
                    if !nums_fit_isize(a.data@) {
                        r == Err::<(Vec<usize>, Vec<isize>), ArrayError>(ArrayError::TooLarge)
                    } else {
                        r matches Ok((s, v)) && s@ == a.shape@ && v@ == nums_as_indices(a.data@)
                    }
                },
                Value::Byte(a) => r matches Ok((s, v)) && s@ == a.shape@ && v@ == bytes_as_indices(
                    a.data@,
                ),
                _ => r == Err::<(Vec<usize>, Vec<isize>), ArrayError>(
                    ArrayError::NotIntegers { tag: self.tag_spec() },
                ),
            },
    {
        match self {
            Value::Num(a) => {
                let mut out: Vec<isize> = Vec::new();
                let n = a.data.len();
                let mut i: usize = 0;
                while i < n
                    invariant
                        i <= n == a.data@.len(),
                        *self == Value::Num(*a),
                        forall|q: int|
                            0 <= q < i ==> isize::MIN <= #[trigger] a.data@[q] <= isize::MAX,
                        out@ =~= nums_as_indices(a.data@).take(i as int),
                    decreases n - i,
                {
                    let x = a.data[i];
                    if (x as i128) < (isize::MIN as i128) || (x as i128) > (isize::MAX as i128) {
                        proof {
                            assert(!nums_fit_isize(a.data@));
                        }
                        return Err(ArrayError::TooLarge);
                    }
                    out.push(x as isize);
                    i = i + 1;
                }
                let shape = crate::array::copy_range(&a.shape, 0, a.shape.len());
                proof {
                    assert(out@ =~= nums_as_indices(a.data@));
                    assert(shape@ =~= a.shape@);
                }
                Ok((shape, out))
            },
            Value::Byte(a) => {
                let mut out: Vec<isize> = Vec::new();
                let n = a.data.len();
                let mut i: usize = 0;
                while i < n
                    invariant
                        i <= n == a.data@.len(),
                        out@ =~= bytes_as_indices(a.data@).take(i as int),
                    decreases n - i,
                {
                    let x = a.data[i];
                    out.push(x as isize);
                    i = i + 1;
                }
                let shape = crate::array::copy_range(&a.shape, 0, a.shape.len());
                proof {
                    assert(out@ =~= bytes_as_indices(a.data@));
                    assert(shape@ =~= a.shape@);
                }
                Ok((shape, out))
            },
            Value::Char(_) => Err(ArrayError::NotIntegers { tag: TypeTag::Char }),
            Value::Complex(_) => Err(ArrayError::NotIntegers { tag: TypeTag::Complex }),
        }
    }

    /// Promote a byte array to a number array, exactly.
    pub fn bytes_to_nums(a: &Array<u8>) -> (r: Array<i64>)
        requires
            a.wf(),
        ensures
            r.wf(),
            r.shape@ == a.shape@,
            r.data@ == bytes_as_nums(a.data@),
    {
        let mut data: Vec<i64> = Vec::new();
        let n = a.data.len();
        let mut i: usize = 0;
        while i < n
            invariant
                i <= n == a.data@.len(),
                data@ =~= bytes_as_nums(a.data@).take(i as int),
            decreases n - i,
        {
            let x = a.data[i];
            data.push(x as i64);
            i = i + 1;
        }
        let shape = crate::array::copy_range(&a.shape, 0, a.shape.len());
        proof {
            assert(data@ =~= bytes_as_nums(a.data@));
            assert(shape@ =~= a.shape@);
        }
        Array { shape, data }
    }
}

} // verus!

// The operations proper, dispatched per element type.

verus! {

/// The numeric result a value-level call carries, where it is numeric.
pub open spec fn ok_num(r: Result<Value, ArrayError>) -> Result<Array<i64>, ArrayError> {
    match r {
        Ok(v) => match v {
            Value::Num(b) => Ok(b),
            _ => Ok(vstd::pervasive::arbitrary()),
        },
        Err(e) => Err(e),
    }
}

pub open spec fn ok_byte(r: Result<Value, ArrayError>) -> Result<Array<u8>, ArrayError> {
    match r {
        Ok(v) => match v {
            Value::Byte(b) => Ok(b),
            _ => Ok(vstd::pervasive::arbitrary()),
        },
        Err(e) => Err(e),
    }
}

pub open spec fn ok_char(r: Result<Value, ArrayError>) -> Result<Array<char>, ArrayError> {
    match r {
        Ok(v) => match v {
            Value::Char(b) => Ok(b),
            _ => Ok(vstd::pervasive::arbitrary()),
        },
        Err(e) => Err(e),
    }
}

pub open spec fn ok_complex(r: Result<Value, ArrayError>) -> Result<Array<Complex>, ArrayError> {
    match r {
        Ok(v) => match v {
            Value::Complex(b) => Ok(b),
            _ => Ok(vstd::pervasive::arbitrary()),
        },
        Err(e) => Err(e),
    }
}

impl Value {

    /// Use this value as signed counts to `take` from another.
    pub fn take(&self, from: Value, fill: &Fill) -> (r: Result<Value, ArrayError>)
        requires
            self.wf(),
            from.wf(),
        ensures
            from.shape_spec().len() == 0 ==> r == Err::<Value, ArrayError>(
                ArrayError::ScalarStructure,
            ),
            from.shape_spec().len() > 0 ==> match ints_of(*self) {
                Err(e) => r == Err::<Value, ArrayError>(e),
                Ok(index) => match from {
                    Value::Num(a) => (r matches Ok(v) ==> v is Num)
                        && crate::takedrop::take_post(index, fill.num, a.shape@, a.data@, ok_num(r)),
                    Value::Byte(a) => (r matches Ok(v) ==> v is Byte)
                        && crate::takedrop::take_post(index, fill.byte, a.shape@, a.data@, ok_byte(r)),
                    Value::Char(a) => (r matches Ok(v) ==> v is Char)
                        && crate::takedrop::take_post(index, fill.ch, a.shape@, a.data@, ok_char(r)),
                    Value::Complex(a) => (r matches Ok(v) ==> v is Complex)
                        && crate::takedrop::take_post(index, fill.complex, a.shape@, a.data@, ok_complex(r)),
                },
            },
    {
        if from.rank() == 0 {
            return Err(ArrayError::ScalarStructure);
        }
        let index = match self.as_ints() {
            Ok(v) => v,
            Err(e) => {
                return Err(e);
            },
        };
        match from {
            Value::Num(a) => match a.take(&index, fill.num) {
                Ok(res) => Ok(Value::Num(res)),
                Err(e) => Err(e),
            },
            Value::Byte(a) => match a.take(&index, fill.byte) {
                Ok(res) => Ok(Value::Byte(res)),
                Err(e) => Err(e),
            },
            Value::Char(a) => match a.take(&index, fill.ch) {
                Ok(res) => Ok(Value::Char(res)),
                Err(e) => Err(e),
            },
            Value::Complex(a) => match a.take(&index, fill.complex) {
                Ok(res) => Ok(Value::Complex(res)),
                Err(e) => Err(e),
            },
        }
    }

    /// Use this value as signed counts to `drop` from another.
    pub fn drop(&self, from: Value) -> (r: Result<Value, ArrayError>)
        requires
            self.wf(),
            from.wf(),
        ensures
            from.shape_spec().len() == 0 ==> r == Err::<Value, ArrayError>(
                ArrayError::ScalarStructure,
            ),
            from.shape_spec().len() > 0 ==> match ints_of(*self) {
                Err(e) => r == Err::<Value, ArrayError>(e),
                Ok(index) => match from {
                    Value::Num(a) => (r matches Ok(v) ==> v is Num)
                        && crate::takedrop::drop_post(index, a.shape@, a.data@, ok_num(r)),
                    Value::Byte(a) => (r matches Ok(v) ==> v is Byte)
                        && crate::takedrop::drop_post(index, a.shape@, a.data@, ok_byte(r)),
                    Value::Char(a) => (r matches Ok(v) ==> v is Char)
                        && crate::takedrop::drop_post(index, a.shape@, a.data@, ok_char(r)),
                    Value::Complex(a) => (r matches Ok(v) ==> v is Complex)
                        && crate::takedrop::drop_post(index, a.shape@, a.data@, ok_complex(r)),
                },
            },
    {
        if from.rank() == 0 {
            return Err(ArrayError::ScalarStructure);
        }
        let index = match self.as_ints() {
            Ok(v) => v,
            Err(e) => {
                return Err(e);
            },
        };
        match from {
            Value::Num(a) => match a.drop(&index) {
                Ok(res) => Ok(Value::Num(res)),
                Err(e) => Err(e),
            },
            Value::Byte(a) => match a.drop(&index) {
                Ok(res) => Ok(Value::Byte(res)),
                Err(e) => Err(e),
            },
            Value::Char(a) => match a.drop(&index) {
                Ok(res) => Ok(Value::Char(res)),
                Err(e) => Err(e),
            },
            Value::Complex(a) => match a.drop(&index) {
                Ok(res) => Ok(Value::Complex(res)),
                Err(e) => Err(e),
            },
        }
    }

    /// Use this value as window sizes to take the `windows` of another.
    pub fn windows(&self, from: &Value) -> (r: Result<Value, ArrayError>)
        requires
            self.wf(),
            from.wf(),
        ensures
            match ints_of(*self) {
                Err(e) => r == Err::<Value, ArrayError>(e),
                Ok(sizes) => match *from {
                Value::Num(a) => (r matches Ok(v) ==> v is Num)
                    && crate::windows::windows_post(sizes, a.shape@, a.data@, ok_num(r)),
                Value::Byte(a) => (r matches Ok(v) ==> v is Byte)
                    && crate::windows::windows_post(sizes, a.shape@, a.data@, ok_byte(r)),
                Value::Char(a) => (r matches Ok(v) ==> v is Char)
                    && crate::windows::windows_post(sizes, a.shape@, a.data@, ok_char(r)),
                Value::Complex(a) => (r matches Ok(v) ==> v is Complex)
                    && crate::windows::windows_post(sizes, a.shape@, a.data@, ok_complex(r)),
                },
            },
    {
        let sizes = match self.as_ints() {
            Ok(v) => v,
            Err(e) => {
                return Err(e);
            },
        };
        match from {
            Value::Num(a) => match a.windows(&sizes) {
                Ok(res) => Ok(Value::Num(res)),
                Err(e) => Err(e),
            },
            Value::Byte(a) => match a.windows(&sizes) {
                Ok(res) => Ok(Value::Byte(res)),
                Err(e) => Err(e),
            },
            Value::Char(a) => match a.windows(&sizes) {
                Ok(res) => Ok(Value::Char(res)),
                Err(e) => Err(e),
            },
            Value::Complex(a) => match a.windows(&sizes) {
                Ok(res) => Ok(Value::Complex(res)),
                Err(e) => Err(e),
            },
        }
    }
}

} // verus!

// Membership and lookup at the polymorphic layer: same-type operands
// compare directly; bytes and numbers are promoted to numbers; any other
// pairing is a type mismatch naming both tags.

verus! {

/// Everything `member` promises of its result.
pub open spec fn member_post<T: crate::elem::ArrayElem>(
    es: Seq<usize>,
    ed: Seq<T>,
    os: Seq<usize>,
    od: Seq<T>,
    r: Result<Array<u8>, ArrayError>,
) -> bool {
    &&& !crate::shape::suffix_fits(crate::search::lookup_shape(es, os)) ==> r == Err::<
        Array<u8>,
        ArrayError,
    >(ArrayError::TooLarge)
    &&& crate::shape::suffix_fits(crate::search::lookup_shape(es, os)) ==> r is Ok
        && r->Ok_0.wf() && r->Ok_0.shape@ == crate::search::lookup_shape(es, os)
        && r->Ok_0.data@ == crate::search::member_data(es, ed, os, od)
}

/// Everything `index_of` promises of its result.
pub open spec fn index_of_post<T: crate::elem::ArrayElem>(
    es: Seq<usize>,
    ed: Seq<T>,
    os: Seq<usize>,
    od: Seq<T>,
    r: Result<Array<i64>, ArrayError>,
) -> bool {
    &&& !(crate::shape::suffix_fits(crate::search::lookup_shape(es, os))
        && crate::search::dims_fit_i64(os)) ==> r == Err::<Array<i64>, ArrayError>(
        ArrayError::TooLarge,
    )
    &&& crate::shape::suffix_fits(crate::search::lookup_shape(es, os))
        && crate::search::dims_fit_i64(os) ==> r is Ok && r->Ok_0.wf() && r->Ok_0.shape@
        == crate::search::lookup_shape(es, os) && r->Ok_0.data@ == crate::search::index_data(
        es,
        ed,
        os,
        od,
    )
}

/// Everything `progressive_index_of` promises of its result.
pub open spec fn prog_post<T: crate::elem::ArrayElem>(
    es: Seq<usize>,
    ed: Seq<T>,
    os: Seq<usize>,
    od: Seq<T>,
    r: Result<Array<i64>, ArrayError>,
) -> bool {
    &&& !(crate::shape::suffix_fits(crate::search::lookup_shape(es, os))
        && crate::search::dims_fit_i64(os)) ==> r == Err::<Array<i64>, ArrayError>(
        ArrayError::TooLarge,
    )
    &&& crate::shape::suffix_fits(crate::search::lookup_shape(es, os))
        && crate::search::dims_fit_i64(os) ==> r is Ok && r->Ok_0.wf() && r->Ok_0.shape@
        == crate::search::lookup_shape(es, os) && r->Ok_0.data@ == crate::search::prog_data(
        es,
        ed,
        os,
        od,
    )
}

impl Value {
    /// Check which rows of this value are members of another.
    pub fn member(&self, other: &Value) -> (r: Result<Value, ArrayError>)
        requires
            self.wf(),
            other.wf(),
        ensures
            match (*self, *other) {
                (Value::Num(a), Value::Num(b)) => (r matches Ok(v) ==> v is Byte)
                    && member_post(a.shape@, a.data@, b.shape@, b.data@, ok_byte(r)),
                (Value::Byte(a), Value::Byte(b)) => (r matches Ok(v) ==> v is Byte)
                    && member_post(a.shape@, a.data@, b.shape@, b.data@, ok_byte(r)),
                (Value::Char(a), Value::Char(b)) => (r matches Ok(v) ==> v is Byte)
                    && member_post(a.shape@, a.data@, b.shape@, b.data@, ok_byte(r)),
                (Value::Complex(a), Value::Complex(b)) => (r matches Ok(v) ==> v is Byte)
                    && member_post(a.shape@, a.data@, b.shape@, b.data@, ok_byte(r)),
                (Value::Num(a), Value::Byte(b)) => (r matches Ok(v) ==> v is Byte)
                    && member_post(
                    a.shape@,
                    a.data@,
                    b.shape@,
                    bytes_as_nums(b.data@),
                    ok_byte(r),
                ),
                (Value::Byte(a), Value::Num(b)) => (r matches Ok(v) ==> v is Byte)
                    && member_post(
                    a.shape@,
                    bytes_as_nums(a.data@),
                    b.shape@,
                    b.data@,
                    ok_byte(r),
                ),
                _ => r == Err::<Value, ArrayError>(
                    ArrayError::TypeMismatch { a: self.tag_spec(), b: other.tag_spec() },
                ),
            },
    {
        match (self, other) {
            (Value::Num(a), Value::Num(b)) => match a.member(b) {
                Ok(res) => Ok(Value::Byte(res)),
                Err(e) => Err(e),
            },
            (Value::Byte(a), Value::Byte(b)) => match a.member(b) {
                Ok(res) => Ok(Value::Byte(res)),
                Err(e) => Err(e),
            },
            (Value::Char(a), Value::Char(b)) => match a.member(b) {
                Ok(res) => Ok(Value::Byte(res)),
                Err(e) => Err(e),
            },
            (Value::Complex(a), Value::Complex(b)) => match a.member(b) {
                Ok(res) => Ok(Value::Byte(res)),
                Err(e) => Err(e),
            },
            (Value::Num(a), Value::Byte(b)) => {
                let bb = Value::bytes_to_nums(b);
                match a.member(&bb) {
                    Ok(res) => Ok(Value::Byte(res)),
                    Err(e) => Err(e),
                }
            },
            (Value::Byte(a), Value::Num(b)) => {
                let aa = Value::bytes_to_nums(a);
                match aa.member(b) {
                    Ok(res) => Ok(Value::Byte(res)),
                    Err(e) => Err(e),
                }
            },
            _ => Err(ArrayError::TypeMismatch { a: self.tag(), b: other.tag() }),
        }
    }

    /// The first-match position of this value's rows within another's.
    pub fn index_of(&self, other: &Value) -> (r: Result<Value, ArrayError>)
        requires
            self.wf(),
            other.wf(),
        ensures
            match (*self, *other) {
                (Value::Num(a), Value::Num(b)) => (r matches Ok(v) ==> v is Num)
                    && index_of_post(a.shape@, a.data@, b.shape@, b.data@, ok_num(r)),
                (Value::Byte(a), Value::Byte(b)) => (r matches Ok(v) ==> v is Num)
                    && index_of_post(a.shape@, a.data@, b.shape@, b.data@, ok_num(r)),
                (Value::Char(a), Value::Char(b)) => (r matches Ok(v) ==> v is Num)
                    && index_of_post(a.shape@, a.data@, b.shape@, b.data@, ok_num(r)),
                (Value::Complex(a), Value::Complex(b)) => (r matches Ok(v) ==> v is Num)
                    && index_of_post(a.shape@, a.data@, b.shape@, b.data@, ok_num(r)),
                (Value::Num(a), Value::Byte(b)) => (r matches Ok(v) ==> v is Num)
                    && index_of_post(
                    a.shape@,
                    a.data@,
                    b.shape@,
                    bytes_as_nums(b.data@),
                    ok_num(r),
                ),
                (Value::Byte(a), Value::Num(b)) => (r matches Ok(v) ==> v is Num)
                    && index_of_post(
                    a.shape@,
                    bytes_as_nums(a.data@),
                    b.shape@,
                    b.data@,
                    ok_num(r),
                ),
                _ => r == Err::<Value, ArrayError>(
                    ArrayError::TypeMismatch { a: self.tag_spec(), b: other.tag_spec() },
                ),
            },
    {
        match (self, other) {
            (Value::Num(a), Value::Num(b)) => match a.index_of(b) {
                Ok(res) => Ok(Value::Num(res)),
                Err(e) => Err(e),
            },
            (Value::Byte(a), Value::Byte(b)) => match a.index_of(b) {
                Ok(res) => Ok(Value::Num(res)),
                Err(e) => Err(e),
            },
            (Value::Char(a), Value::Char(b)) => match a.index_of(b) {
                Ok(res) => Ok(Value::Num(res)),
                Err(e) => Err(e),
            },
            (Value::Complex(a), Value::Complex(b)) => match a.index_of(b) {
                Ok(res) => Ok(Value::Num(res)),
                Err(e) => Err(e),
            },
            (Value::Num(a), Value::Byte(b)) => {
                let bb = Value::bytes_to_nums(b);
                match a.index_of(&bb) {
                    Ok(res) => Ok(Value::Num(res)),
                    Err(e) => Err(e),
                }
            },
            (Value::Byte(a), Value::Num(b)) => {
                let aa = Value::bytes_to_nums(a);
                match aa.index_of(b) {
                    Ok(res) => Ok(Value::Num(res)),
                    Err(e) => Err(e),
                }
            },
            _ => Err(ArrayError::TypeMismatch { a: self.tag(), b: other.tag() }),
        }
    }

    /// The progressive first-match positions, each matched row position
    /// consumed by the query it answers.
    pub fn progressive_index_of(&self, other: &Value) -> (r: Result<Value, ArrayError>)
        requires
            self.wf(),
            other.wf(),
        ensures
            match (*self, *other) {
                (Value::Num(a), Value::Num(b)) => (r matches Ok(v) ==> v is Num)
                    && prog_post(a.shape@, a.data@, b.shape@, b.data@, ok_num(r)),
                (Value::Byte(a), Value::Byte(b)) => (r matches Ok(v) ==> v is Num)
                    && prog_post(a.shape@, a.data@, b.shape@, b.data@, ok_num(r)),
                (Value::Char(a), Value::Char(b)) => (r matches Ok(v) ==> v is Num)
                    && prog_post(a.shape@, a.data@, b.shape@, b.data@, ok_num(r)),
                (Value::Complex(a), Value::Complex(b)) => (r matches Ok(v) ==> v is Num)
                    && prog_post(a.shape@, a.data@, b.shape@, b.data@, ok_num(r)),
                (Value::Num(a), Value::Byte(b)) => (r matches Ok(v) ==> v is Num)
                    && prog_post(
                    a.shape@,
                    a.data@,
                    b.shape@,
                    bytes_as_nums(b.data@),
                    ok_num(r),
                ),
                (Value::Byte(a), Value::Num(b)) => (r matches Ok(v) ==> v is Num)
                    && prog_post(
                    a.shape@,
                    bytes_as_nums(a.data@),
                    b.shape@,
                    b.data@,
                    ok_num(r),
                ),
                _ => r == Err::<Value, ArrayError>(
                    ArrayError::TypeMismatch { a: self.tag_spec(), b: other.tag_spec() },
                ),
            },
    {
        match (self, other) {
            (Value::Num(a), Value::Num(b)) => match a.progressive_index_of(b) {
                Ok(res) => Ok(Value::Num(res)),
                Err(e) => Err(e),
            },
            (Value::Byte(a), Value::Byte(b)) => match a.progressive_index_of(b) {
                Ok(res) => Ok(Value::Num(res)),
                Err(e) => Err(e),
            },
            (Value::Char(a), Value::Char(b)) => match a.progressive_index_of(b) {
                Ok(res) => Ok(Value::Num(res)),
                Err(e) => Err(e),
            },
            (Value::Complex(a), Value::Complex(b)) => match a.progressive_index_of(b) {
                Ok(res) => Ok(Value::Num(res)),
                Err(e) => Err(e),
            },
            (Value::Num(a), Value::Byte(b)) => {
                let bb = Value::bytes_to_nums(b);
                match a.progressive_index_of(&bb) {
                    Ok(res) => Ok(Value::Num(res)),
                    Err(e) => Err(e),
                }
            },
            (Value::Byte(a), Value::Num(b)) => {
                let aa = Value::bytes_to_nums(a);
                match aa.progressive_index_of(b) {
                    Ok(res) => Ok(Value::Num(res)),
                    Err(e) => Err(e),
                }
            },
            _ => Err(ArrayError::TypeMismatch { a: self.tag(), b: other.tag() }),
        }
    }
}

} // verus!

// Reshape, rerank, keep, rotate, find, pick and select at the
// polymorphic layer.

verus! {

impl Value {

    /// Try to `find` this value in another: a boolean array marking the
    /// matching window corners.
    pub fn find(&self, searched: &Value, fill: &Fill) -> (r: Result<Value, ArrayError>)
        requires
            self.wf(),
            searched.wf(),
        ensures
            match (*self, *searched) {
                (Value::Num(a), Value::Num(b)) => (r matches Ok(v) ==> v is Byte)
                    && crate::windows::find_post(
                    a.shape@,
                    a.data@,
                    b.shape@,
                    b.data@,
                    fill.num,
                    ok_byte(r),
                ),
                (Value::Byte(a), Value::Byte(b)) => (r matches Ok(v) ==> v is Byte)
                    && crate::windows::find_post(
                    a.shape@,
                    a.data@,
                    b.shape@,
                    b.data@,
                    fill.byte,
                    ok_byte(r),
                ),
                (Value::Char(a), Value::Char(b)) => (r matches Ok(v) ==> v is Byte)
                    && crate::windows::find_post(
                    a.shape@,
                    a.data@,
                    b.shape@,
                    b.data@,
                    fill.ch,
                    ok_byte(r),
                ),
                (Value::Complex(a), Value::Complex(b)) => (r matches Ok(v) ==> v is Byte)
                    && crate::windows::find_post(
                    a.shape@,
                    a.data@,
                    b.shape@,
                    b.data@,
                    fill.complex,
                    ok_byte(r),
                ),
                (Value::Num(a), Value::Byte(b)) => (r matches Ok(v) ==> v is Byte)
                    && crate::windows::find_post(
                    a.shape@,
                    a.data@,
                    b.shape@,
                    bytes_as_nums(b.data@),
                    fill.num,
                    ok_byte(r),
                ),
                (Value::Byte(a), Value::Num(b)) => (r matches Ok(v) ==> v is Byte)
                    && crate::windows::find_post(
                    a.shape@,
                    bytes_as_nums(a.data@),
                    b.shape@,
                    b.data@,
                    fill.num,
                    ok_byte(r),
                ),
                _ => r == Err::<Value, ArrayError>(
                    ArrayError::TypeMismatch { a: self.tag_spec(), b: searched.tag_spec() },
                ),
            },
    {
        match (self, searched) {
            (Value::Num(a), Value::Num(b)) => match a.find(b, fill.num) {
                Ok(res) => Ok(Value::Byte(res)),
                Err(e) => Err(e),
            },
            (Value::Byte(a), Value::Byte(b)) => match a.find(b, fill.byte) {
                Ok(res) => Ok(Value::Byte(res)),
                Err(e) => Err(e),
            },
            (Value::Char(a), Value::Char(b)) => match a.find(b, fill.ch) {
                Ok(res) => Ok(Value::Byte(res)),
                Err(e) => Err(e),
            },
            (Value::Complex(a), Value::Complex(b)) => match a.find(b, fill.complex) {
                Ok(res) => Ok(Value::Byte(res)),
                Err(e) => Err(e),
            },
            (Value::Num(a), Value::Byte(b)) => {
                let bb = Value::bytes_to_nums(b);
                match a.find(&bb, fill.num) {
                    Ok(res) => Ok(Value::Byte(res)),
                    Err(e) => Err(e),
                }
            },
            (Value::Byte(a), Value::Num(b)) => {
                let aa = Value::bytes_to_nums(a);
                match aa.find(b, fill.num) {
                    Ok(res) => Ok(Value::Byte(res)),
                    Err(e) => Err(e),
                }
            },
            _ => Err(ArrayError::TypeMismatch { a: self.tag(), b: searched.tag() }),
        }
    }

    /// Use this value as counts to `keep` the rows of another: a scalar
    /// count replicates the whole array, a list replicates row by row.
    pub fn keep(&self, kept: Value, fill: &Fill) -> (r: Result<Value, ArrayError>)
        requires
            self.wf(),
            kept.wf(),
        ensures
            match nats_of(*self) {
                Err(e) => r == Err::<Value, ArrayError>(e),
                Ok(counts) => match kept {
                    Value::Num(a) => (r matches Ok(v) ==> v is Num) && (
                    if self.shape_spec().len() == 0 {
                        scalar_keep_post(counts[0] as int, a.shape@, a.data@, ok_num(r))
                    } else {
                        match crate::keep::list_keep_spec(a.shape@, a.data@, counts, fill.num) {
                            Ok((ns, nd)) => ok_num(r) matches Ok(res) && res.wf() && res.shape@
                                == ns && res.data@ == nd,
                            Err(e) => r == Err::<Value, ArrayError>(e),
                        }
                    }),
                    Value::Byte(a) => (r matches Ok(v) ==> v is Byte) && (
                    if self.shape_spec().len() == 0 {
                        scalar_keep_post(counts[0] as int, a.shape@, a.data@, ok_byte(r))
                    } else {
                        match crate::keep::list_keep_spec(a.shape@, a.data@, counts, fill.num) {
                            Ok((ns, nd)) => ok_byte(r) matches Ok(res) && res.wf() && res.shape@
                                == ns && res.data@ == nd,
                            Err(e) => r == Err::<Value, ArrayError>(e),
                        }
                    }),
                    Value::Char(a) => (r matches Ok(v) ==> v is Char) && (
                    if self.shape_spec().len() == 0 {
                        scalar_keep_post(counts[0] as int, a.shape@, a.data@, ok_char(r))
                    } else {
                        match crate::keep::list_keep_spec(a.shape@, a.data@, counts, fill.num) {
                            Ok((ns, nd)) => ok_char(r) matches Ok(res) && res.wf() && res.shape@
                                == ns && res.data@ == nd,
                            Err(e) => r == Err::<Value, ArrayError>(e),
                        }
                    }),
                    Value::Complex(a) => (r matches Ok(v) ==> v is Complex) && (
                    if self.shape_spec().len() == 0 {
                        scalar_keep_post(counts[0] as int, a.shape@, a.data@, ok_complex(r))
                    } else {
                        match crate::keep::list_keep_spec(a.shape@, a.data@, counts, fill.num) {
                            Ok((ns, nd)) => ok_complex(r) matches Ok(res) && res.wf() && res.shape@
                                == ns && res.data@ == nd,
                            Err(e) => r == Err::<Value, ArrayError>(e),
                        }
                    }),
                },
            },
    {
        let counts = match self.as_nats() {
            Ok(v) => v,
            Err(e) => {
                return Err(e);
            },
        };
        let scalar = self.rank() == 0;
        proof {
            if scalar {
                assert(counts@.len() == 1) by {
                    match *self {
                        Value::Num(a) => {
                            assert(a.data@.len() == crate::shape::prod(a.shape@));
                        },
                        Value::Byte(a) => {
                            assert(a.data@.len() == crate::shape::prod(a.shape@));
                        },
                        _ => {},
                    }
                }
            }
        }
        match kept {
            Value::Num(a) => {
                if scalar {
                    let count = counts[0];
                    let n = a.data.len();
                    match count.checked_mul(n) {
                        None => Err(ArrayError::TooLarge),
                        Some(_) => {
                            if a.shape.len() > 0 {
                                let s0 = a.shape[0];
                                if count.checked_mul(s0).is_none() {
                                    return Err(ArrayError::TooLarge);
                                }
                            }
                            Ok(Value::Num(a.scalar_keep(count)))
                        },
                    }
                } else {
                    match a.list_keep(&counts, fill.num) {
                        Ok(res) => Ok(Value::Num(res)),
                        Err(e) => Err(e),
                    }
                }
            },
            Value::Byte(a) => {
                if scalar {
                    let count = counts[0];
                    let n = a.data.len();
                    match count.checked_mul(n) {
                        None => Err(ArrayError::TooLarge),
                        Some(_) => {
                            if a.shape.len() > 0 {
                                let s0 = a.shape[0];
                                if count.checked_mul(s0).is_none() {
                                    return Err(ArrayError::TooLarge);
                                }
                            }
                            Ok(Value::Byte(a.scalar_keep(count)))
                        },
                    }
                } else {
                    match a.list_keep(&counts, fill.num) {
                        Ok(res) => Ok(Value::Byte(res)),
                        Err(e) => Err(e),
                    }
                }
            },
            Value::Char(a) => {
                if scalar {
                    let count = counts[0];
                    let n = a.data.len();
                    match count.checked_mul(n) {
                        None => Err(ArrayError::TooLarge),
                        Some(_) => {
                            if a.shape.len() > 0 {
                                let s0 = a.shape[0];
                                if count.checked_mul(s0).is_none() {
                                    return Err(ArrayError::TooLarge);
                                }
                            }
                            Ok(Value::Char(a.scalar_keep(count)))
                        },
                    }
                } else {
                    match a.list_keep(&counts, fill.num) {
                        Ok(res) => Ok(Value::Char(res)),
                        Err(e) => Err(e),
                    }
                }
            },
            Value::Complex(a) => {
                if scalar {
                    let count = counts[0];
                    let n = a.data.len();
                    match count.checked_mul(n) {
                        None => Err(ArrayError::TooLarge),
                        Some(_) => {
                            if a.shape.len() > 0 {
                                let s0 = a.shape[0];
                                if count.checked_mul(s0).is_none() {
                                    return Err(ArrayError::TooLarge);
                                }
                            }
                            Ok(Value::Complex(a.scalar_keep(count)))
                        },
                    }
                } else {
                    match a.list_keep(&counts, fill.num) {
                        Ok(res) => Ok(Value::Complex(res)),
                        Err(e) => Err(e),
                    }
                }
            },
        }
    }
}


/// Everything a scalar `keep` promises: an impossible allocation is
/// rejected, and otherwise the whole array is replicated `count` times.
pub open spec fn scalar_keep_post<T: crate::elem::ArrayElem>(
    count: int,
    s: Seq<usize>,
    d: Seq<T>,
    r: Result<Array<T>, ArrayError>,
) -> bool {
    let over = count * d.len() > usize::MAX || (s.len() > 0 && count * s[0] > usize::MAX);
    &&& over ==> r == Err::<Array<T>, ArrayError>(ArrayError::TooLarge)
    &&& !over ==> r is Ok && r->Ok_0.wf() && r->Ok_0.data@ == crate::shape::repeat_seq(d, count)
        && r->Ok_0.shape@ == (if s.len() == 0 {
        seq![count as usize]
    } else {
        s.update(0, (count * s[0]) as usize)
    })
}

} // verus!

// Reshape and rerank mutate the value in place; rotate, pick and select
// return a new one.

verus! {

/// What reading a value as one scalar integer yields.
pub open spec fn int_of(v: Value) -> Result<int, ArrayError> {
    match v {
        Value::Num(a) => if a.shape@.len() != 0 {
            Err(ArrayError::NotIntegers { tag: TypeTag::Num })
        } else if !(isize::MIN <= a.data@[0] <= isize::MAX) {
            Err(ArrayError::TooLarge)
        } else {
            Ok(a.data@[0] as int)
        },
        Value::Byte(a) => if a.shape@.len() != 0 {
            Err(ArrayError::NotIntegers { tag: TypeTag::Byte })
        } else {
            Ok(a.data@[0] as int)
        },
        _ => Err(ArrayError::NotIntegers { tag: v.tag_spec() }),
    }
}

/// The scalar natural number a value holds, if it is one: the fast reshape
/// form triggers on it.
pub open spec fn scalar_nat_of(v: Value) -> Option<int> {
    match v {
        Value::Num(a) => if a.shape@.len() == 0 && 0 <= a.data@[0] <= usize::MAX {
            Some(a.data@[0] as int)
        } else {
            None
        },
        Value::Byte(a) => if a.shape@.len() == 0 {
            Some(a.data@[0] as int)
        } else {
            None
        },
        _ => None,
    }
}

/// Everything the scalar reshape form promises: the whole array becomes the
/// rows of a new one, `count` of them.
pub open spec fn reshape_scalar_post<T: crate::elem::ArrayElem>(
    count: int,
    s0: Seq<usize>,
    d0: Seq<T>,
    r: Result<(), ArrayError>,
    s1: Seq<usize>,
    d1: Seq<T>,
) -> bool {
    let over = count * d0.len() > usize::MAX;
    &&& over ==> r == Err::<(), ArrayError>(ArrayError::TooLarge) && s1 == s0 && d1 == d0
    &&& !over ==> r is Ok && s1 == seq![count as usize] + s0 && d1 == crate::shape::repeat_seq(
        d0,
        count,
    )
}

/// Everything `rotate` promises at the polymorphic layer.
pub open spec fn rotate_post<T: crate::elem::ArrayElem>(
    by: Seq<isize>,
    fill: Option<T>,
    s: Seq<usize>,
    d: Seq<T>,
    r: Result<Array<T>, ArrayError>,
) -> bool {
    &&& by.len() > s.len() ==> r == Err::<Array<T>, ArrayError>(
        ArrayError::RotateRank { rank: s.len() as usize, offsets: by.len() as usize },
    )
    &&& by.len() <= s.len() ==> r is Ok && r->Ok_0.wf() && r->Ok_0.shape@ == s && r->Ok_0.data@
        == (match fill {
        Some(f) => crate::rotate::fill_shift_spec(by, s, crate::rotate::rotate_spec(by, s, d), f),
        None => crate::rotate::rotate_spec(by, s, d),
    })
}

impl Value {
    /// Read this value as one scalar signed integer.
    pub fn as_int(&self) -> (r: Result<isize, ArrayError>)
        requires
            self.wf(),
        ensures
            match int_of(*self) {
                Ok(n) => r matches Ok(v) && v == n,
                Err(e) => r == Err::<isize, ArrayError>(e),
            },
    {
        match self {
            Value::Num(a) => {
                if a.shape.len() != 0 {
                    return Err(ArrayError::NotIntegers { tag: TypeTag::Num });
                }
                proof {
                    assert(a.data@.len() == crate::shape::prod(a.shape@));
                }
                let x = a.data[0];
                if (x as i128) < (isize::MIN as i128) || (x as i128) > (isize::MAX as i128) {
                    return Err(ArrayError::TooLarge);
                }
                Ok(x as isize)
            },
            Value::Byte(a) => {
                if a.shape.len() != 0 {
                    return Err(ArrayError::NotIntegers { tag: TypeTag::Byte });
                }
                proof {
                    assert(a.data@.len() == crate::shape::prod(a.shape@));
                }
                let x = a.data[0];
                Ok(x as isize)
            },
            Value::Char(_) => Err(ArrayError::NotIntegers { tag: TypeTag::Char }),
            Value::Complex(_) => Err(ArrayError::NotIntegers { tag: TypeTag::Complex }),
        }
    }

    /// Use this value as signed offsets to `rotate` another. With a numeric
    /// fill value in scope a byte array is promoted to numbers first, so the
    /// shifted-in cells can hold the fill.
    pub fn rotate(&self, rotated: Value, fill: &Fill) -> (r: Result<Value, ArrayError>)
        requires
            self.wf(),
            rotated.wf(),
        ensures
            match ints_of(*self) {
                Err(e) => r == Err::<Value, ArrayError>(e),
                Ok(by) => match rotated {
                    Value::Num(a) => (r matches Ok(v) ==> v is Num) && rotate_post(
                        by,
                        fill.num,
                        a.shape@,
                        a.data@,
                        ok_num(r),
                    ),
                    Value::Byte(a) => {
                        if fill.num is Some {
                            (r matches Ok(v) ==> v is Num) && rotate_post(
                                by,
                                fill.num,
                                a.shape@,
                                bytes_as_nums(a.data@),
                                ok_num(r),
                            )
                        } else {
                            (r matches Ok(v) ==> v is Byte) && rotate_post(
                                by,
                                fill.byte,
                                a.shape@,
                                a.data@,
                                ok_byte(r),
                            )
                        }
                    },
                    Value::Char(a) => (r matches Ok(v) ==> v is Char) && rotate_post(
                        by,
                        fill.ch,
                        a.shape@,
                        a.data@,
                        ok_char(r),
                    ),
                    Value::Complex(a) => (r matches Ok(v) ==> v is Complex) && rotate_post(
                        by,
                        fill.complex,
                        a.shape@,
                        a.data@,
                        ok_complex(r),
                    ),
                },
            },
    {
        let by = match self.as_ints() {
            Ok(v) => v,
            Err(e) => {
                return Err(e);
            },
        };
        match rotated {
            Value::Num(a) => {
                let mut aa = a;
                match aa.rotate(&by, fill.num) {
                    Ok(()) => Ok(Value::Num(aa)),
                    Err(e) => Err(e),
                }
            },
            Value::Byte(a) => {
                if fill.num.is_some() {
                    let mut aa = Value::bytes_to_nums(&a);
                    match aa.rotate(&by, fill.num) {
                        Ok(()) => Ok(Value::Num(aa)),
                        Err(e) => Err(e),
                    }
                } else {
                    let mut aa = a;
                    match aa.rotate(&by, fill.byte) {
                        Ok(()) => Ok(Value::Byte(aa)),
                        Err(e) => Err(e),
                    }
                }
            },
            Value::Char(a) => {
                let mut aa = a;
                match aa.rotate(&by, fill.ch) {
                    Ok(()) => Ok(Value::Char(aa)),
                    Err(e) => Err(e),
                }
            },
            Value::Complex(a) => {
                let mut aa = a;
                match aa.rotate(&by, fill.complex) {
                    Ok(()) => Ok(Value::Complex(aa)),
                    Err(e) => Err(e),
                }
            },
        }
    }

    /// Use this value as an index array to `pick` from another.
    pub fn pick(&self, from: &Value, fill: &Fill) -> (r: Result<Value, ArrayError>)
        requires
            self.wf(),
            from.wf(),
        ensures
            match shaped_of(*self) {
                Err(e) => r == Err::<Value, ArrayError>(e),
                Ok((ishape, idata)) => match *from {
                    Value::Num(a) => (r matches Ok(v) ==> v is Num) && (
                    match crate::structure::pick_full(ishape, idata, a.shape@, a.data@, fill.num) {
                        Ok((ns, nd)) => ok_num(r) matches Ok(res) && res.wf() && res.shape@ == ns
                            && res.data@ == nd,
                        Err(e) => r == Err::<Value, ArrayError>(e),
                    }),
                    Value::Byte(a) => (r matches Ok(v) ==> v is Byte) && (
                    match crate::structure::pick_full(ishape, idata, a.shape@, a.data@, fill.byte) {
                        Ok((ns, nd)) => ok_byte(r) matches Ok(res) && res.wf() && res.shape@ == ns
                            && res.data@ == nd,
                        Err(e) => r == Err::<Value, ArrayError>(e),
                    }),
                    Value::Char(a) => (r matches Ok(v) ==> v is Char) && (
                    match crate::structure::pick_full(ishape, idata, a.shape@, a.data@, fill.ch) {
                        Ok((ns, nd)) => ok_char(r) matches Ok(res) && res.wf() && res.shape@ == ns
                            && res.data@ == nd,
                        Err(e) => r == Err::<Value, ArrayError>(e),
                    }),
                    Value::Complex(a) => (r matches Ok(v) ==> v is Complex) && (
                    match crate::structure::pick_full(ishape, idata, a.shape@, a.data@, fill.complex) {
                        Ok((ns, nd)) => ok_complex(r) matches Ok(res) && res.wf() && res.shape@ == ns
                            && res.data@ == nd,
                        Err(e) => r == Err::<Value, ArrayError>(e),
                    }),
                },
            },
    {
        let (ishape, idata) = match self.as_shaped_indices() {
            Ok(v) => v,
            Err(e) => {
                return Err(e);
            },
        };
        proof {
            match self {
                Value::Num(a) => {
                    assert(a.data@.len() == crate::shape::prod(a.shape@));
                },
                Value::Byte(a) => {
                    assert(a.data@.len() == crate::shape::prod(a.shape@));
                },
                _ => {},
            }
        }
        match from {
            Value::Num(a) => match a.pick(&ishape, &idata, fill.num) {
                Ok(res) => Ok(Value::Num(res)),
                Err(e) => Err(e),
            },
            Value::Byte(a) => match a.pick(&ishape, &idata, fill.byte) {
                Ok(res) => Ok(Value::Byte(res)),
                Err(e) => Err(e),
            },
            Value::Char(a) => match a.pick(&ishape, &idata, fill.ch) {
                Ok(res) => Ok(Value::Char(res)),
                Err(e) => Err(e),
            },
            Value::Complex(a) => match a.pick(&ishape, &idata, fill.complex) {
                Ok(res) => Ok(Value::Complex(res)),
                Err(e) => Err(e),
            },
        }
    }

    /// Use this value as an index array to `select` rows from another.
    pub fn select(&self, from: &Value, fill: &Fill) -> (r: Result<Value, ArrayError>)
        requires
            self.wf(),
            from.wf(),
        ensures
            match shaped_of(*self) {
                Err(e) => r == Err::<Value, ArrayError>(e),
                Ok((ishape, idata)) => match *from {
                    Value::Num(a) => (r matches Ok(v) ==> v is Num) && (
                    match crate::structure::select_full(
                        ishape,
                        idata,
                        a.shape@,
                        a.data@,
                        fill.num,
                    ) {
                        Ok((ns, nd)) => ok_num(r) matches Ok(res) && res.wf() && res.shape@ == ns
                            && res.data@ == nd,
                        Err(e) => r == Err::<Value, ArrayError>(e),
                    }),
                    Value::Byte(a) => (r matches Ok(v) ==> v is Byte) && (
                    match crate::structure::select_full(
                        ishape,
                        idata,
                        a.shape@,
                        a.data@,
                        fill.byte,
                    ) {
                        Ok((ns, nd)) => ok_byte(r) matches Ok(res) && res.wf() && res.shape@ == ns
                            && res.data@ == nd,
                        Err(e) => r == Err::<Value, ArrayError>(e),
                    }),
                    Value::Char(a) => (r matches Ok(v) ==> v is Char) && (
                    match crate::structure::select_full(
                        ishape,
                        idata,
                        a.shape@,
                        a.data@,
                        fill.ch,
                    ) {
                        Ok((ns, nd)) => ok_char(r) matches Ok(res) && res.wf() && res.shape@ == ns
                            && res.data@ == nd,
                        Err(e) => r == Err::<Value, ArrayError>(e),
                    }),
                    Value::Complex(a) => (r matches Ok(v) ==> v is Complex) && (
                    match crate::structure::select_full(
                        ishape,
                        idata,
                        a.shape@,
                        a.data@,
                        fill.complex,
                    ) {
                        Ok((ns, nd)) => ok_complex(r) matches Ok(res) && res.wf() && res.shape@ == ns
                            && res.data@ == nd,
                        Err(e) => r == Err::<Value, ArrayError>(e),
                    }),
                },
            },
    {
        let (ishape, idata) = match self.as_shaped_indices() {
            Ok(v) => v,
            Err(e) => {
                return Err(e);
            },
        };
        proof {
            match self {
                Value::Num(a) => {
                    assert(a.data@.len() == crate::shape::prod(a.shape@));
                },
                Value::Byte(a) => {
                    assert(a.data@.len() == crate::shape::prod(a.shape@));
                },
                _ => {},
            }
        }
        match from {
            Value::Num(a) => match a.select_impl(&ishape, &idata, fill.num) {
                Ok(res) => Ok(Value::Num(res)),
                Err(e) => Err(e),
            },
            Value::Byte(a) => match a.select_impl(&ishape, &idata, fill.byte) {
                Ok(res) => Ok(Value::Byte(res)),
                Err(e) => Err(e),
            },
            Value::Char(a) => match a.select_impl(&ishape, &idata, fill.ch) {
                Ok(res) => Ok(Value::Char(res)),
                Err(e) => Err(e),
            },
            Value::Complex(a) => match a.select_impl(&ishape, &idata, fill.complex) {
                Ok(res) => Ok(Value::Complex(res)),
                Err(e) => Err(e),
            },
        }
    }
}

} // verus!

// Reshape and rerank change this value's own shape.

verus! {

impl Value {

    /// `reshape` this value: a scalar natural count replicates the whole
    /// array as that many new rows; a dimension list (with at most one
    /// negative placeholder) becomes the new shape, the data padded,
    /// repeated or truncated to fit.
    pub fn reshape(&mut self, shape: &Value, fill: &Fill) -> (r: Result<(), ArrayError>)
        requires
            old(self).wf(),
            shape.wf(),
        ensures
            final(self).wf(),
            match *old(self) {
                    Value::Num(a) => (*final(self)) matches Value::Num(fa) && (
                    match scalar_nat_of(*shape) {
                        Some(n) => reshape_scalar_post(n, a.shape@, a.data@, r, fa.shape@, fa.data@),
                        None => match ints_of(*shape) {
                            Err(e) => r == Err::<(), ArrayError>(e) && fa.shape@ == a.shape@
                                && fa.data@ == a.data@,
                            Ok(dims) => match crate::reshape::reshape_spec(a.data@, dims, fill.num) {
                                Ok((ns, nd)) => r is Ok && fa.shape@ == ns && fa.data@ == nd,
                                Err(e) => r == Err::<(), ArrayError>(e) && fa.shape@ == a.shape@
                                    && fa.data@ == a.data@,
                            },
                        },
                    }),
                    Value::Byte(a) => (*final(self)) matches Value::Byte(fa) && (
                    match scalar_nat_of(*shape) {
                        Some(n) => reshape_scalar_post(n, a.shape@, a.data@, r, fa.shape@, fa.data@),
                        None => match ints_of(*shape) {
                            Err(e) => r == Err::<(), ArrayError>(e) && fa.shape@ == a.shape@
                                && fa.data@ == a.data@,
                            Ok(dims) => match crate::reshape::reshape_spec(a.data@, dims, fill.byte) {
                                Ok((ns, nd)) => r is Ok && fa.shape@ == ns && fa.data@ == nd,
                                Err(e) => r == Err::<(), ArrayError>(e) && fa.shape@ == a.shape@
                                    && fa.data@ == a.data@,
                            },
                        },
                    }),
                    Value::Char(a) => (*final(self)) matches Value::Char(fa) && (
                    match scalar_nat_of(*shape) {
                        Some(n) => reshape_scalar_post(n, a.shape@, a.data@, r, fa.shape@, fa.data@),
                        None => match ints_of(*shape) {
                            Err(e) => r == Err::<(), ArrayError>(e) && fa.shape@ == a.shape@
                                && fa.data@ == a.data@,
                            Ok(dims) => match crate::reshape::reshape_spec(a.data@, dims, fill.ch) {
                                Ok((ns, nd)) => r is Ok && fa.shape@ == ns && fa.data@ == nd,
                                Err(e) => r == Err::<(), ArrayError>(e) && fa.shape@ == a.shape@
                                    && fa.data@ == a.data@,
                            },
                        },
                    }),
                    Value::Complex(a) => (*final(self)) matches Value::Complex(fa) && (
                    match scalar_nat_of(*shape) {
                        Some(n) => reshape_scalar_post(n, a.shape@, a.data@, r, fa.shape@, fa.data@),
                        None => match ints_of(*shape) {
                            Err(e) => r == Err::<(), ArrayError>(e) && fa.shape@ == a.shape@
                                && fa.data@ == a.data@,
                            Ok(dims) => match crate::reshape::reshape_spec(a.data@, dims, fill.complex) {
                                Ok((ns, nd)) => r is Ok && fa.shape@ == ns && fa.data@ == nd,
                                Err(e) => r == Err::<(), ArrayError>(e) && fa.shape@ == a.shape@
                                    && fa.data@ == a.data@,
                            },
                        },
                    }),
            },
    {
        let n_opt: Option<usize> = match shape {
            Value::Num(b) => {
                if b.shape.len() == 0 {
                    proof {
                        assert(b.data@.len() == crate::shape::prod(b.shape@));
                    }
                    let x = b.data[0];
                    if x >= 0 && (x as u128) <= (usize::MAX as u128) {
                        Some(#[verifier::truncate] (x as usize))
                    } else {
                        None
                    }
                } else {
                    None
                }
            },
            Value::Byte(b) => {
                if b.shape.len() == 0 {
                    proof {
                        assert(b.data@.len() == crate::shape::prod(b.shape@));
                    }
                    Some(b.data[0] as usize)
                } else {
                    None
                }
            },
            _ => None,
        };
        let dims_res: Result<Vec<isize>, ArrayError> = if n_opt.is_none() {
            shape.as_ints()
        } else {
            Ok(Vec::new())
        };
        match self {
            Value::Num(a) => {
                match n_opt {
                    Some(n) => {
                        let len = a.data.len();
                        if n.checked_mul(len).is_none() {
                            return Err(ArrayError::TooLarge);
                        }
                        a.reshape_scalar(n);
                        Ok(())
                    },
                    None => {
                        let dims = match dims_res {
                            Ok(v) => v,
                            Err(e) => {
                                return Err(e);
                            },
                        };
                        a.reshape(&dims, fill.num)
                    },
                }
            },
            Value::Byte(a) => {
                match n_opt {
                    Some(n) => {
                        let len = a.data.len();
                        if n.checked_mul(len).is_none() {
                            return Err(ArrayError::TooLarge);
                        }
                        a.reshape_scalar(n);
                        Ok(())
                    },
                    None => {
                        let dims = match dims_res {
                            Ok(v) => v,
                            Err(e) => {
                                return Err(e);
                            },
                        };
                        a.reshape(&dims, fill.byte)
                    },
                }
            },
            Value::Char(a) => {
                match n_opt {
                    Some(n) => {
                        let len = a.data.len();
                        if n.checked_mul(len).is_none() {
                            return Err(ArrayError::TooLarge);
                        }
                        a.reshape_scalar(n);
                        Ok(())
                    },
                    None => {
                        let dims = match dims_res {
                            Ok(v) => v,
                            Err(e) => {
                                return Err(e);
                            },
                        };
                        a.reshape(&dims, fill.ch)
                    },
                }
            },
            Value::Complex(a) => {
                match n_opt {
                    Some(n) => {
                        let len = a.data.len();
                        if n.checked_mul(len).is_none() {
                            return Err(ArrayError::TooLarge);
                        }
                        a.reshape_scalar(n);
                        Ok(())
                    },
                    None => {
                        let dims = match dims_res {
                            Ok(v) => v,
                            Err(e) => {
                                return Err(e);
                            },
                        };
                        a.reshape(&dims, fill.complex)
                    },
                }
            },
        }
    }

    /// `rerank` this value: reinterpret the boundary between the leading,
    /// to-be-merged dimensions and the rest.
    pub fn rerank(&mut self, rank: &Value) -> (r: Result<(), ArrayError>)
        requires
            old(self).wf(),
            rank.wf(),
        ensures
            final(self).wf(),
            match *old(self) {
                    Value::Num(a) => (*final(self)) matches Value::Num(fa) && fa.data@
                        == a.data@ && (match int_of(*rank) {
                        Err(e) => r == Err::<(), ArrayError>(e) && fa.shape@ == a.shape@,
                        Ok(n) => match crate::reshape::rerank_spec(a.shape@, n) {
                            Ok(ns) => r is Ok && fa.shape@ == ns,
                            Err(e) => r == Err::<(), ArrayError>(e) && fa.shape@ == a.shape@,
                        },
                    }),
                    Value::Byte(a) => (*final(self)) matches Value::Byte(fa) && fa.data@
                        == a.data@ && (match int_of(*rank) {
                        Err(e) => r == Err::<(), ArrayError>(e) && fa.shape@ == a.shape@,
                        Ok(n) => match crate::reshape::rerank_spec(a.shape@, n) {
                            Ok(ns) => r is Ok && fa.shape@ == ns,
                            Err(e) => r == Err::<(), ArrayError>(e) && fa.shape@ == a.shape@,
                        },
                    }),
                    Value::Char(a) => (*final(self)) matches Value::Char(fa) && fa.data@
                        == a.data@ && (match int_of(*rank) {
                        Err(e) => r == Err::<(), ArrayError>(e) && fa.shape@ == a.shape@,
                        Ok(n) => match crate::reshape::rerank_spec(a.shape@, n) {
                            Ok(ns) => r is Ok && fa.shape@ == ns,
                            Err(e) => r == Err::<(), ArrayError>(e) && fa.shape@ == a.shape@,
                        },
                    }),
                    Value::Complex(a) => (*final(self)) matches Value::Complex(fa) && fa.data@
                        == a.data@ && (match int_of(*rank) {
                        Err(e) => r == Err::<(), ArrayError>(e) && fa.shape@ == a.shape@,
                        Ok(n) => match crate::reshape::rerank_spec(a.shape@, n) {
                            Ok(ns) => r is Ok && fa.shape@ == ns,
                            Err(e) => r == Err::<(), ArrayError>(e) && fa.shape@ == a.shape@,
                        },
                    }),
            },
    {
        let irank = match rank.as_int() {
            Ok(v) => v,
            Err(e) => {
                return Err(e);
            },
        };
        match self {
            Value::Num(a) => a.rerank(irank),
            Value::Byte(a) => a.rerank(irank),
            Value::Char(a) => a.rerank(irank),
            Value::Complex(a) => a.rerank(irank),
        }
    }
}

} // verus!

// Undoing a reshape at the polymorphic layer: the scalar fast form is
// ambiguous to invert and is rejected outright.

verus! {

impl Value {
    /// Undo a reshape: restore the shape this value had before, provided
    /// the reshape was not the scalar replicating form (ambiguous to
    /// invert) and the element count still matches.
    pub fn unreshape(&mut self, old_shape: &Value) -> (r: Result<(), ArrayError>)
        requires
            old(self).wf(),
            old_shape.wf(),
        ensures
            final(self).wf(),
            match *old(self) {
                    Value::Num(a) => (*final(self)) matches Value::Num(fa) && fa.data@
                        == a.data@ && (if scalar_nat_of(*old_shape) is Some {
                        r == Err::<(), ArrayError>(ArrayError::ScalarUnreshape) && fa.shape@
                            == a.shape@
                    } else {
                        match nats_of(*old_shape) {
                            Err(e) => r == Err::<(), ArrayError>(e) && fa.shape@ == a.shape@,
                            Ok(dims) => {
                                if !crate::shape::suffix_fits(dims) {
                                    r == Err::<(), ArrayError>(ArrayError::TooLarge) && fa.shape@
                                        == a.shape@
                                } else if crate::shape::prod(dims) != a.data@.len() {
                                    r == Err::<(), ArrayError>(
                                        ArrayError::UnreshapeCountMismatch {
                                            old_count: crate::shape::prod(dims) as usize,
                                            new_count: a.data@.len() as usize,
                                        },
                                    ) && fa.shape@ == a.shape@
                                } else {
                                    r is Ok && fa.shape@ == dims
                                }
                            },
                        }
                    }),
                    Value::Byte(a) => (*final(self)) matches Value::Byte(fa) && fa.data@
                        == a.data@ && (if scalar_nat_of(*old_shape) is Some {
                        r == Err::<(), ArrayError>(ArrayError::ScalarUnreshape) && fa.shape@
                            == a.shape@
                    } else {
                        match nats_of(*old_shape) {
                            Err(e) => r == Err::<(), ArrayError>(e) && fa.shape@ == a.shape@,
                            Ok(dims) => {
                                if !crate::shape::suffix_fits(dims) {
                                    r == Err::<(), ArrayError>(ArrayError::TooLarge) && fa.shape@
                                        == a.shape@
                                } else if crate::shape::prod(dims) != a.data@.len() {
                                    r == Err::<(), ArrayError>(
                                        ArrayError::UnreshapeCountMismatch {
                                            old_count: crate::shape::prod(dims) as usize,
                                            new_count: a.data@.len() as usize,
                                        },
                                    ) && fa.shape@ == a.shape@
                                } else {
                                    r is Ok && fa.shape@ == dims
                                }
                            },
                        }
                    }),
                    Value::Char(a) => (*final(self)) matches Value::Char(fa) && fa.data@
                        == a.data@ && (if scalar_nat_of(*old_shape) is Some {
                        r == Err::<(), ArrayError>(ArrayError::ScalarUnreshape) && fa.shape@
                            == a.shape@
                    } else {
                        match nats_of(*old_shape) {
                            Err(e) => r == Err::<(), ArrayError>(e) && fa.shape@ == a.shape@,
                            Ok(dims) => {
                                if !crate::shape::suffix_fits(dims) {
                                    r == Err::<(), ArrayError>(ArrayError::TooLarge) && fa.shape@
                                        == a.shape@
                                } else if crate::shape::prod(dims) != a.data@.len() {
                                    r == Err::<(), ArrayError>(
                                        ArrayError::UnreshapeCountMismatch {
                                            old_count: crate::shape::prod(dims) as usize,
                                            new_count: a.data@.len() as usize,
                                        },
                                    ) && fa.shape@ == a.shape@
                                } else {
                                    r is Ok && fa.shape@ == dims
                                }
                            },
                        }
                    }),
                    Value::Complex(a) => (*final(self)) matches Value::Complex(fa) && fa.data@
                        == a.data@ && (if scalar_nat_of(*old_shape) is Some {
                        r == Err::<(), ArrayError>(ArrayError::ScalarUnreshape) && fa.shape@
                            == a.shape@
                    } else {
                        match nats_of(*old_shape) {
                            Err(e) => r == Err::<(), ArrayError>(e) && fa.shape@ == a.shape@,
                            Ok(dims) => {
                                if !crate::shape::suffix_fits(dims) {
                                    r == Err::<(), ArrayError>(ArrayError::TooLarge) && fa.shape@
                                        == a.shape@
                                } else if crate::shape::prod(dims) != a.data@.len() {
                                    r == Err::<(), ArrayError>(
                                        ArrayError::UnreshapeCountMismatch {
                                            old_count: crate::shape::prod(dims) as usize,
                                            new_count: a.data@.len() as usize,
                                        },
                                    ) && fa.shape@ == a.shape@
                                } else {
                                    r is Ok && fa.shape@ == dims
                                }
                            },
                        }
                    }),
            },
    {
        let was_scalar_count: bool = match old_shape {
            Value::Num(b) => {
                if b.shape.len() == 0 {
                    proof {
                        assert(b.data@.len() == crate::shape::prod(b.shape@));
                    }
                    let x = b.data[0];
                    x >= 0 && (x as u128) <= (usize::MAX as u128)
                } else {
                    false
                }
            },
            Value::Byte(b) => b.shape.len() == 0,
            _ => false,
        };
        if was_scalar_count {
            return Err(ArrayError::ScalarUnreshape);
        }
        let dims = match old_shape.as_nats() {
            Ok(v) => v,
            Err(e) => {
                return Err(e);
            },
        };
        match self {
            Value::Num(a) => a.unreshape(&dims),
            Value::Byte(a) => a.unreshape(&dims),
            Value::Char(a) => a.unreshape(&dims),
            Value::Complex(a) => a.unreshape(&dims),
        }
    }
}

} // verus!

// Undoing a pick at the polymorphic layer: duplicate index rows would make
// the inverse ambiguous and are rejected first.

verus! {

/// Would undoing this index array into a target of shape `is_` be
/// ambiguous? With a non-empty last axis, two index rows that resolve to
/// the same position (negative components counting from their axis's end);
/// with an empty one, more than one (necessarily equal) row along some
/// leading axis. Rows longer than the target's rank cannot resolve at all
/// and are left for the rank check.
pub open spec fn unpick_dup(ishape: Seq<usize>, idata: Seq<isize>, is_: Seq<usize>) -> bool {
    let n = ishape.len() as int;
    let last = ishape[n - 1] as int;
    if last == 0 {
        exists|q: int| 0 <= q < n - 1 && #[trigger] ishape[q] > 1
    } else if last > is_.len() {
        false
    } else {
        exists|c1: int, c2: int|
            0 <= c1 < c2 < crate::shape::prod(ishape.take(n - 1)) && #[trigger] rows_coincide(
                idata,
                last,
                is_,
                c1,
                c2,
            )
    }
}

/// Two index rows of length `last` resolve to the same position of a
/// target with shape `is_`.
pub open spec fn rows_coincide(
    idata: Seq<isize>,
    last: int,
    is_: Seq<usize>,
    c1: int,
    c2: int,
) -> bool {
    forall|w: int|
        0 <= w < last ==> crate::structure::resolve_idx(
            #[trigger] idata[c1 * last + w],
            is_[w] as int,
        ) == crate::structure::resolve_idx(idata[c2 * last + w], is_[w] as int)
}

impl Value {
    /// Undo a pick: write this (the picked, possibly edited) value back at
    /// the positions the index array names in `into`. Duplicate index rows
    /// are rejected: the inverse would be ambiguous.
    pub fn unpick(&self, index: &Value, into: Value) -> (r: Result<Value, ArrayError>)
        requires
            self.wf(),
            index.wf(),
            into.wf(),
        ensures
            match shaped_of(*index) {
                Err(e) => r == Err::<Value, ArrayError>(e),
                Ok((ishape, idata)) => {
                    if ishape.len() > 1 && unpick_dup(ishape, idata, into.shape_spec()) {
                        r == Err::<Value, ArrayError>(ArrayError::DuplicateIndices)
                    } else {
                        match (*self, into) {
                    (Value::Num(a), Value::Num(b)) => (r matches Ok(v) ==> v is Num) && (
                    match crate::structure::unpick_all(
                        ishape,
                        idata,
                        a.shape@,
                        a.data@,
                        b.shape@,
                        b.data@,
                    ) {
                        Ok(nd) => ok_num(r) matches Ok(res) && res.wf() && res.shape@ == b.shape@
                            && res.data@ == nd,
                        Err(e) => r == Err::<Value, ArrayError>(e),
                    }),
                    (Value::Byte(a), Value::Byte(b)) => (r matches Ok(v) ==> v is Byte) && (
                    match crate::structure::unpick_all(
                        ishape,
                        idata,
                        a.shape@,
                        a.data@,
                        b.shape@,
                        b.data@,
                    ) {
                        Ok(nd) => ok_byte(r) matches Ok(res) && res.wf() && res.shape@ == b.shape@
                            && res.data@ == nd,
                        Err(e) => r == Err::<Value, ArrayError>(e),
                    }),
                    (Value::Char(a), Value::Char(b)) => (r matches Ok(v) ==> v is Char) && (
                    match crate::structure::unpick_all(
                        ishape,
                        idata,
                        a.shape@,
                        a.data@,
                        b.shape@,
                        b.data@,
                    ) {
                        Ok(nd) => ok_char(r) matches Ok(res) && res.wf() && res.shape@ == b.shape@
                            && res.data@ == nd,
                        Err(e) => r == Err::<Value, ArrayError>(e),
                    }),
                    (Value::Complex(a), Value::Complex(b)) => (r matches Ok(v) ==> v is Complex) && (
                    match crate::structure::unpick_all(
                        ishape,
                        idata,
                        a.shape@,
                        a.data@,
                        b.shape@,
                        b.data@,
                    ) {
                        Ok(nd) => ok_complex(r) matches Ok(res) && res.wf() && res.shape@ == b.shape@
                            && res.data@ == nd,
                        Err(e) => r == Err::<Value, ArrayError>(e),
                    }),
                    (Value::Num(a), Value::Byte(b)) => (r matches Ok(v) ==> v is Num) && (
                    match crate::structure::unpick_all(
                        ishape,
                        idata,
                        a.shape@,
                        a.data@,
                        b.shape@,
                        bytes_as_nums(b.data@),
                    ) {
                        Ok(nd) => ok_num(r) matches Ok(res) && res.wf() && res.shape@ == b.shape@
                            && res.data@ == nd,
                        Err(e) => r == Err::<Value, ArrayError>(e),
                    }),
                    (Value::Byte(a), Value::Num(b)) => (r matches Ok(v) ==> v is Num) && (
                    match crate::structure::unpick_all(
                        ishape,
                        idata,
                        a.shape@,
                        bytes_as_nums(a.data@),
                        b.shape@,
                        b.data@,
                    ) {
                        Ok(nd) => ok_num(r) matches Ok(res) && res.wf() && res.shape@ == b.shape@
                            && res.data@ == nd,
                        Err(e) => r == Err::<Value, ArrayError>(e),
                    }),
                    _ => r == Err::<Value, ArrayError>(
                        ArrayError::TypeMismatch { a: self.tag_spec(), b: into.tag_spec() },
                    ),
                        }
                    }
                },
            },
    {
        let (ishape, idata) = match index.as_shaped_indices() {
            Ok(v) => v,
            Err(e) => {
                return Err(e);
            },
        };
        proof {
            match index {
                Value::Num(a) => {
                    assert(a.data@.len() == crate::shape::prod(a.shape@));
                },
                Value::Byte(a) => {
                    assert(a.data@.len() == crate::shape::prod(a.shape@));
                },
                _ => {},
            }
        }
        if ishape.len() > 1 {
            let dims: Vec<usize> = match &into {
                Value::Num(a) => crate::array::copy_range(&a.shape, 0, a.shape.len()),
                Value::Byte(a) => crate::array::copy_range(&a.shape, 0, a.shape.len()),
                Value::Char(a) => crate::array::copy_range(&a.shape, 0, a.shape.len()),
                Value::Complex(a) => crate::array::copy_range(&a.shape, 0, a.shape.len()),
            };
            proof {
                assert(dims@ =~= into.shape_spec());
            }
            if has_duplicate_rows(&ishape, &idata, &dims) {
                return Err(ArrayError::DuplicateIndices);
            }
        }
        match (self, into) {
            (Value::Num(a), Value::Num(b)) => match a.unpick(&ishape, &idata, b) {
                Ok(res) => Ok(Value::Num(res)),
                Err(e) => Err(e),
            },
            (Value::Byte(a), Value::Byte(b)) => match a.unpick(&ishape, &idata, b) {
                Ok(res) => Ok(Value::Byte(res)),
                Err(e) => Err(e),
            },
            (Value::Char(a), Value::Char(b)) => match a.unpick(&ishape, &idata, b) {
                Ok(res) => Ok(Value::Char(res)),
                Err(e) => Err(e),
            },
            (Value::Complex(a), Value::Complex(b)) => match a.unpick(&ishape, &idata, b) {
                Ok(res) => Ok(Value::Complex(res)),
                Err(e) => Err(e),
            },
            (Value::Num(a), Value::Byte(b)) => {
                let bb = Value::bytes_to_nums(&b);
                match a.unpick(&ishape, &idata, bb) {
                    Ok(res) => Ok(Value::Num(res)),
                    Err(e) => Err(e),
                }
            },
            (Value::Byte(a), Value::Num(b)) => {
                let aa = Value::bytes_to_nums(a);
                match aa.unpick(&ishape, &idata, b) {
                    Ok(res) => Ok(Value::Num(res)),
                    Err(e) => Err(e),
                }
            },
            (_, other_into) => Err(
                ArrayError::TypeMismatch { a: self.tag(), b: other_into.tag() },
            ),
        }
    }
}

/// Decide whether two index rows resolve to the same target position.
fn has_duplicate_rows(ishape: &Vec<usize>, idata: &Vec<isize>, dims: &Vec<usize>) -> (r: bool)
    requires
        ishape@.len() > 1,
        crate::shape::suffix_fits(ishape@),
        idata@.len() == crate::shape::prod(ishape@),
    ensures
        r == unpick_dup(ishape@, idata@, dims@),
{
    let n = ishape.len();
    let last = ishape[n - 1];
    proof {
        crate::shape::lemma_prod_split(ishape@, n - 1);
        assert(ishape@.skip(n - 1) =~= seq![ishape@[n - 1]]);
        crate::shape::lemma_prod_singleton(ishape@.skip(n - 1));
        crate::shape::lemma_prod_nonneg(ishape@.take(n - 1));
    }
    let ghost cc = crate::shape::prod(ishape@.take(n - 1));
    if last == 0 {
        // Every row is the empty index; two of them already collide.
        let mut q: usize = 0;
        while q < n - 1
            invariant
                q <= n - 1,
                n == ishape@.len() > 1,
                last == ishape@[n - 1],
                last == 0,
                forall|p: int| 0 <= p < q ==> !(#[trigger] ishape@[p] > 1),
            decreases n - 1 - q,
        {
            if ishape[q] > 1 {
                proof {
                    assert(ishape@[q as int] > 1);
                    assert(unpick_dup(ishape@, idata@, dims@));
                }
                return true;
            }
            q = q + 1;
        }
        return false;
    }
    if last > dims.len() {
        // Such rows cannot resolve; the rank check rejects them instead.
        return false;
    }
    proof {
        vstd::arithmetic::div_mod::lemma_div_by_multiple(cc, last as int);
    }
    let cnt = idata.len() / last;
    let ghost gidx = idata@;
    let mut c1: usize = 0;
    while c1 < cnt
        invariant
            c1 <= cnt,
            n == ishape@.len() > 1,
            last == ishape@[n - 1] >= 1,
            cnt == cc,
            cc == crate::shape::prod(ishape@.take(n - 1)),
            idata@.len() == cnt * last,
            idata@.len() <= usize::MAX,
            last <= dims@.len(),
            forall|p1: int, p2: int|
                0 <= p1 < p2 < cnt && p1 < c1 ==> !(#[trigger] rows_coincide(
                    idata@,
                    last as int,
                    dims@,
                    p1,
                    p2,
                )),
        decreases cnt - c1,
    {
        let mut c2: usize = c1 + 1;
        while c2 < cnt
            invariant
                c1 < c2 <= cnt || (c2 == c1 + 1 && c2 > cnt),
                c1 < cnt,
                n == ishape@.len() > 1,
                last == ishape@[n - 1] >= 1,
                cnt == cc,
                cc == crate::shape::prod(ishape@.take(n - 1)),
                idata@.len() == cnt * last,
                idata@.len() <= usize::MAX,
                last <= dims@.len(),
                forall|p2: int|
                    c1 < p2 < c2 ==> !(#[trigger] rows_coincide(
                        idata@,
                        last as int,
                        dims@,
                        c1 as int,
                        p2,
                    )),
            decreases cnt - c2,
        {
            proof {
                crate::array::mul_le_mono(c1 as int + 1, cnt as int, last as int);
                assert((c1 + 1) * last == c1 * last + last) by (nonlinear_arith);
                crate::array::mul_le_mono(0, c1 as int, last as int);
                crate::array::mul_le_mono(c2 as int + 1, cnt as int, last as int);
                assert((c2 + 1) * last == c2 * last + last) by (nonlinear_arith);
                crate::array::mul_le_mono(0, c2 as int, last as int);
            }
            let mut same = true;
            let mut w: usize = 0;
            while w < last
                invariant
                    w <= last,
                    last <= dims@.len(),
                    c1 * last + last <= idata@.len(),
                    c2 * last + last <= idata@.len(),
                    idata@.len() <= usize::MAX,
                    same == forall|p: int|
                        0 <= p < w ==> crate::structure::resolve_idx(
                            #[trigger] idata@[c1 * last + p],
                            dims@[p] as int,
                        ) == crate::structure::resolve_idx(
                            idata@[c2 * last + p],
                            dims@[p] as int,
                        ),
                decreases last - w,
            {
                let a1 = idata[c1 * last + w];
                let a2 = idata[c2 * last + w];
                let d = dims[w];
                let r1: i128 = if a1 >= 0 {
                    a1 as i128
                } else {
                    (d as i128) + (a1 as i128)
                };
                let r2: i128 = if a2 >= 0 {
                    a2 as i128
                } else {
                    (d as i128) + (a2 as i128)
                };
                if r1 != r2 {
                    same = false;
                }
                w = w + 1;
            }
            if same {
                proof {
                    assert(rows_coincide(idata@, last as int, dims@, c1 as int, c2 as int));
                    assert(unpick_dup(ishape@, idata@, dims@));
                }
                return true;
            }
            proof {
                let p = choose|p: int|
                    0 <= p < last && crate::structure::resolve_idx(
                        #[trigger] idata@[c1 * last + p],
                        dims@[p] as int,
                    ) != crate::structure::resolve_idx(idata@[c2 * last + p], dims@[p] as int);
                assert(!rows_coincide(idata@, last as int, dims@, c1 as int, c2 as int));
            }
            c2 = c2 + 1;
        }
        c1 = c1 + 1;
    }
    false
}

} // verus!

// The remaining undo operations, lifted to the polymorphic layer by
// exhaustive dispatch with numeric promotion.

verus! {

impl Value {

    /// Undo a take: splice this (the taken, possibly edited) value back
    /// over the rows the counts named in `into`.
    pub fn untake(self, index: &Value, into: Value) -> (r: Result<Value, ArrayError>)
        requires
            self.wf(),
            index.wf(),
            into.wf(),
        ensures
            match ints_of(*index) {
                Err(e) => r == Err::<Value, ArrayError>(e),
                Ok(dims) => match (self, into) {
                    (Value::Num(a), Value::Num(b)) => (r matches Ok(v) ==> v is Num)
                        && crate::takedrop::untake_post(
                        dims,
                        a.shape@,
                        a.data@,
                        b.shape@,
                        b.data@,
                        ok_num(r),
                    ),
                    (Value::Byte(a), Value::Byte(b)) => (r matches Ok(v) ==> v is Byte)
                        && crate::takedrop::untake_post(
                        dims,
                        a.shape@,
                        a.data@,
                        b.shape@,
                        b.data@,
                        ok_byte(r),
                    ),
                    (Value::Char(a), Value::Char(b)) => (r matches Ok(v) ==> v is Char)
                        && crate::takedrop::untake_post(
                        dims,
                        a.shape@,
                        a.data@,
                        b.shape@,
                        b.data@,
                        ok_char(r),
                    ),
                    (Value::Complex(a), Value::Complex(b)) => (r matches Ok(v) ==> v is Complex)
                        && crate::takedrop::untake_post(
                        dims,
                        a.shape@,
                        a.data@,
                        b.shape@,
                        b.data@,
                        ok_complex(r),
                    ),
                    (Value::Num(a), Value::Byte(b)) => (r matches Ok(v) ==> v is Num)
                        && crate::takedrop::untake_post(
                        dims,
                        a.shape@,
                        a.data@,
                        b.shape@,
                        bytes_as_nums(b.data@),
                        ok_num(r),
                    ),
                    (Value::Byte(a), Value::Num(b)) => (r matches Ok(v) ==> v is Num)
                        && crate::takedrop::untake_post(
                        dims,
                        a.shape@,
                        bytes_as_nums(a.data@),
                        b.shape@,
                        b.data@,
                        ok_num(r),
                    ),
                    _ => r == Err::<Value, ArrayError>(
                        ArrayError::TypeMismatch { a: self.tag_spec(), b: into.tag_spec() },
                    ),
                },
            },
    {
        let dims = match index.as_ints() {
            Ok(v) => v,
            Err(e) => {
                return Err(e);
            },
        };
        match (self, into) {
            (Value::Num(a), Value::Num(b)) => match a.untake(&dims, b) {
                Ok(res) => Ok(Value::Num(res)),
                Err(e) => Err(e),
            },
            (Value::Byte(a), Value::Byte(b)) => match a.untake(&dims, b) {
                Ok(res) => Ok(Value::Byte(res)),
                Err(e) => Err(e),
            },
            (Value::Char(a), Value::Char(b)) => match a.untake(&dims, b) {
                Ok(res) => Ok(Value::Char(res)),
                Err(e) => Err(e),
            },
            (Value::Complex(a), Value::Complex(b)) => match a.untake(&dims, b) {
                Ok(res) => Ok(Value::Complex(res)),
                Err(e) => Err(e),
            },
            (Value::Num(a), Value::Byte(b)) => {
                let bb = Value::bytes_to_nums(&b);
                match a.untake(&dims, bb) {
                    Ok(res) => Ok(Value::Num(res)),
                    Err(e) => Err(e),
                }
            },
            (Value::Byte(a), Value::Num(b)) => {
                let aa = Value::bytes_to_nums(&a);
                match aa.untake(&dims, b) {
                    Ok(res) => Ok(Value::Num(res)),
                    Err(e) => Err(e),
                }
            },
            (kept, other_into) => Err(
                ArrayError::TypeMismatch { a: kept.tag(), b: other_into.tag() },
            ),
        }
    }

    /// Undo a drop: splice this (the remainder, possibly edited) value back
    /// over the positions it kept in `into`.
    pub fn undrop(self, index: &Value, into: Value) -> (r: Result<Value, ArrayError>)
        requires
            self.wf(),
            index.wf(),
            into.wf(),
        ensures
            match ints_of(*index) {
                Err(e) => r == Err::<Value, ArrayError>(e),
                Ok(dims) => match (self, into) {
                    (Value::Num(a), Value::Num(b)) => (r matches Ok(v) ==> v is Num)
                        && crate::takedrop::undrop_post(
                        dims,
                        a.shape@,
                        a.data@,
                        b.shape@,
                        b.data@,
                        ok_num(r),
                    ),
                    (Value::Byte(a), Value::Byte(b)) => (r matches Ok(v) ==> v is Byte)
                        && crate::takedrop::undrop_post(
                        dims,
                        a.shape@,
                        a.data@,
                        b.shape@,
                        b.data@,
                        ok_byte(r),
                    ),
                    (Value::Char(a), Value::Char(b)) => (r matches Ok(v) ==> v is Char)
                        && crate::takedrop::undrop_post(
                        dims,
                        a.shape@,
                        a.data@,
                        b.shape@,
                        b.data@,
                        ok_char(r),
                    ),
                    (Value::Complex(a), Value::Complex(b)) => (r matches Ok(v) ==> v is Complex)
                        && crate::takedrop::undrop_post(
                        dims,
                        a.shape@,
                        a.data@,
                        b.shape@,
                        b.data@,
                        ok_complex(r),
                    ),
                    (Value::Num(a), Value::Byte(b)) => (r matches Ok(v) ==> v is Num)
                        && crate::takedrop::undrop_post(
                        dims,
                        a.shape@,
                        a.data@,
                        b.shape@,
                        bytes_as_nums(b.data@),
                        ok_num(r),
                    ),
                    (Value::Byte(a), Value::Num(b)) => (r matches Ok(v) ==> v is Num)
                        && crate::takedrop::undrop_post(
                        dims,
                        a.shape@,
                        bytes_as_nums(a.data@),
                        b.shape@,
                        b.data@,
                        ok_num(r),
                    ),
                    _ => r == Err::<Value, ArrayError>(
                        ArrayError::TypeMismatch { a: self.tag_spec(), b: into.tag_spec() },
                    ),
                },
            },
    {
        let dims = match index.as_ints() {
            Ok(v) => v,
            Err(e) => {
                return Err(e);
            },
        };
        match (self, into) {
            (Value::Num(a), Value::Num(b)) => match a.undrop(&dims, b) {
                Ok(res) => Ok(Value::Num(res)),
                Err(e) => Err(e),
            },
            (Value::Byte(a), Value::Byte(b)) => match a.undrop(&dims, b) {
                Ok(res) => Ok(Value::Byte(res)),
                Err(e) => Err(e),
            },
            (Value::Char(a), Value::Char(b)) => match a.undrop(&dims, b) {
                Ok(res) => Ok(Value::Char(res)),
                Err(e) => Err(e),
            },
            (Value::Complex(a), Value::Complex(b)) => match a.undrop(&dims, b) {
                Ok(res) => Ok(Value::Complex(res)),
                Err(e) => Err(e),
            },
            (Value::Num(a), Value::Byte(b)) => {
                let bb = Value::bytes_to_nums(&b);
                match a.undrop(&dims, bb) {
                    Ok(res) => Ok(Value::Num(res)),
                    Err(e) => Err(e),
                }
            },
            (Value::Byte(a), Value::Num(b)) => {
                let aa = Value::bytes_to_nums(&a);
                match aa.undrop(&dims, b) {
                    Ok(res) => Ok(Value::Num(res)),
                    Err(e) => Err(e),
                }
            },
            (kept, other_into) => Err(
                ArrayError::TypeMismatch { a: kept.tag(), b: other_into.tag() },
            ),
        }
    }

    /// Undo a keep: this value is the counts; kept positions take their
    /// rows from the (possibly edited) kept value, dropped positions keep
    /// the target's. A scalar keep has no per-row counts and cannot be
    /// undone.
    pub fn unkeep(&self, kept: Value, into: Value) -> (r: Result<Value, ArrayError>)
        requires
            self.wf(),
            kept.wf(),
            into.wf(),
        ensures
            match nats_of(*self) {
                Err(e) => r == Err::<Value, ArrayError>(e),
                Ok(counts) => {
                    if self.shape_spec().len() == 0 {
                        r == Err::<Value, ArrayError>(ArrayError::ScalarUnkeep)
                    } else {
                        match (kept, into) {
                        (Value::Num(a), Value::Num(b)) => (r matches Ok(v) ==> v is Num)
                            && (if a.shape@.len() == 0 || b.shape@.len() == 0 {
                            r == Err::<Value, ArrayError>(ArrayError::KeptShapeChanged)
                        } else {
                            match crate::keep::unkeep_spec(
                                counts,
                                a.shape@,
                                a.data@,
                                b.shape@,
                                b.data@,
                            ) {
                                Ok((ns, nd)) => ok_num(r) matches Ok(res) && res.wf()
                                    && res.shape@ == ns && res.data@ == nd,
                                Err(e) => r == Err::<Value, ArrayError>(e),
                            }
                        }),
                        (Value::Byte(a), Value::Byte(b)) => (r matches Ok(v) ==> v is Byte)
                            && (if a.shape@.len() == 0 || b.shape@.len() == 0 {
                            r == Err::<Value, ArrayError>(ArrayError::KeptShapeChanged)
                        } else {
                            match crate::keep::unkeep_spec(
                                counts,
                                a.shape@,
                                a.data@,
                                b.shape@,
                                b.data@,
                            ) {
                                Ok((ns, nd)) => ok_byte(r) matches Ok(res) && res.wf()
                                    && res.shape@ == ns && res.data@ == nd,
                                Err(e) => r == Err::<Value, ArrayError>(e),
                            }
                        }),
                        (Value::Char(a), Value::Char(b)) => (r matches Ok(v) ==> v is Char)
                            && (if a.shape@.len() == 0 || b.shape@.len() == 0 {
                            r == Err::<Value, ArrayError>(ArrayError::KeptShapeChanged)
                        } else {
                            match crate::keep::unkeep_spec(
                                counts,
                                a.shape@,
                                a.data@,
                                b.shape@,
                                b.data@,
                            ) {
                                Ok((ns, nd)) => ok_char(r) matches Ok(res) && res.wf()
                                    && res.shape@ == ns && res.data@ == nd,
                                Err(e) => r == Err::<Value, ArrayError>(e),
                            }
                        }),
                        (Value::Complex(a), Value::Complex(b)) => (r matches Ok(v) ==> v is Complex)
                            && (if a.shape@.len() == 0 || b.shape@.len() == 0 {
                            r == Err::<Value, ArrayError>(ArrayError::KeptShapeChanged)
                        } else {
                            match crate::keep::unkeep_spec(
                                counts,
                                a.shape@,
                                a.data@,
                                b.shape@,
                                b.data@,
                            ) {
                                Ok((ns, nd)) => ok_complex(r) matches Ok(res) && res.wf()
                                    && res.shape@ == ns && res.data@ == nd,
                                Err(e) => r == Err::<Value, ArrayError>(e),
                            }
                        }),
                        (Value::Num(a), Value::Byte(b)) => (r matches Ok(v) ==> v is Num)
                            && (if a.shape@.len() == 0 || b.shape@.len() == 0 {
                            r == Err::<Value, ArrayError>(ArrayError::KeptShapeChanged)
                        } else {
                            match crate::keep::unkeep_spec(
                                counts,
                                a.shape@,
                                a.data@,
                                b.shape@,
                                bytes_as_nums(b.data@),
                            ) {
                                Ok((ns, nd)) => ok_num(r) matches Ok(res) && res.wf()
                                    && res.shape@ == ns && res.data@ == nd,
                                Err(e) => r == Err::<Value, ArrayError>(e),
                            }
                        }),
                        (Value::Byte(a), Value::Num(b)) => (r matches Ok(v) ==> v is Num)
                            && (if a.shape@.len() == 0 || b.shape@.len() == 0 {
                            r == Err::<Value, ArrayError>(ArrayError::KeptShapeChanged)
                        } else {
                            match crate::keep::unkeep_spec(
                                counts,
                                a.shape@,
                                bytes_as_nums(a.data@),
                                b.shape@,
                                b.data@,
                            ) {
                                Ok((ns, nd)) => ok_num(r) matches Ok(res) && res.wf()
                                    && res.shape@ == ns && res.data@ == nd,
                                Err(e) => r == Err::<Value, ArrayError>(e),
                            }
                        }),
                        _ => r == Err::<Value, ArrayError>(
                            ArrayError::TypeMismatch { a: kept.tag_spec(), b: into.tag_spec() },
                        ),
                        }
                    }
                },
            },
    {
        let counts = match self.as_nats() {
            Ok(v) => v,
            Err(e) => {
                return Err(e);
            },
        };
        if self.rank() == 0 {
            return Err(ArrayError::ScalarUnkeep);
        }
        match (kept, into) {
            (Value::Num(a), Value::Num(b)) => {
                if a.shape.len() == 0 || b.shape.len() == 0 {
                    return Err(ArrayError::KeptShapeChanged);
                }
                match a.unkeep(&counts, b) {
                    Ok(res) => Ok(Value::Num(res)),
                    Err(e) => Err(e),
                }
            },
            (Value::Byte(a), Value::Byte(b)) => {
                if a.shape.len() == 0 || b.shape.len() == 0 {
                    return Err(ArrayError::KeptShapeChanged);
                }
                match a.unkeep(&counts, b) {
                    Ok(res) => Ok(Value::Byte(res)),
                    Err(e) => Err(e),
                }
            },
            (Value::Char(a), Value::Char(b)) => {
                if a.shape.len() == 0 || b.shape.len() == 0 {
                    return Err(ArrayError::KeptShapeChanged);
                }
                match a.unkeep(&counts, b) {
                    Ok(res) => Ok(Value::Char(res)),
                    Err(e) => Err(e),
                }
            },
            (Value::Complex(a), Value::Complex(b)) => {
                if a.shape.len() == 0 || b.shape.len() == 0 {
                    return Err(ArrayError::KeptShapeChanged);
                }
                match a.unkeep(&counts, b) {
                    Ok(res) => Ok(Value::Complex(res)),
                    Err(e) => Err(e),
                }
            },
            (Value::Num(a), Value::Byte(b)) => {
                if a.shape.len() == 0 || b.shape.len() == 0 {
                    return Err(ArrayError::KeptShapeChanged);
                }
                let bb = Value::bytes_to_nums(&b);
                match a.unkeep(&counts, bb) {
                    Ok(res) => Ok(Value::Num(res)),
                    Err(e) => Err(e),
                }
            },
            (Value::Byte(a), Value::Num(b)) => {
                if a.shape.len() == 0 || b.shape.len() == 0 {
                    return Err(ArrayError::KeptShapeChanged);
                }
                let aa = Value::bytes_to_nums(&a);
                match aa.unkeep(&counts, b) {
                    Ok(res) => Ok(Value::Num(res)),
                    Err(e) => Err(e),
                }
            },
            (other_kept, other_into) => Err(
                ArrayError::TypeMismatch { a: other_kept.tag(), b: other_into.tag() },
            ),
        }
    }

    /// Undo a selection: write this (the selected, possibly edited) value's
    /// rows back where the indices named them in `into`. A selection
    /// through a multi-dimensional index array cannot be undone, and
    /// duplicate resolved indices are rejected as ambiguous.
    pub fn unselect(&self, index: &Value, into: Value) -> (r: Result<Value, ArrayError>)
        requires
            self.wf(),
            index.wf(),
            into.wf(),
        ensures
            match shaped_of(*index) {
                Err(e) => r == Err::<Value, ArrayError>(e),
                Ok((ishape, idata)) => {
                    if ishape.len() > 1 {
                        r == Err::<Value, ArrayError>(ArrayError::UndoMultiSelect)
                    } else {
                        match (*self, into) {
                        (Value::Num(a), Value::Num(b)) => (r matches Ok(v) ==> v is Num)
                            && (if b.shape@.len() == 0 {
                            r == Err::<Value, ArrayError>(ArrayError::UndoShapeChanged)
                        } else {
                            crate::structure::unselect_post(
                                ishape.len() == 0,
                                idata,
                                a.shape@,
                                a.data@,
                                b.shape@,
                                b.data@,
                                ok_num(r),
                            )
                        }),
                        (Value::Byte(a), Value::Byte(b)) => (r matches Ok(v) ==> v is Byte)
                            && (if b.shape@.len() == 0 {
                            r == Err::<Value, ArrayError>(ArrayError::UndoShapeChanged)
                        } else {
                            crate::structure::unselect_post(
                                ishape.len() == 0,
                                idata,
                                a.shape@,
                                a.data@,
                                b.shape@,
                                b.data@,
                                ok_byte(r),
                            )
                        }),
                        (Value::Char(a), Value::Char(b)) => (r matches Ok(v) ==> v is Char)
                            && (if b.shape@.len() == 0 {
                            r == Err::<Value, ArrayError>(ArrayError::UndoShapeChanged)
                        } else {
                            crate::structure::unselect_post(
                                ishape.len() == 0,
                                idata,
                                a.shape@,
                                a.data@,
                                b.shape@,
                                b.data@,
                                ok_char(r),
                            )
                        }),
                        (Value::Complex(a), Value::Complex(b)) => (r matches Ok(v) ==> v is Complex)
                            && (if b.shape@.len() == 0 {
                            r == Err::<Value, ArrayError>(ArrayError::UndoShapeChanged)
                        } else {
                            crate::structure::unselect_post(
                                ishape.len() == 0,
                                idata,
                                a.shape@,
                                a.data@,
                                b.shape@,
                                b.data@,
                                ok_complex(r),
                            )
                        }),
                        (Value::Num(a), Value::Byte(b)) => (r matches Ok(v) ==> v is Num)
                            && (if b.shape@.len() == 0 {
                            r == Err::<Value, ArrayError>(ArrayError::UndoShapeChanged)
                        } else {
                            crate::structure::unselect_post(
                                ishape.len() == 0,
                                idata,
                                a.shape@,
                                a.data@,
                                b.shape@,
                                bytes_as_nums(b.data@),
                                ok_num(r),
                            )
                        }),
                        (Value::Byte(a), Value::Num(b)) => (r matches Ok(v) ==> v is Num)
                            && (if b.shape@.len() == 0 {
                            r == Err::<Value, ArrayError>(ArrayError::UndoShapeChanged)
                        } else {
                            crate::structure::unselect_post(
                                ishape.len() == 0,
                                idata,
                                a.shape@,
                                bytes_as_nums(a.data@),
                                b.shape@,
                                b.data@,
                                ok_num(r),
                            )
                        }),
                        _ => r == Err::<Value, ArrayError>(
                            ArrayError::TypeMismatch { a: self.tag_spec(), b: into.tag_spec() },
                        ),
                        }
                    }
                },
            },
    {
        let (ishape, idata) = match index.as_shaped_indices() {
            Ok(v) => v,
            Err(e) => {
                return Err(e);
            },
        };
        if ishape.len() > 1 {
            return Err(ArrayError::UndoMultiSelect);
        }
        let scalar_index = ishape.len() == 0;
        proof {
            if scalar_index {
                match index {
                    Value::Num(a) => {
                        assert(a.data@.len() == crate::shape::prod(a.shape@));
                    },
                    Value::Byte(a) => {
                        assert(a.data@.len() == crate::shape::prod(a.shape@));
                    },
                    _ => {},
                }
            }
        }
        match (self, into) {
            (Value::Num(a), Value::Num(b)) => {
                if b.shape.len() == 0 {
                    return Err(ArrayError::UndoShapeChanged);
                }
                match a.unselect(scalar_index, &idata, b) {
                    Ok(res) => Ok(Value::Num(res)),
                    Err(e) => Err(e),
                }
            },
            (Value::Byte(a), Value::Byte(b)) => {
                if b.shape.len() == 0 {
                    return Err(ArrayError::UndoShapeChanged);
                }
                match a.unselect(scalar_index, &idata, b) {
                    Ok(res) => Ok(Value::Byte(res)),
                    Err(e) => Err(e),
                }
            },
            (Value::Char(a), Value::Char(b)) => {
                if b.shape.len() == 0 {
                    return Err(ArrayError::UndoShapeChanged);
                }
                match a.unselect(scalar_index, &idata, b) {
                    Ok(res) => Ok(Value::Char(res)),
                    Err(e) => Err(e),
                }
            },
            (Value::Complex(a), Value::Complex(b)) => {
                if b.shape.len() == 0 {
                    return Err(ArrayError::UndoShapeChanged);
                }
                match a.unselect(scalar_index, &idata, b) {
                    Ok(res) => Ok(Value::Complex(res)),
                    Err(e) => Err(e),
                }
            },
            (Value::Num(a), Value::Byte(b)) => {
                if b.shape.len() == 0 {
                    return Err(ArrayError::UndoShapeChanged);
                }
                let bb = Value::bytes_to_nums(&b);
                match a.unselect(scalar_index, &idata, bb) {
                    Ok(res) => Ok(Value::Num(res)),
                    Err(e) => Err(e),
                }
            },
            (Value::Byte(a), Value::Num(b)) => {
                if b.shape.len() == 0 {
                    return Err(ArrayError::UndoShapeChanged);
                }
                let aa = Value::bytes_to_nums(a);
                match aa.unselect(scalar_index, &idata, b) {
                    Ok(res) => Ok(Value::Num(res)),
                    Err(e) => Err(e),
                }
            },
            (_, other_into) => Err(
                ArrayError::TypeMismatch { a: self.tag(), b: other_into.tag() },
            ),
        }
    }
}

} // verus!

// Depth-parametrized rotation at the polymorphic layer.

verus! {

impl Value {
    /// Use this value as a shaped array of offsets to rotate another at
    /// depth: the operands' leading dimensions are aligned, then each cell
    /// of the rotated value turns by the matching offset cell. With a
    /// numeric fill value in scope a byte array is promoted to numbers
    /// first, as the plain rotation does.
    pub fn rotate_depth(
        &self,
        rotated: Value,
        depth: usize,
        by_depth: usize,
        fill: &Fill,
    ) -> (r: Result<Value, ArrayError>)
        requires
            self.wf(),
            rotated.wf(),
        ensures
            match shaped_of(*self) {
                Err(e) => r == Err::<Value, ArrayError>(e),
                Ok((bshape, bdata)) => match rotated {
                    Value::Num(a) => (r matches Ok(v) ==> v is Num)
                        && crate::align::rotate_depth_post(
                        a.shape@,
                        a.data@,
                        depth as int,
                        bshape,
                        bdata,
                        by_depth as int,
                        ok_num(r),
                    ),
                    Value::Char(a) => (r matches Ok(v) ==> v is Char)
                        && crate::align::rotate_depth_post(
                        a.shape@,
                        a.data@,
                        depth as int,
                        bshape,
                        bdata,
                        by_depth as int,
                        ok_char(r),
                    ),
                    Value::Complex(a) => (r matches Ok(v) ==> v is Complex)
                        && crate::align::rotate_depth_post(
                        a.shape@,
                        a.data@,
                        depth as int,
                        bshape,
                        bdata,
                        by_depth as int,
                        ok_complex(r),
                    ),
                    Value::Byte(a) => {
                        if fill.num is Some {
                            (r matches Ok(v) ==> v is Num) && crate::align::rotate_depth_post(
                                a.shape@,
                                bytes_as_nums(a.data@),
                                depth as int,
                                bshape,
                                bdata,
                                by_depth as int,
                                ok_num(r),
                            )
                        } else {
                            (r matches Ok(v) ==> v is Byte) && crate::align::rotate_depth_post(
                                a.shape@,
                                a.data@,
                                depth as int,
                                bshape,
                                bdata,
                                by_depth as int,
                                ok_byte(r),
                            )
                        }
                    },
                },
            },
    {
        let (bshape, bdata) = match self.as_shaped_indices() {
            Ok(v) => v,
            Err(e) => {
                return Err(e);
            },
        };
        proof {
            match self {
                Value::Num(a) => {
                    assert(a.data@.len() == crate::shape::prod(a.shape@));
                },
                Value::Byte(a) => {
                    assert(a.data@.len() == crate::shape::prod(a.shape@));
                },
                _ => {},
            }
        }
        match rotated {
            Value::Num(a) => {
                let mut aa = a;
                match aa.rotate_depth(&bshape, &bdata, depth, by_depth) {
                    Ok(()) => Ok(Value::Num(aa)),
                    Err(e) => Err(e),
                }
            },
            Value::Char(a) => {
                let mut aa = a;
                match aa.rotate_depth(&bshape, &bdata, depth, by_depth) {
                    Ok(()) => Ok(Value::Char(aa)),
                    Err(e) => Err(e),
                }
            },
            Value::Complex(a) => {
                let mut aa = a;
                match aa.rotate_depth(&bshape, &bdata, depth, by_depth) {
                    Ok(()) => Ok(Value::Complex(aa)),
                    Err(e) => Err(e),
                }
            },
            Value::Byte(a) => {
                if fill.num.is_some() {
                    let mut aa = Value::bytes_to_nums(&a);
                    match aa.rotate_depth(&bshape, &bdata, depth, by_depth) {
                        Ok(()) => Ok(Value::Num(aa)),
                        Err(e) => Err(e),
                    }
                } else {
                    let mut aa = a;
                    match aa.rotate_depth(&bshape, &bdata, depth, by_depth) {
                        Ok(()) => Ok(Value::Byte(aa)),
                        Err(e) => Err(e),
                    }
                }
            },
        }
    }
}

} // verus!
