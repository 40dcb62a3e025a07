use vstd::prelude::*;

use std::marker::PhantomData;

use crate::error::Error;
use crate::index::{CellIndex, DirectedEdgeIndex, H3IndexArrayValue, VertexIndex};

verus! {

/// Whether every non-null position of `s` holds a pattern valid for kind `IX`.
pub open spec fn all_valid<IX: H3IndexArrayValue>(s: Seq<Option<u64>>) -> bool {
    forall|i: int| 0 <= i < s.len() && (#[trigger] s[i]) is Some ==> IX::valid_raw(s[i]->0)
}

/// The nullable sequence stored as a value buffer and a validity mask.
pub open spec fn masked(values: Seq<u64>, validity: Seq<bool>) -> Seq<Option<u64>> {
    Seq::new(
        values.len(),
        |i: int|
            if validity[i] {
                Some(values[i])
            } else {
                None
            },
    )
}

/// `s` with every position that holds a pattern invalid for kind `IX` set to null.
pub open spec fn nulled_invalid<IX: H3IndexArrayValue>(s: Seq<Option<u64>>) -> Seq<Option<u64>> {
    Seq::new(
        s.len(),
        |i: int|
            match s[i] {
                Some(v) => if IX::valid_raw(v) {
                    Some(v)
                } else {
                    None
                },
                None => None,
            },
    )
}

/// `e` is the error of the first position of `s` whose pattern is invalid for kind `IX`.
pub open spec fn first_invalid_error<IX: H3IndexArrayValue>(s: Seq<Option<u64>>, e: Error) -> bool {
    exists|i: int|
        0 <= i < s.len() && (#[trigger] s[i]) is Some && !IX::valid_raw(s[i]->0) && e
            == IX::invalid_error(s[i]->0) && all_valid::<IX>(s.take(i))
}

/// A nullable sequence of indices of one kind, each non-null one valid for that kind.
pub struct H3Array<IX: H3IndexArrayValue> {
    values: Vec<u64>,
    validity: Vec<bool>,
    h3index_phantom: PhantomData<IX>,
}

pub type CellIndexArray = H3Array<CellIndex>;

pub type VertexIndexArray = H3Array<VertexIndex>;

pub type DirectedEdgeIndexArray = H3Array<DirectedEdgeIndex>;

impl<IX: H3IndexArrayValue> View for H3Array<IX> {
    type V = Seq<Option<u64>>;

    closed spec fn view(&self) -> Seq<Option<u64>> {
        masked(self.values@, self.validity@)
    }
}

impl<IX: H3IndexArrayValue> H3Array<IX> {
    #[verifier::type_invariant]
    spec fn inv(&self) -> bool {
        &&& self.values@.len() == self.validity@.len()
        &&& all_valid::<IX>(masked(self.values@, self.validity@))
    }

    /// Builds an array from a value buffer and a mask already known to be valid.
    pub(crate) fn from_parts(values: Vec<u64>, validity: Vec<bool>) -> (r: Self)
        requires
            values@.len() == validity@.len(),
            all_valid::<IX>(masked(values@, validity@)),
        ensures
            r@ == masked(values@, validity@),
    {
        H3Array { values, validity, h3index_phantom: PhantomData }
    }

    /// Builds an array from a nullable sequence already known to be valid.
    pub(crate) fn from_valid_options(values: &Vec<Option<u64>>) -> (r: Self)
        requires
            all_valid::<IX>(values@),
        ensures
            r@ == values@,
    {
        let mut vals: Vec<u64> = Vec::new();
        let mut validity: Vec<bool> = Vec::new();
        let mut i: usize = 0;
        while i < values.len()
            invariant
                i <= values@.len(),
                all_valid::<IX>(values@),
                vals@.len() == i,
                validity@.len() == i,
                masked(vals@, validity@) =~= values@.take(i as int),
            decreases values@.len() - i,
        {
            match values[i] {
                Some(v) => {
                    vals.push(v);
                    validity.push(true);
                },
                None => {
                    vals.push(0);
                    validity.push(false);
                },
            }
            i = i + 1;
            assert(masked(vals@, validity@) =~= values@.take(i as int));
        }
        assert(values@.take(i as int) =~= values@);
        Self::from_parts(vals, validity)
    }

    /// The array of `length` nulls.
    pub fn new_null(length: usize) -> (r: Self)
        ensures
            r@ == Seq::new(length as nat, |i: int| None::<u64>),
    {
        let mut values: Vec<u64> = Vec::new();
        let mut validity: Vec<bool> = Vec::new();
        let mut i: usize = 0;
        while i < length
            invariant
                i <= length,
                values@.len() == i,
                validity@.len() == i,
                forall|j: int| 0 <= j < i ==> !(#[trigger] validity@[j]),
            decreases length - i,
        {
            values.push(0);
            validity.push(false);
            i = i + 1;
        }
        let r = Self::from_parts(values, validity);
        assert(r@ =~= Seq::new(length as nat, |i: int| None::<u64>));
        r
    }

    pub fn builder(capacity: usize) -> (b: H3ArrayBuilder<IX>)
        ensures
            b.wf(),
            b@ == Seq::<Option<u64>>::empty(),
    {
        H3ArrayBuilder::with_capacity(capacity)
    }

    pub fn len(&self) -> (r: usize)
        ensures
            r == self@.len(),
    {
        proof {
            use_type_invariant(self);
        }
        self.values.len()
    }

    pub fn is_empty(&self) -> (r: bool)
        ensures
            r == (self@.len() == 0),
    {
        proof {
            use_type_invariant(self);
        }
        self.values.len() == 0
    }

    /// Whether the value at `i` is non-null.
    pub fn is_valid(&self, i: usize) -> (r: bool)
        requires
            i < self@.len(),
        ensures
            r == self@[i as int] is Some,
    {
        proof {
            use_type_invariant(self);
        }
        self.validity[i]
    }

    /// The value at `i`, or `None` where it is null; not checked again.
    pub fn get(&self, i: usize) -> (r: Option<IX>)
        requires
            i < self@.len(),
        ensures
            r is Some <==> self@[i as int] is Some,
            r matches Some(x) ==> Some(x.raw()) == self@[i as int],
    {
        proof {
            use_type_invariant(self);
        }
        if self.validity[i] {
            assert(masked(self.values@, self.validity@)[i as int] is Some);
            Some(IX::transmute_from_u64(self.values[i]))
        } else {
            None
        }
    }

    /// The raw bit pattern at `i`, or `None` where it is null.
    pub fn get_u64(&self, i: usize) -> (r: Option<u64>)
        requires
            i < self@.len(),
        ensures
            r == self@[i as int],
            r matches Some(v) ==> IX::valid_raw(v),
    {
        proof {
            use_type_invariant(self);
        }
        if self.validity[i] {
            assert(masked(self.values@, self.validity@)[i as int] is Some);
            Some(self.values[i])
        } else {
            None
        }
    }

    /// The `length` positions from `offset` on, as an array of their own.
    pub fn slice(&self, offset: usize, length: usize) -> (r: Self)
        requires
            offset + length <= self@.len(),
        ensures
            r@ == self@.subrange(offset as int, offset + length),
    {
        proof {
            use_type_invariant(self);
        }
        let mut values: Vec<u64> = Vec::new();
        let mut validity: Vec<bool> = Vec::new();
        let n = self.values.len();
        let mut i: usize = 0;
        while i < length
            invariant
                n == self.values@.len(),
                offset + length <= self.values@.len(),
                self.values@.len() == self.validity@.len(),
                all_valid::<IX>(masked(self.values@, self.validity@)),
                i <= length,
                values@.len() == i,
                validity@.len() == i,
                masked(values@, validity@) =~= masked(self.values@, self.validity@).subrange(
                    offset as int,
                    offset + i,
                ),
            decreases length - i,
        {
            values.push(self.values[offset + i]);
            validity.push(self.validity[offset + i]);
            i = i + 1;
            assert(masked(values@, validity@) =~= masked(self.values@, self.validity@).subrange(
                offset as int,
                offset + i,
            ));
        }
        let r = Self::from_parts(values, validity);
        r
    }

    /// The values in order, `None` for each null.
    pub fn to_vec(&self) -> (r: Vec<Option<IX>>)
        ensures
            r@.len() == self@.len(),
            forall|i: int|
                0 <= i < r@.len() ==> (#[trigger] r@[i] is Some <==> self@[i] is Some) && (r@[i] matches Some(x)
                    ==> Some(x.raw()) == self@[i]),
    {
        let mut out: Vec<Option<IX>> = Vec::new();
        let n = self.len();
        let mut i: usize = 0;
        while i < n
            invariant
                n == self@.len(),
                i <= n,
                out@.len() == i,
                forall|j: int|
                    0 <= j < i ==> (#[trigger] out@[j] is Some <==> self@[j] is Some) && (out@[j] matches Some(x)
                        ==> Some(x.raw()) == self@[j]),
            decreases n - i,
        {
            out.push(self.get(i));
            i = i + 1;
        }
        out
    }

    /// The raw bit patterns in order, `None` for each null.
    pub fn to_u64s(&self) -> (r: Vec<Option<u64>>)
        ensures
            r@ == self@,
            all_valid::<IX>(r@),
    {
        let mut out: Vec<Option<u64>> = Vec::new();
        let n = self.len();
        let mut i: usize = 0;
        while i < n
            invariant
                n == self@.len(),
                i <= n,
                out@ =~= self@.take(i as int),
            decreases n - i,
        {
            out.push(self.get_u64(i));
            i = i + 1;
            assert(out@ =~= self@.take(i as int));
        }
        assert(self@.take(n as int) =~= self@);
        proof {
            use_type_invariant(self);
        }
        out
    }

    /// The non-null raw bit patterns in order.
    pub fn to_valid_u64s(&self) -> (r: Vec<u64>)
        ensures
            r@ == non_null(self@),
            forall|i: int| 0 <= i < r@.len() ==> IX::valid_raw(#[trigger] r@[i]),
    {
        let mut out: Vec<u64> = Vec::new();
        let n = self.len();
        let mut i: usize = 0;
        while i < n
            invariant
                n == self@.len(),
                i <= n,
                out@ == non_null(self@.take(i as int)),
                forall|j: int| 0 <= j < out@.len() ==> IX::valid_raw(#[trigger] out@[j]),
            decreases n - i,
        {
            let v = self.get_u64(i);
            assert(self@.take(i + 1).drop_last() =~= self@.take(i as int));
            match v {
                Some(x) => {
                    out.push(x);
                },
                None => {},
            }
            i = i + 1;
        }
        assert(self@.take(n as int) =~= self@);
        out
    }

    /// Validates every non-null pattern; the first invalid one fails the whole construction.
    pub fn try_from_options(values: Vec<Option<u64>>) -> (r: Result<Self, Error>)
        ensures
            r is Ok <==> all_valid::<IX>(values@),
            r matches Ok(a) ==> a@ == values@,
            r matches Err(e) ==> first_invalid_error::<IX>(values@, e),
    {
        let mut i: usize = 0;
        while i < values.len()
            invariant
                i <= values@.len(),
                all_valid::<IX>(values@.take(i as int)),
            decreases values@.len() - i,
        {
            match values[i] {
                Some(v) => {
                    match IX::try_from_u64(v) {
                        Ok(_) => {},
                        Err(e) => {
                            assert(values@[i as int] is Some);
                            return Err(e);
                        },
                    }
                },
                None => {},
            }
            proof {
                assert forall|j: int|
                    0 <= j < i + 1 && (#[trigger] values@.take(i + 1)[j]) is Some implies IX::valid_raw(
                    values@.take(i + 1)[j]->0,
                ) by {
                    if j < i {
                        assert(values@.take(i as int)[j] == values@.take(i + 1)[j]);
                    }
                }
            }
            i = i + 1;
        }
        assert(values@.take(i as int) =~= values@);
        Ok(Self::from_valid_options(&values))
    }

    /// Validates every pattern; the first invalid one fails the whole construction.
    pub fn try_from_u64s(values: Vec<u64>) -> (r: Result<Self, Error>)
        ensures
            r is Ok <==> all_valid::<IX>(all_some(values@)),
            r matches Ok(a) ==> a@ == all_some(values@),
            r matches Err(e) ==> first_invalid_error::<IX>(all_some(values@), e),
    {
        let options = some_all(&values);
        Self::try_from_options(options)
    }

    /// Sets every pattern that is invalid for the kind to null; never fails.
    pub fn from_with_validity(values: Vec<Option<u64>>) -> (r: Self)
        ensures
            r@ == nulled_invalid::<IX>(values@),
    {
        let mut out: Vec<Option<u64>> = Vec::new();
        let mut i: usize = 0;
        while i < values.len()
            invariant
                i <= values@.len(),
                out@ =~= nulled_invalid::<IX>(values@.take(i as int)),
            decreases values@.len() - i,
        {
            let v = match values[i] {
                Some(v) => if IX::check_u64(v) {
                    Some(v)
                } else {
                    None
                },
                None => None,
            };
            out.push(v);
            i = i + 1;
            assert(out@ =~= nulled_invalid::<IX>(values@.take(i as int)));
        }
        assert(values@.take(i as int) =~= values@);
        Self::from_valid_options(&out)
    }

    /// Sets every pattern that is invalid for the kind to null; never fails.
    pub fn from_u64s_with_validity(values: Vec<u64>) -> (r: Self)
        ensures
            r@ == nulled_invalid::<IX>(all_some(values@)),
    {
        let options = some_all(&values);
        Self::from_with_validity(options)
    }

    /// The array of the given values, none null.
    pub fn from_values(values: Vec<IX>) -> (r: Self)
        ensures
            r@.len() == values@.len(),
            forall|i: int| 0 <= i < values@.len() ==> #[trigger] r@[i] == Some(values@[i].raw()),
    {
        let mut out: Vec<Option<u64>> = Vec::new();
        let mut i: usize = 0;
        while i < values.len()
            invariant
                i <= values@.len(),
                out@.len() == i,
                all_valid::<IX>(out@),
                forall|j: int| 0 <= j < i ==> #[trigger] out@[j] == Some(values@[j].raw()),
            decreases values@.len() - i,
        {
            out.push(Some(values[i].to_u64()));
            i = i + 1;
        }
        Self::from_valid_options(&out)
    }

    /// The array of the given nullable values.
    pub fn from_options(values: Vec<Option<IX>>) -> (r: Self)
        ensures
            r@.len() == values@.len(),
            forall|i: int|
                0 <= i < values@.len() ==> #[trigger] r@[i] == match values@[i] {
                    Some(x) => Some(x.raw()),
                    None => None,
                },
    {
        let mut out: Vec<Option<u64>> = Vec::new();
        let mut i: usize = 0;
        while i < values.len()
            invariant
                i <= values@.len(),
                out@.len() == i,
                all_valid::<IX>(out@),
                forall|j: int|
                    0 <= j < i ==> #[trigger] out@[j] == match values@[j] {
                        Some(x) => Some(x.raw()),
                        None => None,
                    },
            decreases values@.len() - i,
        {
            let v = match &values[i] {
                Some(x) => Some(x.to_u64()),
                None => None,
            };
            out.push(v);
            i = i + 1;
        }
        Self::from_valid_options(&out)
    }
}

/// Every value of `s`, none null.
pub open spec fn all_some(s: Seq<u64>) -> Seq<Option<u64>> {
    s.map_values(|v: u64| Some(v))
}

/// The non-null values of `s`, in order.
pub open spec fn non_null(s: Seq<Option<u64>>) -> Seq<u64>
    decreases s.len(),
{
    if s.len() == 0 {
        Seq::empty()
    } else {
        match s.last() {
            Some(v) => non_null(s.drop_last()).push(v),
            None => non_null(s.drop_last()),
        }
    }
}

fn some_all(values: &Vec<u64>) -> (r: Vec<Option<u64>>)
    ensures
        r@ == all_some(values@),
{
    let mut out: Vec<Option<u64>> = Vec::new();
    let mut i: usize = 0;
    while i < values.len()
        invariant
            i <= values@.len(),
            out@ =~= all_some(values@.take(i as int)),
        decreases values@.len() - i,
    {
        out.push(Some(values[i]));
        i = i + 1;
        assert(out@ =~= all_some(values@.take(i as int)));
    }
    assert(values@.take(i as int) =~= values@);
    out
}

/// Appends values and nulls one at a time, then hands out the array.
pub struct H3ArrayBuilder<IX: H3IndexArrayValue> {
    values: Vec<u64>,
    validity: Vec<bool>,
    h3index_phantom: PhantomData<IX>,
}

impl<IX: H3IndexArrayValue> View for H3ArrayBuilder<IX> {
    type V = Seq<Option<u64>>;

    closed spec fn view(&self) -> Seq<Option<u64>> {
        masked(self.values@, self.validity@)
    }
}

impl<IX: H3IndexArrayValue> H3ArrayBuilder<IX> {
    pub closed spec fn wf(&self) -> bool {
        &&& self.values@.len() == self.validity@.len()
        &&& all_valid::<IX>(masked(self.values@, self.validity@))
    }

    pub fn with_capacity(capacity: usize) -> (b: Self)
        ensures
            b.wf(),
            b@ == Seq::<Option<u64>>::empty(),
    {
        let b = H3ArrayBuilder { values: Vec::new(), validity: Vec::new(), h3index_phantom: PhantomData };
        assert(b@ =~= Seq::<Option<u64>>::empty());
        b
    }

    pub fn append_value(&mut self, v: IX)
        requires
            old(self).wf(),
        ensures
            final(self).wf(),
            final(self)@ == old(self)@.push(Some(v.raw())),
    {
        let x = v.to_u64();
        self.values.push(x);
        self.validity.push(true);
        assert(masked(self.values@, self.validity@) =~= masked(old(self).values@, old(self).validity@).push(Some(x)));
    }

    pub fn append_null(&mut self)
        requires
            old(self).wf(),
        ensures
            final(self).wf(),
            final(self)@ == old(self)@.push(None),
    {
        self.values.push(0);
        self.validity.push(false);
        assert(masked(self.values@, self.validity@) =~= masked(old(self).values@, old(self).validity@).push(None));
    }

    /// Hands out the array built so far and leaves the builder empty.
    pub fn finish(&mut self) -> (r: H3Array<IX>)
        requires
            old(self).wf(),
        ensures
            r@ == old(self)@,
            final(self).wf(),
            final(self)@ == Seq::<Option<u64>>::empty(),
    {
        let mut values: Vec<u64> = Vec::new();
        let mut validity: Vec<bool> = Vec::new();
        std::mem::swap(&mut values, &mut self.values);
        std::mem::swap(&mut validity, &mut self.validity);
        assert(self@ =~= Seq::<Option<u64>>::empty());
        H3Array::from_parts(values, validity)
    }
}

/// Conversion like `From`, where the validity mask follows the validity of the values.
pub trait FromWithValidity<T>: Sized {
    fn from_with_validity(value: T) -> Self;
}

/// Conversion from a sequence of values, where the validity mask follows the validity of
/// the values.
pub trait FromIteratorWithValidity<A>: Sized {
    fn from_iter_with_validity(values: Vec<A>) -> Self;
}

impl<IX: H3IndexArrayValue> FromWithValidity<Vec<Option<u64>>> for H3Array<IX> {
    fn from_with_validity(value: Vec<Option<u64>>) -> Self {
        H3Array::<IX>::from_with_validity(value)
    }
}

impl<IX: H3IndexArrayValue> FromWithValidity<Vec<u64>> for H3Array<IX> {
    fn from_with_validity(value: Vec<u64>) -> Self {
        H3Array::<IX>::from_u64s_with_validity(value)
    }
}

impl<IX: H3IndexArrayValue> FromIteratorWithValidity<Option<u64>> for H3Array<IX> {
    fn from_iter_with_validity(values: Vec<Option<u64>>) -> Self {
        H3Array::<IX>::from_with_validity(values)
    }
}

impl<IX: H3IndexArrayValue> FromIteratorWithValidity<u64> for H3Array<IX> {
    fn from_iter_with_validity(values: Vec<u64>) -> Self {
        H3Array::<IX>::from_u64s_with_validity(values)
    }
}

} // verus!
