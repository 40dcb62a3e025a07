use vstd::prelude::*;

use crate::array::{FromIteratorWithValidity, FromWithValidity};
use crate::error::Error;
use crate::index::{Resolution, MAX_RESOLUTION};

verus! {

/// Every non-null value is a resolution.
pub open spec fn all_resolutions(s: Seq<Option<u8>>) -> bool {
    forall|i: int| 0 <= i < s.len() && (#[trigger] s[i]) is Some ==> s[i]->0 <= MAX_RESOLUTION
}

pub open spec fn res_opt(x: Option<Resolution>) -> Option<u8> {
    match x {
        Some(r) => Some(r@),
        None => None,
    }
}

/// A nullable sequence of resolutions.
pub struct ResolutionArray {
    values: Vec<Option<u8>>,
}

impl View for ResolutionArray {
    type V = Seq<Option<u8>>;

    closed spec fn view(&self) -> Seq<Option<u8>> {
        self.values@
    }
}

impl ResolutionArray {
    #[verifier::type_invariant]
    spec fn inv(&self) -> bool {
        all_resolutions(self.values@)
    }

    /// Builds an array from values already known to be resolutions.
    pub(crate) fn from_valid(values: Vec<Option<u8>>) -> (r: Self)
        requires
            all_resolutions(values@),
        ensures
            r@ == values@,
    {
        ResolutionArray { values }
    }

    pub fn len(&self) -> (r: usize)
        ensures
            r == self@.len(),
    {
        self.values.len()
    }

    pub fn is_empty(&self) -> (r: bool)
        ensures
            r == (self@.len() == 0),
    {
        self.values.len() == 0
    }

    /// The resolution at `i`, or `None` where it is null.
    pub fn get(&self, i: usize) -> (r: Option<Resolution>)
        requires
            i < self@.len(),
        ensures
            r is Some <==> self@[i as int] is Some,
            r matches Some(x) ==> Some(x@) == self@[i as int],
    {
        proof {
            use_type_invariant(self);
        }
        match self.values[i] {
            Some(v) => match Resolution::try_from_u8(v) {
                Ok(x) => Some(x),
                Err(_) => None,
            },
            None => None,
        }
    }

    /// The values in order, `None` for each null.
    pub fn iter(&self) -> (r: Vec<Option<Resolution>>)
        ensures
            r@.len() == self@.len(),
            forall|i: int|
                0 <= i < r@.len() ==> (#[trigger] r@[i] is Some <==> self@[i] is Some) && (r@[i] matches Some(x)
                    ==> Some(x@) == self@[i]),
    {
        let n = self.len();
        let mut out: Vec<Option<Resolution>> = Vec::new();
        let mut i: usize = 0;
        while i < n
            invariant
                i <= n,
                n == self@.len(),
                out@.len() == i,
                forall|j: int|
                    0 <= j < i ==> (#[trigger] out@[j] is Some <==> self@[j] is Some) && (out@[j] matches Some(x)
                        ==> Some(x@) == self@[j]),
            decreases n - i,
        {
            out.push(self.get(i));
            i = i + 1;
        }
        out
    }

    /// The `length` positions from `offset` on.
    pub fn slice(&self, offset: usize, length: usize) -> (r: Self)
        requires
            offset + length <= self@.len(),
        ensures
            r@ == self@.subrange(offset as int, offset + length),
    {
        proof {
            use_type_invariant(self);
        }
        let n = self.values.len();
        let mut out: Vec<Option<u8>> = Vec::new();
        let mut i: usize = 0;
        while i < length
            invariant
                n == self@.len(),
                offset + length <= n,
                i <= length,
                all_resolutions(self@),
                out@ =~= self@.subrange(offset as int, offset + i),
            decreases length - i,
        {
            out.push(self.values[offset + i]);
            i = i + 1;
            assert(out@ =~= self@.subrange(offset as int, offset + i));
        }
        ResolutionArray { values: out }
    }

    /// Every non-null value checked; the first that is no resolution fails the construction.
    pub fn try_from_u8s(values: Vec<Option<u8>>) -> (r: Result<Self, Error>)
        ensures
            r is Ok <==> all_resolutions(values@),
            r matches Ok(a) ==> a@ == values@,
            r matches Err(e) ==> exists|i: int|
                0 <= i < values@.len() && #[trigger] values@[i] == Some(
                    match e {
                        Error::InvalidResolution(v) => v,
                        _ => 0u8,
                    },
                ) && values@[i]->0 > MAX_RESOLUTION && e is InvalidResolution,
    {
        let mut i: usize = 0;
        while i < values.len()
            invariant
                i <= values@.len(),
                forall|j: int| 0 <= j < i && (#[trigger] values@[j]) is Some ==> values@[j]->0 <= MAX_RESOLUTION,
            decreases values@.len() - i,
        {
            match values[i] {
                Some(v) => {
                    if v > MAX_RESOLUTION {
                        return Err(Error::InvalidResolution(v));
                    }
                },
                None => {},
            }
            i = i + 1;
        }
        Ok(ResolutionArray { values })
    }

    /// Every value that is no resolution set to null.
    pub fn from_with_validity(values: Vec<Option<u8>>) -> (r: Self)
        ensures
            r@.len() == values@.len(),
            forall|i: int|
                0 <= i < values@.len() ==> #[trigger] r@[i] == match values@[i] {
                    Some(v) => if v <= MAX_RESOLUTION {
                        Some(v)
                    } else {
                        None
                    },
                    None => None,
                },
    {
        let mut out: Vec<Option<u8>> = Vec::new();
        let mut i: usize = 0;
        while i < values.len()
            invariant
                i <= values@.len(),
                out@.len() == i,
                all_resolutions(out@),
                forall|j: int|
                    0 <= j < i ==> #[trigger] out@[j] == match values@[j] {
                        Some(v) => if v <= MAX_RESOLUTION {
                            Some(v)
                        } else {
                            None
                        },
                        None => None,
                    },
            decreases values@.len() - i,
        {
            let v = match values[i] {
                Some(v) => if v <= MAX_RESOLUTION {
                    Some(v)
                } else {
                    None
                },
                None => None,
            };
            out.push(v);
            i = i + 1;
        }
        ResolutionArray { values: out }
    }

    /// The array of the given resolutions.
    pub fn from_resolutions(values: Vec<Option<Resolution>>) -> (r: Self)
        ensures
            r@.len() == values@.len(),
            forall|i: int|
                0 <= i < values@.len() ==> #[trigger] r@[i] == match values@[i] {
                    Some(x) => Some(x@),
                    None => None,
                },
    {
        let mut out: Vec<Option<u8>> = Vec::new();
        let mut i: usize = 0;
        while i < values.len()
            invariant
                i <= values@.len(),
                out@.len() == i,
                all_resolutions(out@),
                forall|j: int|
                    0 <= j < i ==> #[trigger] out@[j] == match values@[j] {
                        Some(x) => Some(x@),
                        None => None,
                    },
            decreases values@.len() - i,
        {
            let v = match &values[i] {
                Some(x) => Some(x.value()),
                None => None,
            };
            out.push(v);
            i = i + 1;
        }
        ResolutionArray { values: out }
    }

    /// The next finer resolution of each value; null where there is none.
    pub fn succ(&self) -> (r: Self)
        ensures
            r@.len() == self@.len(),
            forall|i: int|
                0 <= i < self@.len() ==> #[trigger] r@[i] == match self@[i] {
                    Some(v) => if v < MAX_RESOLUTION {
                        Some((v + 1) as u8)
                    } else {
                        None
                    },
                    None => None,
                },
    {
        let mut out: Vec<Option<Resolution>> = Vec::new();
        let n = self.len();
        let mut i: usize = 0;
        while i < n
            invariant
                i <= n,
                n == self@.len(),
                out@.len() == i,
                forall|j: int|
                    0 <= j < i ==> res_opt(#[trigger] out@[j]) == match self@[j] {
                        Some(v) => if v < MAX_RESOLUTION {
                            Some((v + 1) as u8)
                        } else {
                            None
                        },
                        None => None,
                    },
            decreases n - i,
        {
            let v = match self.get(i) {
                Some(x) => x.succ(),
                None => None,
            };
            out.push(v);
            i = i + 1;
        }
        Self::from_resolutions(out)
    }

    /// The next coarser resolution of each value; null where there is none.
    pub fn pred(&self) -> (r: Self)
        ensures
            r@.len() == self@.len(),
            forall|i: int|
                0 <= i < self@.len() ==> #[trigger] r@[i] == match self@[i] {
                    Some(v) => if v > 0 {
                        Some((v - 1) as u8)
                    } else {
                        None
                    },
                    None => None,
                },
    {
        let mut out: Vec<Option<Resolution>> = Vec::new();
        let n = self.len();
        let mut i: usize = 0;
        while i < n
            invariant
                i <= n,
                n == self@.len(),
                out@.len() == i,
                forall|j: int|
                    0 <= j < i ==> res_opt(#[trigger] out@[j]) == match self@[j] {
                        Some(v) => if v > 0 {
                            Some((v - 1) as u8)
                        } else {
                            None
                        },
                        None => None,
                    },
            decreases n - i,
        {
            let v = match self.get(i) {
                Some(x) => x.pred(),
                None => None,
            };
            out.push(v);
            i = i + 1;
        }
        Self::from_resolutions(out)
    }

    /// The values, `None` for each null.
    pub fn into_inner(self) -> (r: Vec<Option<u8>>)
        ensures
            r@ == self@,
    {
        self.values
    }
}

impl FromWithValidity<Vec<Option<u8>>> for ResolutionArray {
    fn from_with_validity(value: Vec<Option<u8>>) -> Self {
        ResolutionArray::from_with_validity(value)
    }
}

impl FromIteratorWithValidity<Option<u8>> for ResolutionArray {
    fn from_iter_with_validity(values: Vec<Option<u8>>) -> Self {
        ResolutionArray::from_with_validity(values)
    }
}

} // verus!
