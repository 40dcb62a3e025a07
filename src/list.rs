use vstd::prelude::*;

use std::marker::PhantomData;

use crate::array::{all_some, H3Array};
use crate::error::Error;
use crate::index::H3IndexArrayValue;

verus! {

/// The entries of a ragged array: entry `i` is null, or the values between offsets `i` and `i + 1`.
pub open spec fn ragged<T>(offsets: Seq<usize>, validity: Seq<bool>, values: Seq<T>) -> Seq<
    Option<Seq<T>>,
> {
    Seq::new(
        validity.len(),
        |i: int|
            if validity[i] {
                Some(values.subrange(offsets[i] as int, offsets[i + 1] as int))
            } else {
                None
            },
    )
}

/// The values of all entries in order, a null entry giving none.
pub open spec fn flatten_entries<T>(s: Seq<Option<Seq<T>>>) -> Seq<T>
    decreases s.len(),
{
    if s.len() == 0 {
        Seq::empty()
    } else {
        flatten_entries(s.drop_last()) + match s.last() {
            Some(v) => v,
            None => Seq::empty(),
        }
    }
}

/// Offsets that start at 0, never decrease, and give null entries no values.
pub open spec fn offsets_wf(offsets: Seq<usize>, validity: Seq<bool>, values_len: int) -> bool {
    &&& offsets.len() == validity.len() + 1
    &&& offsets[0] == 0
    &&& forall|i: int, j: int| 0 <= i <= j < offsets.len() ==> offsets[i] <= offsets[j]
    &&& offsets.last() <= values_len
    &&& forall|i: int| 0 <= i < validity.len() && !(#[trigger] validity[i]) ==> offsets[i] == offsets[i + 1]
}

/// A nullable sequence of (possibly empty) sequences of values, stored flat with offsets.
pub struct ListArray<T: Copy> {
    offsets: Vec<usize>,
    validity: Vec<bool>,
    values: Vec<T>,
}

impl<T: Copy> View for ListArray<T> {
    type V = Seq<Option<Seq<T>>>;

    closed spec fn view(&self) -> Seq<Option<Seq<T>>> {
        ragged(self.offsets@, self.validity@, self.values@)
    }
}

impl<T: Copy> ListArray<T> {
    #[verifier::type_invariant]
    spec fn inv(&self) -> bool {
        &&& offsets_wf(self.offsets@, self.validity@, self.values@.len() as int)
        &&& self.offsets@.last() == self.values@.len()
        &&& flatten_entries(ragged(self.offsets@, self.validity@, self.values@)) == self.values@
    }

    pub fn len(&self) -> (r: usize)
        ensures
            r == self@.len(),
    {
        proof {
            use_type_invariant(self);
        }
        self.validity.len()
    }

    pub fn is_empty(&self) -> (r: bool)
        ensures
            r == (self@.len() == 0),
    {
        proof {
            use_type_invariant(self);
        }
        self.validity.len() == 0
    }

    /// The entry at `i`, or `None` where it is null.
    pub fn value(&self, i: usize) -> (r: Option<Vec<T>>)
        requires
            i < self@.len(),
        ensures
            r is Some <==> self@[i as int] is Some,
            r matches Some(v) ==> Some(v@) == self@[i as int],
    {
        proof {
            use_type_invariant(self);
        }
        if self.validity[i] {
            let n = self.offsets.len();
            assert(i + 1 < n);
            let start = self.offsets[i];
            let end = self.offsets[i + 1];
            let mut out: Vec<T> = Vec::new();
            let mut j: usize = start;
            while j < end
                invariant
                    start <= j <= end <= self.values@.len(),
                    out@ =~= self.values@.subrange(start as int, j as int),
                decreases end - j,
            {
                out.push(self.values[j]);
                j = j + 1;
                assert(out@ =~= self.values@.subrange(start as int, j as int));
            }
            Some(out)
        } else {
            None
        }
    }

    /// The values of all entries, concatenated in order.
    pub fn flat_values(&self) -> (r: Vec<T>)
        ensures
            r@ == flatten_entries(self@),
    {
        proof {
            use_type_invariant(self);
        }
        copy_vec(&self.values)
    }
}

fn copy_vec<T: Copy>(v: &Vec<T>) -> (r: Vec<T>)
    ensures
        r@ == v@,
{
    let mut out: Vec<T> = Vec::new();
    let mut i: usize = 0;
    while i < v.len()
        invariant
            i <= v@.len(),
            out@ =~= v@.take(i as int),
        decreases v@.len() - i,
    {
        out.push(v[i]);
        i = i + 1;
        assert(out@ =~= v@.take(i as int));
    }
    assert(v@.take(i as int) =~= v@);
    out
}

/// Builds a list array entry by entry: push the values of an entry, then end it.
pub struct ListArrayBuilder<T> {
    offsets: Vec<usize>,
    validity: Vec<bool>,
    values: Vec<T>,
}

impl<T: Copy> ListArrayBuilder<T> {
    pub closed spec fn wf(&self) -> bool {
        &&& offsets_wf(self.offsets@, self.validity@, self.values@.len() as int)
        &&& flatten_entries(ragged(self.offsets@, self.validity@, self.values@)) == self.values@.take(
            self.offsets@.last() as int,
        )
    }

    /// The entries ended so far.
    pub closed spec fn entries(&self) -> Seq<Option<Seq<T>>> {
        ragged(self.offsets@, self.validity@, self.values@)
    }

    /// The values pushed since the last entry ended.
    pub closed spec fn pending(&self) -> Seq<T> {
        self.values@.skip(self.offsets@.last() as int)
    }

    pub fn with_capacity(list_capacity: usize, values_capacity: usize) -> (b: Self)
        ensures
            b.wf(),
            b.entries() == Seq::<Option<Seq<T>>>::empty(),
            b.pending() == Seq::<T>::empty(),
    {
        let mut offsets: Vec<usize> = Vec::new();
        offsets.push(0);
        let b = ListArrayBuilder { offsets, validity: Vec::new(), values: Vec::new() };
        assert(b.entries() =~= Seq::<Option<Seq<T>>>::empty());
        assert(b.pending() =~= Seq::<T>::empty());
        assert(b.values@.take(0) =~= Seq::<T>::empty());
        b
    }

    /// Adds a value to the entry under construction.
    pub fn append_value(&mut self, v: T)
        requires
            old(self).wf(),
        ensures
            final(self).wf(),
            final(self).entries() == old(self).entries(),
            final(self).pending() == old(self).pending().push(v),
    {
        let ghost last = self.offsets@.last() as int;
        self.values.push(v);
        proof {
            let o = self.offsets@;
            assert forall|i: int| 0 <= i < self.validity@.len() implies (#[trigger] self.values@.subrange(o[i] as int, o[i + 1] as int)) == old(self).values@.subrange(o[i] as int, o[i + 1] as int) by {
                assert(o[i] <= o[i + 1]);
                assert(o[i + 1] <= o[o.len() - 1]);
                assert(self.values@.subrange(o[i] as int, o[i + 1] as int) =~= old(self).values@.subrange(o[i] as int, o[i + 1] as int));
            }
            assert(self.entries() =~= old(self).entries());
            assert(self.values@.take(last) =~= old(self).values@.take(last));
            assert(self.pending() =~= old(self).pending().push(v));
        }
    }

    /// Ends the entry under construction: with its values if `is_valid`, else as a null
    /// entry, whose values are dropped.
    pub fn append(&mut self, is_valid: bool)
        requires
            old(self).wf(),
        ensures
            final(self).wf(),
            final(self).entries() == old(self).entries().push(
                if is_valid {
                    Some(old(self).pending())
                } else {
                    None
                },
            ),
            final(self).pending() == Seq::<T>::empty(),
    {
        let ghost last = self.offsets@.last() as int;
        let ghost old_entries = self.entries();
        let n = self.offsets.len();
        let end_prev = self.offsets[n - 1];
        if !is_valid {
            self.values.truncate(end_prev);
        }
        let end = self.values.len();
        self.offsets.push(end);
        self.validity.push(is_valid);
        proof {
            let o = self.offsets@;
            let k = self.validity@.len() - 1;
            assert(o[k] == last);
            assert forall|i: int, j: int| 0 <= i <= j < o.len() implies o[i] <= o[j] by {
                if j < o.len() - 1 {
                    assert(old(self).offsets@[i] <= old(self).offsets@[j]);
                } else if i < o.len() - 1 {
                    assert(old(self).offsets@[i] <= old(self).offsets@[k]);
                }
            }
            assert forall|i: int| 0 <= i < k implies (#[trigger] self.values@.subrange(o[i] as int, o[i + 1] as int)) == old(self).values@.subrange(o[i] as int, o[i + 1] as int) by {
                assert(o[i] <= o[i + 1]);
                assert(o[i + 1] <= o[k]);
                assert(self.values@.subrange(o[i] as int, o[i + 1] as int) =~= old(self).values@.subrange(o[i] as int, o[i + 1] as int));
            }
            let new_entry = if is_valid {
                Some(old(self).pending())
            } else {
                None
            };
            if is_valid {
                assert(self.values@.subrange(o[k] as int, o[k + 1] as int) =~= old(self).pending());
            }
            assert(self.entries() =~= old_entries.push(new_entry));
            assert(self.entries().drop_last() =~= old_entries);
            assert(self.values@.take(last) =~= old(self).values@.take(last));
            if is_valid {
                assert(self.values@.take(end as int) =~= self.values@.take(last) + old(self).pending());
            } else {
                assert(self.values@.take(end as int) =~= self.values@.take(last) + Seq::<T>::empty());
            }
            assert(self.pending() =~= Seq::<T>::empty());
        }
    }

    /// Ends construction; values pushed after the last ended entry are dropped.
    pub fn finish(self) -> (r: ListArray<T>)
        requires
            self.wf(),
        ensures
            r@ == self.entries(),
    {
        let mut values = self.values;
        let n = self.offsets.len();
        let end = self.offsets[n - 1];
        values.truncate(end);
        proof {
            let o = self.offsets@;
            assert forall|i: int| 0 <= i < self.validity@.len() implies (#[trigger] values@.subrange(o[i] as int, o[i + 1] as int)) == self.values@.subrange(o[i] as int, o[i + 1] as int) by {
                assert(o[i] <= o[i + 1]);
                assert(o[i + 1] <= o[o.len() - 1]);
                assert(values@.subrange(o[i] as int, o[i + 1] as int) =~= self.values@.subrange(o[i] as int, o[i + 1] as int));
            }
            assert(ragged(o, self.validity@, values@) =~= self.entries());
            assert(values@ =~= self.values@.take(end as int));
        }
        ListArray { offsets: self.offsets, validity: self.validity, values }
    }
}

/// A list array of indices of one kind, every value valid for that kind.
pub struct H3ListArray<IX: H3IndexArrayValue> {
    list_array: ListArray<u64>,
    h3index_phantom: PhantomData<IX>,
}

/// Whether every value of every entry is valid for kind `IX`.
pub open spec fn entries_valid<IX: H3IndexArrayValue>(s: Seq<Option<Seq<u64>>>) -> bool {
    forall|i: int, j: int|
        0 <= i < s.len() && (#[trigger] s[i]) is Some && 0 <= j < s[i]->0.len() ==> IX::valid_raw(
            #[trigger] s[i]->0[j],
        )
}

pub proof fn lemma_flatten_valid<IX: H3IndexArrayValue>(s: Seq<Option<Seq<u64>>>)
    requires
        entries_valid::<IX>(s),
    ensures
        forall|j: int| 0 <= j < flatten_entries(s).len() ==> IX::valid_raw(#[trigger] flatten_entries(s)[j]),
    decreases s.len(),
{
    if s.len() > 0 {
        let p = s.drop_last();
        assert forall|i: int, j: int|
            0 <= i < p.len() && (#[trigger] p[i]) is Some && 0 <= j < p[i]->0.len() implies IX::valid_raw(
            #[trigger] p[i]->0[j],
        ) by {
            assert(s[i] == p[i]);
        }
        lemma_flatten_valid::<IX>(p);
        let tail = match s.last() {
            Some(v) => v,
            None => Seq::empty(),
        };
        assert forall|j: int| 0 <= j < flatten_entries(s).len() implies IX::valid_raw(#[trigger] flatten_entries(s)[j]) by {
            let fp = flatten_entries(p);
            if j < fp.len() {
                assert(flatten_entries(s)[j] == fp[j]);
            } else {
                assert(flatten_entries(s)[j] == tail[j - fp.len()]);
                assert(s[s.len() - 1] is Some);
            }
        }
    }
}

impl<IX: H3IndexArrayValue> View for H3ListArray<IX> {
    type V = Seq<Option<Seq<u64>>>;

    closed spec fn view(&self) -> Seq<Option<Seq<u64>>> {
        self.list_array@
    }
}

impl<IX: H3IndexArrayValue> H3ListArray<IX> {
    #[verifier::type_invariant]
    spec fn inv(&self) -> bool {
        entries_valid::<IX>(self.list_array@)
    }

    pub fn len(&self) -> (r: usize)
        ensures
            r == self@.len(),
    {
        self.list_array.len()
    }

    pub fn is_empty(&self) -> (r: bool)
        ensures
            r == (self@.len() == 0),
    {
        self.list_array.is_empty()
    }

    /// The entry at `i` as an array, or `None` where it is null.
    pub fn array_at(&self, i: usize) -> (r: Option<H3Array<IX>>)
        requires
            i < self@.len(),
        ensures
            r is Some <==> self@[i as int] is Some,
            r matches Some(a) ==> a@ == all_some(self@[i as int]->0),
    {
        proof {
            use_type_invariant(self);
        }
        match self.list_array.value(i) {
            Some(v) => {
                assert forall|j: int| 0 <= j < v@.len() implies IX::valid_raw(#[trigger] v@[j]) by {
                    assert(self.list_array@[i as int] is Some);
                    assert(v@[j] == self.list_array@[i as int]->0[j]);
                }
                Some(valid_array_of(&v))
            },
            None => None,
        }
    }

    /// Each entry as an array, `None` for each null entry.
    pub fn iter_arrays(&self) -> (r: Vec<Option<H3Array<IX>>>)
        ensures
            r@.len() == self@.len(),
            forall|i: int|
                0 <= i < r@.len() ==> (#[trigger] r@[i] is Some <==> self@[i] is Some) && (r@[i] matches Some(a)
                    ==> a@ == all_some(self@[i]->0)),
    {
        let n = self.len();
        let mut out: Vec<Option<H3Array<IX>>> = Vec::new();
        let mut i: usize = 0;
        while i < n
            invariant
                n == self@.len(),
                i <= n,
                out@.len() == i,
                forall|j: int|
                    0 <= j < i ==> (#[trigger] out@[j] is Some <==> self@[j] is Some) && (out@[j] matches Some(a)
                        ==> a@ == all_some(self@[j]->0)),
            decreases n - i,
        {
            out.push(self.array_at(i));
            i = i + 1;
        }
        out
    }

    /// The values of all entries, in order, as one array without nulls.
    pub fn into_flattened(self) -> (r: Result<H3Array<IX>, Error>)
        ensures
            r matches Ok(a) && a@ == all_some(flatten_entries(self@)),
    {
        proof {
            use_type_invariant(&self);
            lemma_flatten_valid::<IX>(self@);
        }
        let v = self.list_array.flat_values();
        Ok(valid_array_of(&v))
    }
}

/// The array of the given patterns, already known to be valid, none null.
pub(crate) fn valid_array_of<IX: H3IndexArrayValue>(v: &Vec<u64>) -> (r: H3Array<IX>)
    requires
        forall|j: int| 0 <= j < v@.len() ==> IX::valid_raw(#[trigger] v@[j]),
    ensures
        r@ == all_some(v@),
{
    let mut opts: Vec<Option<u64>> = Vec::new();
    let mut i: usize = 0;
    while i < v.len()
        invariant
            i <= v@.len(),
            forall|j: int| 0 <= j < v@.len() ==> IX::valid_raw(#[trigger] v@[j]),
            opts@ =~= all_some(v@.take(i as int)),
        decreases v@.len() - i,
    {
        opts.push(Some(v[i]));
        i = i + 1;
        assert(opts@ =~= all_some(v@.take(i as int)));
    }
    assert(v@.take(i as int) =~= v@);
    H3Array::from_valid_options(&opts)
}

/// Builds a list array of indices entry by entry.
pub struct H3ListArrayBuilder<IX: H3IndexArrayValue> {
    builder: ListArrayBuilder<u64>,
    h3index_phantom: PhantomData<IX>,
}

impl<IX: H3IndexArrayValue> H3ListArrayBuilder<IX> {
    pub closed spec fn wf(&self) -> bool {
        &&& self.builder.wf()
        &&& entries_valid::<IX>(self.builder.entries())
        &&& forall|j: int| 0 <= j < self.builder.pending().len() ==> IX::valid_raw(#[trigger] self.builder.pending()[j])
    }

    /// The entries ended so far.
    pub closed spec fn entries(&self) -> Seq<Option<Seq<u64>>> {
        self.builder.entries()
    }

    /// The values pushed since the last entry ended.
    pub closed spec fn pending(&self) -> Seq<u64> {
        self.builder.pending()
    }

    pub fn with_capacity(list_capacity: usize, values_capacity: usize) -> (b: Self)
        ensures
            b.wf(),
            b.entries() == Seq::<Option<Seq<u64>>>::empty(),
            b.pending() == Seq::<u64>::empty(),
    {
        H3ListArrayBuilder {
            builder: ListArrayBuilder::with_capacity(list_capacity, values_capacity),
            h3index_phantom: PhantomData,
        }
    }

    /// Ends the entry under construction, as a null entry unless `is_valid`.
    pub fn append(&mut self, is_valid: bool)
        requires
            old(self).wf(),
        ensures
            final(self).wf(),
            final(self).entries() == old(self).entries().push(
                if is_valid {
                    Some(old(self).pending())
                } else {
                    None
                },
            ),
            final(self).pending() == Seq::<u64>::empty(),
    {
        self.builder.append(is_valid);
        proof {
            let e = self.builder.entries();
            assert forall|i: int, j: int|
                0 <= i < e.len() && (#[trigger] e[i]) is Some && 0 <= j < e[i]->0.len() implies IX::valid_raw(
                #[trigger] e[i]->0[j],
            ) by {
                if i < e.len() - 1 {
                    assert(e[i] == old(self).entries()[i]);
                }
            }
        }
    }

    /// Adds a value to the entry under construction.
    pub fn append_value(&mut self, value: IX)
        requires
            old(self).wf(),
        ensures
            final(self).wf(),
            final(self).entries() == old(self).entries(),
            final(self).pending() == old(self).pending().push(value.raw()),
    {
        let v = value.to_u64();
        self.builder.append_value(v);
        proof {
            assert forall|j: int| 0 <= j < self.builder.pending().len() implies IX::valid_raw(#[trigger] self.builder.pending()[j]) by {
                if j < old(self).pending().len() {
                    assert(self.builder.pending()[j] == old(self).pending()[j]);
                }
            }
        }
    }

    /// Adds each of the values, in order, to the entry under construction.
    pub fn append_many(&mut self, values: Vec<IX>)
        requires
            old(self).wf(),
        ensures
            final(self).wf(),
            final(self).entries() == old(self).entries(),
            final(self).pending().len() == old(self).pending().len() + values@.len(),
            forall|j: int| 0 <= j < old(self).pending().len() ==> #[trigger] final(self).pending()[j] == old(self).pending()[j],
            forall|j: int| 0 <= j < values@.len() ==> #[trigger] final(self).pending()[old(self).pending().len() + j] == values@[j].raw(),
    {
        let mut i: usize = 0;
        while i < values.len()
            invariant
                i <= values@.len(),
                self.wf(),
                self.entries() == old(self).entries(),
                self.pending().len() == old(self).pending().len() + i,
                forall|j: int| 0 <= j < old(self).pending().len() ==> #[trigger] self.pending()[j] == old(self).pending()[j],
                forall|j: int| 0 <= j < i ==> #[trigger] self.pending()[old(self).pending().len() + j] == values@[j].raw(),
            decreases values@.len() - i,
        {
            self.append_value(values[i]);
            i = i + 1;
        }
    }

    /// Adds patterns already known to be valid, in order, to the entry under construction.
    pub(crate) fn append_valid_u64s(&mut self, values: &Vec<u64>)
        requires
            old(self).wf(),
            forall|j: int| 0 <= j < values@.len() ==> IX::valid_raw(#[trigger] values@[j]),
        ensures
            final(self).wf(),
            final(self).entries() == old(self).entries(),
            final(self).pending() == old(self).pending() + values@,
    {
        let mut i: usize = 0;
        while i < values.len()
            invariant
                i <= values@.len(),
                forall|j: int| 0 <= j < values@.len() ==> IX::valid_raw(#[trigger] values@[j]),
                self.wf(),
                self.entries() == old(self).entries(),
                self.pending() =~= old(self).pending() + values@.take(i as int),
            decreases values@.len() - i,
        {
            self.builder.append_value(values[i]);
            proof {
                assert forall|j: int| 0 <= j < self.builder.pending().len() implies IX::valid_raw(#[trigger] self.builder.pending()[j]) by {
                    if j < self.builder.pending().len() - 1 {
                        assert(self.builder.pending()[j] == self.builder.pending().drop_last()[j]);
                    }
                }
            }
            i = i + 1;
            assert(self.pending() =~= old(self).pending() + values@.take(i as int));
        }
        assert(values@.take(i as int) =~= values@);
    }

    /// Ends construction, with the entries ended so far.
    pub fn finish(self) -> (r: Result<H3ListArray<IX>, Error>)
        requires
            self.wf(),
        ensures
            r matches Ok(a) && a@ == self.entries(),
    {
        let list_array = self.builder.finish();
        Ok(H3ListArray { list_array, h3index_phantom: PhantomData })
    }
}

/// The view of nested vectors: each entry's values as a sequence.
pub open spec fn entries_view(s: Seq<Option<Vec<u64>>>) -> Seq<Option<Seq<u64>>> {
    s.map_values(|e: Option<Vec<u64>>| match e {
        Some(v) => Some(v@),
        None => None,
    })
}

impl<IX: H3IndexArrayValue> H3ListArray<IX> {
    /// Validates every value of every entry; the first invalid one fails the construction.
    pub fn try_from_entries(entries: Vec<Option<Vec<u64>>>) -> (r: Result<Self, Error>)
        ensures
            r is Ok <==> entries_valid::<IX>(entries_view(entries@)),
            r matches Ok(l) ==> l@ == entries_view(entries@),
            r matches Err(e) ==> exists|i: int, j: int|
                0 <= i < entries@.len() && entries@[i] is Some && 0 <= j < entries@[i]->0@.len()
                    && !IX::valid_raw(#[trigger] entries@[i]->0@[j]) && e == IX::invalid_error(entries@[i]->0@[j]),
    {
        let n = entries.len();
        let mut builder: H3ListArrayBuilder<IX> = H3ListArrayBuilder::with_capacity(n, n);
        let mut i: usize = 0;
        while i < n
            invariant
                i <= n,
                n == entries@.len(),
                builder.wf(),
                builder.pending() == Seq::<u64>::empty(),
                builder.entries() =~= entries_view(entries@.take(i as int)),
                entries_valid::<IX>(entries_view(entries@.take(i as int))),
            decreases n - i,
        {
            match &entries[i] {
                Some(values) => {
                    let mut j: usize = 0;
                    while j < values.len()
                        invariant
                            i < n,
                            n == entries@.len(),
                            entries@[i as int] is Some,
                            entries@[i as int]->0@ == values@,
                            j <= values@.len(),
                            forall|t: int| 0 <= t < j ==> IX::valid_raw(#[trigger] values@[t]),
                        decreases values@.len() - j,
                    {
                        match IX::try_from_u64(values[j]) {
                            Ok(_) => {},
                            Err(e) => {
                                proof {
                                    let v = entries_view(entries@);
                                    assert(v[i as int] == Some(values@));
                                    assert(v[i as int]->0[j as int] == values@[j as int]);
                                    assert(!IX::valid_raw(entries@[i as int]->0@[j as int]));
                                }
                                return Err(e);
                            },
                        }
                        j = j + 1;
                    }
                    builder.append_valid_u64s(values);
                    assert(builder.pending() =~= values@);
                    builder.append(true);
                },
                None => {
                    builder.append(false);
                },
            }
            i = i + 1;
            proof {
                let e = entries_view(entries@.take(i as int));
                assert(builder.entries() =~= e);
                assert forall|a: int, b: int| 0 <= a < e.len() && (#[trigger] e[a]) is Some && 0 <= b < e[a]->0.len() implies IX::valid_raw(#[trigger] e[a]->0[b]) by {
                    if a < i - 1 {
                        assert(e[a] == entries_view(entries@.take(i - 1))[a]);
                    }
                }
            }
        }
        assert(entries@.take(i as int) =~= entries@);
        builder.finish()
    }
}

} // verus!
